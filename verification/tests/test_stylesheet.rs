use renderer::mapcss::cascade::style_layers;
use renderer::mapcss::number::Number;
use renderer::mapcss::style_props::{style_props, CasingWidth};
use renderer::mapcss::color::{from_color_name, Color};
use renderer::mapcss::parser::{ColorDefs, ObjectType, ParseStep, Parser, PropertyValue, Rule, Test, UnaryTestType};
use renderer::mapcss::styler::{extract_canvas_fill_color, get_layer_id, is_non_trivial_cap, LineCap, StyleType, TextPosition};

fn parse(text: &str) -> Vec<Rule> {
    let mut parser = Parser::new(text, "test.mapcss", ColorDefs::new());
    loop {
        match parser.parse() {
            Ok(ParseStep::Done) => break,
            Ok(ParseStep::Import(name)) => panic!("unexpected import of {}", name),
            Err(e) => panic!("parse error: {:?}", e),
        }
    }
    parser.into_parts().0
}

fn canonical(rules: &[Rule]) -> String {
    rules.iter().map(|r| r.to_text()).collect::<Vec<_>>().join("\n\n")
}

const STYLESHEET: &str = r#"
@black: #000000;
way|z14-[highway=byway][bridge?]["name:en"],
node|z12-14[!building][population>=1000]::label {
    color: @black;
    width: 1.5;
    dashes: 3,4;
    text: name;
}
canvas { fill-color: #ffcc00; }
"#;

#[test]
fn test_canonical_text() {
    let rules = parse(STYLESHEET);
    assert_eq!(rules.len(), 2);
    assert_eq!(
        rules[0].to_text(),
        "way|z14-[highway=byway][bridge?][\"name:en\"],\nnode|z12-14[!building][population>=1000]::label {\ncolor: #000000;\nwidth: 1.5;\ndashes: 3,4;\ntext: name;\n}"
    );
    assert_eq!(rules[1].to_text(), "canvas {\nfill-color: #ffcc00;\n}");
}

#[test]
fn test_parsing_canonical_text_is_idempotent() {
    let first = canonical(&parse(STYLESHEET));
    let second = canonical(&parse(&first));
    assert_eq!(first, second);
}

#[test]
fn test_styler_helpers() {
    let rules = parse(STYLESHEET);
    assert_eq!(extract_canvas_fill_color(&rules, &StyleType::Josm), Some(Color { r: 255, g: 204, b: 0 }));
    assert_eq!(extract_canvas_fill_color(&rules, &StyleType::MapsMe), None);
    assert_eq!(get_layer_id(&rules[0].selectors[0]), "default");
    assert_eq!(get_layer_id(&rules[0].selectors[1]), "label");
    assert_eq!(rules[0].selectors[1].object_type, ObjectType::Node);
    match &rules[0].selectors[1].tests[0] {
        Test::Unary { tag_name, test_type } => {
            assert_eq!(tag_name, "building");
            assert_eq!(*test_type, UnaryTestType::NotExists);
        }
        _ => panic!("expected a unary test"),
    }
    match &rules[0].properties[0].value {
        PropertyValue::Color(c) => assert_eq!(*c, Color { r: 0, g: 0, b: 0 }),
        _ => panic!("expected a color"),
    }
    assert!(is_non_trivial_cap(&Some(LineCap::Round)));
    assert!(!is_non_trivial_cap(&Some(LineCap::Butt)));
    assert!(!is_non_trivial_cap(&None));
    assert_eq!(from_color_name("white"), Some(Color { r: 255, g: 255, b: 255 }));
    assert_eq!(from_color_name("no-such-color"), None);
}

#[test]
fn test_style_layers() {
    let rules = parse("way { width: 1; }\nway::* { color: red; }\nway::casing { width: 3; }\nnode { width: 9; }\n");
    let selected = vec![vec![true], vec![true], vec![true], vec![false]];
    let layers = style_layers(&rules, &selected);
    let find = |layer: &str| layers.iter().find(|(l, _)| l == layer).map(|(_, p)| p.clone());
    let prop = |props: &Vec<(String, (usize, usize))>, name: &str| {
        props.iter().find(|(n, _)| n == name).map(|(_, r)| *r)
    };
    assert_eq!(layers.len(), 3);
    let default = find("default").unwrap();
    assert_eq!(prop(&default, "width"), Some((0, 0)));
    assert_eq!(prop(&default, "color"), Some((1, 0)));
    let star = find("*").unwrap();
    assert_eq!(star.len(), 1);
    assert_eq!(prop(&star, "color"), Some((1, 0)));
    let casing = find("casing").unwrap();
    assert_eq!(prop(&casing, "color"), Some((1, 0)));
    assert_eq!(prop(&casing, "width"), Some((2, 0)));
}

#[test]
fn test_style_props() {
    let text = "way { width: 2; z-index: 5; color: red; fill-color: #102030; fill-position: background; \
                dashes: 3, 1.5; linecap: round; casing-width: eval(prop(\"width\") +1.5); casing-linecap: none; \
                text: name; text-position: line; font-size: 12; icon-image: \"shop.png\"; opacity: 1, 2; }\n\
                way::casing { casing-width: 4; text-color: nosuchcolor; linecap: 7; }\n";
    let rules = parse(text);
    let selected = vec![vec![true], vec![true]];
    let layers = style_layers(&rules, &selected);
    let default = &layers.iter().find(|(l, _)| l == "default").unwrap().1;
    let casing = &layers.iter().find(|(l, _)| l == "casing").unwrap().1;
    let num = |negative: bool, mantissa: u64, scale: usize| Number { negative, mantissa, scale, exponent: 0 };

    let p = style_props(&rules, default, Some(default));
    assert_eq!(p.width, Some(num(false, 2, 0)));
    assert_eq!(p.base_width, Some(num(false, 2, 0)));
    assert_eq!(p.z_index, Some(num(false, 5, 0)));
    assert_eq!(p.color, Some(Color { r: 255, g: 0, b: 0 }));
    assert_eq!(p.fill_color, Some(Color { r: 0x10, g: 0x20, b: 0x30 }));
    assert!(!p.is_foreground_fill);
    assert_eq!(p.dashes, Some(vec![num(false, 3, 0), num(false, 15, 1)]));
    assert_eq!(p.line_cap, Some(LineCap::Round));
    assert_eq!(p.casing_width, Some(CasingWidth::OverBase(num(false, 15, 1))));
    assert_eq!(p.casing_line_cap, Some(LineCap::Butt));
    assert_eq!(p.text_key.as_deref(), Some("name"));
    assert_eq!(p.text_position, Some(TextPosition::Line));
    assert_eq!(p.font_size, Some(num(false, 12, 0)));
    assert_eq!(p.icon_image.as_deref(), Some("shop.png"));
    assert_eq!(p.opacity, None);
    assert_eq!(p.fill_opacity, None);
    assert_eq!(p.background_color, None);
    assert_eq!(p.casing_dashes, None);

    let c = style_props(&rules, casing, Some(default));
    assert_eq!(c.width, None);
    assert_eq!(c.base_width, Some(num(false, 2, 0)));
    assert_eq!(c.casing_width, Some(CasingWidth::Fixed(num(false, 4, 0))));
    assert_eq!(c.text_color, None);
    assert_eq!(c.line_cap, None);
    assert!(c.is_foreground_fill);
    assert_eq!(style_props(&rules, casing, None).base_width, None);
}
