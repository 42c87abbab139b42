use crate::geodata::reader::{decoded, Tags};
use crate::mapcss::color::Color;
use crate::mapcss::parser::{
    BinaryStringTestType, ObjectType, PropertyValue, PropertyValueView, PropertyView, Rule, RuleView, Selector,
    SelectorView, Test, TestView, UnaryTestType, rules_view,
};
use crate::geodata::bytes::{bytes_lt, lemma_bytes_lt_asymmetric};
use crate::util::str_eq;
use vstd::utf8::encode_utf8;
use vstd::prelude::*;

verus! {

/// How the ends of a line are drawn.
#[derive(Clone, Copy, Debug, PartialEq, Eq, Structural, Hash)]
pub enum LineCap {
    Butt,
    Round,
    Square,
}

/// Where the text of an object is placed.
#[derive(Clone, Copy, Debug, PartialEq, Eq, Structural, Hash)]
pub enum TextPosition {
    Center,
    Line,
}

/// Whether a line cap reaches beyond the end of a line.
pub fn is_non_trivial_cap(line_cap: &Option<LineCap>) -> (res: bool)
    ensures
        res == (*line_cap == Some(LineCap::Square) || *line_cap == Some(LineCap::Round)),
{
    match line_cap {
        Some(LineCap::Square) | Some(LineCap::Round) => true,
        _ => false,
    }
}

/// The dialect of MapCSS that a stylesheet is written in.
#[derive(Clone, Copy, Debug, PartialEq, Eq, Structural)]
pub enum StyleType {
    Josm,
    MapsMe,
}


/// Whether a tag's value counts as true.
pub open spec fn spec_is_true_value(x: Seq<char>) -> bool {
    x == "yes"@ || x == "true"@ || x == "1"@
}

pub fn is_true_value(x: &str) -> (res: bool)
    ensures
        res == spec_is_true_value(x@),
{
    str_eq(x, "yes") || str_eq(x, "true") || str_eq(x, "1")
}

pub open spec fn opt_view(v: Option<String>) -> Option<Seq<char>> {
    match v {
        Some(s) => Some(s@),
        None => None,
    }
}

/// Whether a tag with the value `tag_val` (`None`: no such tag) passes a unary test.
pub open spec fn spec_unary_test(tag_val: Option<Seq<char>>, test_type: UnaryTestType) -> bool {
    match test_type {
        UnaryTestType::Exists => tag_val is Some,
        UnaryTestType::NotExists => tag_val is None,
        UnaryTestType::True => tag_val matches Some(x) && spec_is_true_value(x),
        UnaryTestType::False => !(tag_val matches Some(x) && spec_is_true_value(x)),
    }
}

pub fn unary_test_matches(tag_val: &Option<String>, test_type: UnaryTestType) -> (res: bool)
    ensures
        res == spec_unary_test(opt_view(*tag_val), test_type),
{
    match test_type {
        UnaryTestType::Exists => tag_val.is_some(),
        UnaryTestType::NotExists => tag_val.is_none(),
        UnaryTestType::True => match tag_val {
            Some(x) => is_true_value(x.as_str()),
            None => false,
        },
        UnaryTestType::False => match tag_val {
            Some(x) => !is_true_value(x.as_str()),
            None => true,
        },
    }
}

/// Whether a tag with the value `tag_val` passes a comparison with the text `value`.
pub open spec fn spec_string_test(tag_val: Option<Seq<char>>, value: Seq<char>, test_type: BinaryStringTestType) -> bool {
    match test_type {
        BinaryStringTestType::Equal => tag_val == Some(value),
        BinaryStringTestType::NotEqual => tag_val != Some(value),
    }
}

/// A `!=` test passes exactly where the `=` test with the same tag and text fails, where the
/// tag is missing too; the `=` test passes exactly where the tag is present with that text.
pub proof fn lemma_not_equal_negates_equal(tag_val: Option<Seq<char>>, value: Seq<char>)
    ensures
        spec_string_test(tag_val, value, BinaryStringTestType::NotEqual) == !spec_string_test(
            tag_val,
            value,
            BinaryStringTestType::Equal,
        ),
        spec_string_test(tag_val, value, BinaryStringTestType::Equal) <==> (tag_val matches Some(v) && v == value),
        tag_val is None ==> spec_string_test(tag_val, value, BinaryStringTestType::NotEqual),
{
}

/// Of the unary tests, `!` negates: a tag that is missing fails `[k]` and passes `[!k]`, and a
/// tag passes `[k?!]` exactly where it fails `[k?]`, which only a present tag with a true value
/// passes.
pub proof fn lemma_unary_negations(tag_val: Option<Seq<char>>)
    ensures
        spec_unary_test(tag_val, UnaryTestType::NotExists) == !spec_unary_test(tag_val, UnaryTestType::Exists),
        spec_unary_test(tag_val, UnaryTestType::Exists) <==> tag_val is Some,
        spec_unary_test(tag_val, UnaryTestType::False) == !spec_unary_test(tag_val, UnaryTestType::True),
        spec_unary_test(tag_val, UnaryTestType::True) ==> (tag_val matches Some(v) && spec_is_true_value(v)),
{
}

pub fn string_test_matches(tag_val: &Option<String>, value: &str, test_type: BinaryStringTestType) -> (res: bool)
    ensures
        res == spec_string_test(opt_view(*tag_val), value@, test_type),
{
    let equal = match tag_val {
        Some(x) => str_eq(x.as_str(), value),
        None => false,
    };
    match test_type {
        BinaryStringTestType::Equal => equal,
        BinaryStringTestType::NotEqual => !equal,
    }
}

/// The value of the tag `name` in sorted tags (where its keys are unique): the value of the
/// tag with that key, where it decodes.
pub open spec fn sorted_tag_value<'a>(tags: &Tags<'a>, name: Seq<char>) -> Option<Seq<char>> {
    let kb = encode_utf8(name);
    if exists|j: int| 0 <= j < tags.kv_count() && #[trigger] tags.has_key(j, kb) {
        decoded(tags.entry(choose|j: int| 0 <= j < tags.kv_count() && #[trigger] tags.has_key(j, kb)).unwrap().1)
    } else {
        None
    }
}

/// What `Tags::get_by_key` finds in sorted tags is the value of the tag.
proof fn lemma_found_in_sorted<'a>(tags: &Tags<'a>, name: Seq<char>, found: Option<Seq<char>>)
    requires
        tags.sorted(),
        found matches Some(v) ==> exists|j: int|
            0 <= j < tags.kv_count() && #[trigger] tags.has_key(j, encode_utf8(name)) && decoded(tags.entry(j).unwrap().1)
                == Some(v),
        found is None ==> forall|j: int|
            0 <= j < tags.kv_count() && #[trigger] tags.has_key(j, encode_utf8(name)) ==> decoded(
                tags.entry(j).unwrap().1,
            ) is None,
    ensures
        found == sorted_tag_value(tags, name),
{
    let kb = encode_utf8(name);
    assert forall|i: int, j: int|
        0 <= i < tags.kv_count() && 0 <= j < tags.kv_count() && #[trigger] tags.has_key(i, kb) && #[trigger] tags.has_key(
            j,
            kb,
        ) implies i == j by {
        if i < j {
            assert(bytes_lt(tags.entry(i).unwrap().0, tags.entry(j).unwrap().0));
            lemma_bytes_lt_asymmetric(kb, kb);
        } else if j < i {
            assert(bytes_lt(tags.entry(j).unwrap().0, tags.entry(i).unwrap().0));
            lemma_bytes_lt_asymmetric(kb, kb);
        }
    }
    if exists|j: int| 0 <= j < tags.kv_count() && #[trigger] tags.has_key(j, kb) {
        let c = choose|j: int| 0 <= j < tags.kv_count() && #[trigger] tags.has_key(j, kb);
        if let Some(v) = found {
            let j = choose|j: int|
                0 <= j < tags.kv_count() && #[trigger] tags.has_key(j, kb) && decoded(tags.entry(j).unwrap().1) == Some(v);
            assert(j == c);
        }
    }
}

/// Whether the tags pass a test that compares no numbers: the test's result on the value that
/// `Tags::get_by_key` finds for the tag, which for sorted tags is the value of the tag; `None`
/// for a numeric comparison, which is made on floating-point numbers by the caller.
pub fn matches_by_tags<'a>(tags: &Tags<'a>, test: &Test) -> (res: Option<bool>)
    requires
        tags.wf(),
    ensures
        (res is None) == (test@ is BinaryNumericCompare),
        res == match test@ {
            TestView::Unary { tag_name, test_type } => Some(
                spec_unary_test(tags.value_of(encode_utf8(tag_name)), test_type),
            ),
            TestView::BinaryStringCompare { tag_name, value, test_type } => Some(
                spec_string_test(tags.value_of(encode_utf8(tag_name)), value, test_type),
            ),
            TestView::BinaryNumericCompare { .. } => None,
        },
        tags.sorted() ==> res == match test@ {
            TestView::Unary { tag_name, test_type } => Some(spec_unary_test(sorted_tag_value(tags, tag_name), test_type)),
            TestView::BinaryStringCompare { tag_name, value, test_type } => Some(
                spec_string_test(sorted_tag_value(tags, tag_name), value, test_type),
            ),
            TestView::BinaryNumericCompare { .. } => None,
        },
{
    match test {
        Test::Unary { tag_name, test_type } => {
            let tag_val = tags.get_by_key(tag_name.as_str());
            proof {
                if tags.sorted() {
                    lemma_found_in_sorted(tags, tag_name@, opt_view(tag_val));
                }
            }
            Some(unary_test_matches(&tag_val, *test_type))
        },
        Test::BinaryStringCompare { tag_name, value, test_type } => {
            let tag_val = tags.get_by_key(tag_name.as_str());
            proof {
                if tags.sorted() {
                    lemma_found_in_sorted(tags, tag_name@, opt_view(tag_val));
                }
            }
            Some(string_test_matches(&tag_val, value.as_str(), *test_type))
        },
        Test::BinaryNumericCompare { .. } => None,
    }
}

/// Whether a selector applies at a zoom level.
pub open spec fn spec_zoom_matches(min_zoom: Option<u8>, max_zoom: Option<u8>, zoom: u8) -> bool {
    &&& min_zoom matches Some(m) ==> zoom >= m
    &&& max_zoom matches Some(m) ==> zoom <= m
}

pub fn zoom_matches(selector: &Selector, zoom: u8) -> (res: bool)
    ensures
        res == spec_zoom_matches(selector.min_zoom, selector.max_zoom, zoom),
{
    if let Some(min_zoom) = selector.min_zoom {
        if zoom < min_zoom {
            return false;
        }
    }
    if let Some(max_zoom) = selector.max_zoom {
        if zoom > max_zoom {
            return false;
        }
    }
    true
}

/// Whether a node is an object of the type `object_type`.
pub fn node_matches_object_type(object_type: ObjectType) -> (res: bool)
    ensures
        res == (object_type == ObjectType::Node),
{
    match object_type {
        ObjectType::Node => true,
        _ => false,
    }
}

/// Whether a way or a multipolygon (closed or not) is an object of the type `object_type`.
pub fn area_matches_object_type(object_type: ObjectType, is_closed: bool) -> (res: bool)
    ensures
        res == (object_type == ObjectType::Way || (object_type == ObjectType::Area && is_closed)),
{
    match object_type {
        ObjectType::Way => true,
        ObjectType::Area => is_closed,
        _ => false,
    }
}

/// The layer of a selector: its own, or the default one.
pub fn get_layer_id(selector: &Selector) -> (res: &str)
    ensures
        res@ == match selector.layer_id {
            Some(id) => id@,
            None => "default"@,
        },
{
    match &selector.layer_id {
        Some(id) => id.as_str(),
        None => "default",
    }
}

/// The name of the property that gives the canvas color in a stylesheet dialect.
pub open spec fn canvas_color_property(style_type: StyleType) -> Seq<char> {
    match style_type {
        StyleType::Josm => "fill-color"@,
        StyleType::MapsMe => "background-color"@,
    }
}

/// The first color among the properties named `name`.
pub open spec fn first_color(props: Seq<PropertyView>, name: Seq<char>) -> Option<Color>
    decreases props.len(),
{
    if props.len() == 0 {
        None
    } else if props[0].name == name && props[0].value is Color {
        Some(props[0].value->Color_0)
    } else {
        first_color(props.drop_first(), name)
    }
}

/// The color of the canvas: in the first rule that has a canvas selector and a color for the
/// dialect's canvas property, the first such color.
pub open spec fn spec_canvas_fill_color(rules: Seq<RuleView>, name: Seq<char>) -> Option<Color>
    decreases rules.len(),
{
    if rules.len() == 0 {
        None
    } else if (exists|i: int| 0 <= i < rules[0].selectors.len() && (#[trigger] rules[0].selectors[i]).object_type
        == ObjectType::Canvas) && first_color(rules[0].properties, name) is Some {
        first_color(rules[0].properties, name)
    } else {
        spec_canvas_fill_color(rules.drop_first(), name)
    }
}

fn first_color_in(props: &Vec<crate::mapcss::parser::Property>, name: &str) -> (res: Option<Color>)
    ensures
        res == first_color(crate::mapcss::parser::properties_view(props@), name@),
{
    let ghost pv = crate::mapcss::parser::properties_view(props@);
    let mut i: usize = 0;
    assert(pv.skip(0) =~= pv);
    while i < props.len()
        invariant
            i <= props@.len(),
            pv == crate::mapcss::parser::properties_view(props@),
            first_color(pv, name@) == first_color(pv.skip(i as int), name@),
        decreases props@.len() - i,
    {
        assert(pv.skip(i as int)[0] == props@[i as int]@);
        if str_eq(props[i].name.as_str(), name) {
            if let PropertyValue::Color(c) = &props[i].value {
                return Some(*c);
            }
        }
        assert(pv.skip(i as int).drop_first() =~= pv.skip(i + 1));
        i = i + 1;
    }
    None
}

/// The color of the canvas that the rules give (see `spec_canvas_fill_color`).
pub fn extract_canvas_fill_color(rules: &Vec<Rule>, style_type: &StyleType) -> (res: Option<Color>)
    ensures
        res == spec_canvas_fill_color(rules_view(rules@), canvas_color_property(*style_type)),
{
    let color_prop = match style_type {
        StyleType::Josm => "fill-color",
        StyleType::MapsMe => "background-color",
    };
    let ghost rv = rules_view(rules@);
    assert(rv.skip(0) =~= rv);
    let mut r: usize = 0;
    while r < rules.len()
        invariant
            r <= rules@.len(),
            rv == rules_view(rules@),
            color_prop@ == canvas_color_property(*style_type),
            spec_canvas_fill_color(rv, color_prop@) == spec_canvas_fill_color(rv.skip(r as int), color_prop@),
        decreases rules@.len() - r,
    {
        let rule = &rules[r];
        assert(rv.skip(r as int)[0] == rule@);
        let mut has_canvas = false;
        let mut s: usize = 0;
        while s < rule.selectors.len()
            invariant
                s <= rule.selectors@.len(),
                has_canvas == exists|i: int| 0 <= i < s && (#[trigger] rule.selectors@[i]).object_type == ObjectType::Canvas,
            decreases rule.selectors@.len() - s,
        {
            if rule.selectors[s].object_type == ObjectType::Canvas {
                has_canvas = true;
            }
            s = s + 1;
        }
        assert(has_canvas == exists|i: int|
            0 <= i < rule@.selectors.len() && (#[trigger] rule@.selectors[i]).object_type == ObjectType::Canvas) by {
            if has_canvas {
                let i = choose|i: int| 0 <= i < s && (#[trigger] rule.selectors@[i]).object_type == ObjectType::Canvas;
                assert(rule@.selectors[i] == rule.selectors@[i]@);
            }
            if exists|i: int| 0 <= i < rule@.selectors.len() && (#[trigger] rule@.selectors[i]).object_type == ObjectType::Canvas {
                let i = choose|i: int| 0 <= i < rule@.selectors.len() && (#[trigger] rule@.selectors[i]).object_type == ObjectType::Canvas;
                assert(rule@.selectors[i] == rule.selectors@[i]@);
            }
        }
        if has_canvas {
            let c = first_color_in(&rule.properties, color_prop);
            if c.is_some() {
                return c;
            }
        }
        assert(rv.skip(r as int).drop_first() =~= rv.skip(r + 1));
        r = r + 1;
    }
    None
}

} // verus!
