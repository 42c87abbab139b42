use crate::mapcss::cascade::{assoc_view, prop_map_view, PropMap, PropRef};
use crate::mapcss::color::{from_color_name, spec_color_by_name, Color};
use crate::mapcss::number::Number;
use crate::mapcss::parser::{rules_view, PropertyValue, PropertyValueView, Rule, RuleView};
use crate::mapcss::styler::{LineCap, TextPosition};
use crate::util::str_eq;
use vstd::prelude::*;

verus! {

/// The value of property `name` in a layer of an object's style, where the layer has it and
/// its reference names a property of the rules.
pub open spec fn layer_value(rules: Seq<RuleView>, layer: Map<Seq<char>, PropRef>, name: Seq<char>) -> Option<
    PropertyValueView,
> {
    if layer.contains_key(name) {
        let r = layer[name].0 as int;
        let p = layer[name].1 as int;
        if r < rules.len() && p < rules[r].properties.len() {
            Some(rules[r].properties[p].value)
        } else {
            None
        }
    } else {
        None
    }
}

pub open spec fn value_view(v: Option<&PropertyValue>) -> Option<PropertyValueView> {
    match v {
        Some(x) => Some(x@),
        None => None,
    }
}

/// A color property: a color, or the name of a known color.
pub open spec fn color_value(v: Option<PropertyValueView>) -> Option<Color> {
    match v {
        Some(PropertyValueView::Color(c)) => Some(c),
        Some(PropertyValueView::Identifier(id)) => spec_color_by_name(id),
        _ => None,
    }
}

/// A numeric property: exactly one number.
pub open spec fn number_value(v: Option<PropertyValueView>) -> Option<Number> {
    match v {
        Some(PropertyValueView::Numbers(ns)) => if ns.len() == 1 {
            Some(ns[0])
        } else {
            None
        },
        _ => None,
    }
}

/// A string property: an identifier or a quoted string.
pub open spec fn string_value(v: Option<PropertyValueView>) -> Option<Seq<char>> {
    match v {
        Some(PropertyValueView::Identifier(s)) => Some(s),
        Some(PropertyValueView::Str(s)) => Some(s),
        _ => None,
    }
}

/// A line cap property: `none` or `butt`, `round`, `square`.
pub open spec fn line_cap_value(v: Option<PropertyValueView>) -> Option<LineCap> {
    match v {
        Some(PropertyValueView::Identifier(id)) => if id == "none"@ || id == "butt"@ {
            Some(LineCap::Butt)
        } else if id == "round"@ {
            Some(LineCap::Round)
        } else if id == "square"@ {
            Some(LineCap::Square)
        } else {
            None
        },
        _ => None,
    }
}

/// A text position property: `center` or `line`.
pub open spec fn text_position_value(v: Option<PropertyValueView>) -> Option<TextPosition> {
    match v {
        Some(PropertyValueView::Identifier(id)) => if id == "center"@ {
            Some(TextPosition::Center)
        } else if id == "line"@ {
            Some(TextPosition::Line)
        } else {
            None
        },
        _ => None,
    }
}

/// A dash pattern: a list of numbers.
pub open spec fn dashes_value(v: Option<PropertyValueView>) -> Option<Seq<Number>> {
    match v {
        Some(PropertyValueView::Numbers(ns)) => Some(ns),
        _ => None,
    }
}

/// A fill is drawn in the foreground unless `fill-position` is `background`.
pub open spec fn foreground_value(v: Option<PropertyValueView>) -> bool {
    match v {
        Some(PropertyValueView::Identifier(id)) => id != "background"@,
        _ => true,
    }
}

/// The width of a line's casing as the stylesheet gives it.
#[derive(Clone, Copy, Debug, PartialEq, Eq, Structural)]
pub enum CasingWidth {
    /// A width of its own.
    Fixed(Number),
    /// So much more than the width of the line (an `eval(prop("width") + ...)`).
    OverBase(Number),
}

/// A casing width property: one number, or a width delta.
pub open spec fn casing_width_value(v: Option<PropertyValueView>) -> Option<CasingWidth> {
    match v {
        Some(PropertyValueView::Numbers(ns)) => if ns.len() == 1 {
            Some(CasingWidth::Fixed(ns[0]))
        } else {
            None
        },
        Some(PropertyValueView::WidthDelta(n)) => Some(CasingWidth::OverBase(n)),
        _ => None,
    }
}

/// The style of an object in one layer, read from the layer's properties, with its numbers as
/// the stylesheet writes them.
pub struct StyleProps {
    pub z_index: Option<Number>,
    pub color: Option<Color>,
    pub fill_color: Option<Color>,
    pub is_foreground_fill: bool,
    pub background_color: Option<Color>,
    pub opacity: Option<Number>,
    pub fill_opacity: Option<Number>,
    pub width: Option<Number>,
    /// The width that a casing surrounds: the layer's own, else that of the default layer.
    pub base_width: Option<Number>,
    pub dashes: Option<Vec<Number>>,
    pub line_cap: Option<LineCap>,
    pub casing_color: Option<Color>,
    pub casing_width: Option<CasingWidth>,
    pub casing_dashes: Option<Vec<Number>>,
    pub casing_line_cap: Option<LineCap>,
    pub icon_image: Option<String>,
    pub fill_image: Option<String>,
    /// The key of the tag whose value is the object's text.
    pub text_key: Option<String>,
    pub text_color: Option<Color>,
    pub text_position: Option<TextPosition>,
    pub font_size: Option<Number>,
}

pub struct StylePropsView {
    pub z_index: Option<Number>,
    pub color: Option<Color>,
    pub fill_color: Option<Color>,
    pub is_foreground_fill: bool,
    pub background_color: Option<Color>,
    pub opacity: Option<Number>,
    pub fill_opacity: Option<Number>,
    pub width: Option<Number>,
    pub base_width: Option<Number>,
    pub dashes: Option<Seq<Number>>,
    pub line_cap: Option<LineCap>,
    pub casing_color: Option<Color>,
    pub casing_width: Option<CasingWidth>,
    pub casing_dashes: Option<Seq<Number>>,
    pub casing_line_cap: Option<LineCap>,
    pub icon_image: Option<Seq<char>>,
    pub fill_image: Option<Seq<char>>,
    pub text_key: Option<Seq<char>>,
    pub text_color: Option<Color>,
    pub text_position: Option<TextPosition>,
    pub font_size: Option<Number>,
}

pub open spec fn opt_numbers_view(v: Option<Vec<Number>>) -> Option<Seq<Number>> {
    match v {
        Some(ns) => Some(ns@),
        None => None,
    }
}

pub open spec fn opt_text_view(v: Option<String>) -> Option<Seq<char>> {
    match v {
        Some(s) => Some(s@),
        None => None,
    }
}

impl View for StyleProps {
    type V = StylePropsView;

    open spec fn view(&self) -> StylePropsView {
        StylePropsView {
            z_index: self.z_index,
            color: self.color,
            fill_color: self.fill_color,
            is_foreground_fill: self.is_foreground_fill,
            background_color: self.background_color,
            opacity: self.opacity,
            fill_opacity: self.fill_opacity,
            width: self.width,
            base_width: self.base_width,
            dashes: opt_numbers_view(self.dashes),
            line_cap: self.line_cap,
            casing_color: self.casing_color,
            casing_width: self.casing_width,
            casing_dashes: opt_numbers_view(self.casing_dashes),
            casing_line_cap: self.casing_line_cap,
            icon_image: opt_text_view(self.icon_image),
            fill_image: opt_text_view(self.fill_image),
            text_key: opt_text_view(self.text_key),
            text_color: self.text_color,
            text_position: self.text_position,
            font_size: self.font_size,
        }
    }
}

/// The style that the properties of layer `cur` give, where `base` is the default layer (the
/// width of a casing falls back to its width).
pub open spec fn spec_style_props(
    rules: Seq<RuleView>,
    cur: Map<Seq<char>, PropRef>,
    base: Option<Map<Seq<char>, PropRef>>,
) -> StylePropsView {
    let v = |name: Seq<char>| layer_value(rules, cur, name);
    let width = number_value(v("width"@));
    StylePropsView {
        z_index: number_value(v("z-index"@)),
        color: color_value(v("color"@)),
        fill_color: color_value(v("fill-color"@)),
        is_foreground_fill: foreground_value(v("fill-position"@)),
        background_color: color_value(v("background-color"@)),
        opacity: number_value(v("opacity"@)),
        fill_opacity: number_value(v("fill-opacity"@)),
        width,
        base_width: match width {
            Some(w) => Some(w),
            None => match base {
                Some(b) => number_value(layer_value(rules, b, "width"@)),
                None => None,
            },
        },
        dashes: dashes_value(v("dashes"@)),
        line_cap: line_cap_value(v("linecap"@)),
        casing_color: color_value(v("casing-color"@)),
        casing_width: casing_width_value(v("casing-width"@)),
        casing_dashes: dashes_value(v("casing-dashes"@)),
        casing_line_cap: line_cap_value(v("casing-linecap"@)),
        icon_image: string_value(v("icon-image"@)),
        fill_image: string_value(v("fill-image"@)),
        text_key: string_value(v("text"@)),
        text_color: color_value(v("text-color"@)),
        text_position: text_position_value(v("text-position"@)),
        font_size: number_value(v("font-size"@)),
    }
}

proof fn lemma_assoc_last<V, W>(v: Seq<(String, V)>, f: spec_fn(V) -> W, k: Seq<char>, i: int)
    requires
        0 <= i < v.len(),
        v[i].0@ == k,
        forall|j: int| i < j < v.len() ==> (#[trigger] v[j]).0@ != k,
    ensures
        assoc_view(v, f).contains_key(k),
        assoc_view(v, f)[k] == f(v[i].1),
    decreases v.len(),
{
    if i < v.len() - 1 {
        let p = v.drop_last();
        assert forall|j: int| i < j < p.len() implies (#[trigger] p[j]).0@ != k by {
            assert(p[j] == v[j]);
        }
        assert(v[v.len() - 1].0@ != k);
        lemma_assoc_last(p, f, k, i);
    }
}

proof fn lemma_assoc_absent<V, W>(v: Seq<(String, V)>, f: spec_fn(V) -> W, k: Seq<char>)
    requires
        forall|j: int| 0 <= j < v.len() ==> (#[trigger] v[j]).0@ != k,
    ensures
        !assoc_view(v, f).contains_key(k),
    decreases v.len(),
{
    if v.len() > 0 {
        let p = v.drop_last();
        assert forall|j: int| 0 <= j < p.len() implies (#[trigger] p[j]).0@ != k by {
            assert(p[j] == v[j]);
        }
        assert(v[v.len() - 1].0@ != k);
        lemma_assoc_absent(p, f, k);
    }
}

/// The value of property `name` in a layer (the last entry of that name).
pub fn layer_lookup<'a>(rules: &'a Vec<Rule>, layer: &PropMap, name: &str) -> (res: Option<&'a PropertyValue>)
    ensures
        value_view(res) == layer_value(rules_view(rules@), prop_map_view(layer@), name@),
{
    let mut i: usize = layer.len();
    while i > 0
        invariant
            i <= layer@.len(),
            forall|j: int| i <= j < layer@.len() ==> (#[trigger] layer@[j]).0@ != name@,
        decreases i,
    {
        i = i - 1;
        if str_eq(layer[i].0.as_str(), name) {
            proof {
                lemma_assoc_last(layer@, |x: PropRef| x, name@, i as int);
            }
            let (r, p) = layer[i].1;
            if r < rules.len() && p < rules[r].properties.len() {
                assert(rules_view(rules@)[r as int] == rules@[r as int]@);
                return Some(&rules[r].properties[p].value);
            }
            assert(rules_view(rules@).len() == rules@.len());
            return None;
        }
    }
    proof {
        lemma_assoc_absent(layer@, |x: PropRef| x, name@);
    }
    None
}

fn get_color(v: Option<&PropertyValue>) -> (res: Option<Color>)
    ensures
        res == color_value(value_view(v)),
{
    match v {
        Some(PropertyValue::Color(c)) => Some(*c),
        Some(PropertyValue::Identifier(id)) => from_color_name(id.as_str()),
        _ => None,
    }
}

fn get_number(v: Option<&PropertyValue>) -> (res: Option<Number>)
    ensures
        res == number_value(value_view(v)),
{
    match v {
        Some(PropertyValue::Numbers(ns)) => if ns.len() == 1 {
            Some(ns[0])
        } else {
            None
        },
        _ => None,
    }
}

fn get_string(v: Option<&PropertyValue>) -> (res: Option<String>)
    ensures
        opt_text_view(res) == string_value(value_view(v)),
{
    match v {
        Some(PropertyValue::Identifier(s)) => Some(s.clone()),
        Some(PropertyValue::String(s)) => Some(s.clone()),
        _ => None,
    }
}

fn get_line_cap(v: Option<&PropertyValue>) -> (res: Option<LineCap>)
    ensures
        res == line_cap_value(value_view(v)),
{
    proof {
        reveal_strlit("none");
        reveal_strlit("butt");
        reveal_strlit("round");
        reveal_strlit("square");
    }
    match v {
        Some(PropertyValue::Identifier(id)) => {
            if str_eq(id.as_str(), "none") || str_eq(id.as_str(), "butt") {
                Some(LineCap::Butt)
            } else if str_eq(id.as_str(), "round") {
                Some(LineCap::Round)
            } else if str_eq(id.as_str(), "square") {
                Some(LineCap::Square)
            } else {
                None
            }
        },
        _ => None,
    }
}

fn get_text_position(v: Option<&PropertyValue>) -> (res: Option<TextPosition>)
    ensures
        res == text_position_value(value_view(v)),
{
    match v {
        Some(PropertyValue::Identifier(id)) => {
            if str_eq(id.as_str(), "center") {
                Some(TextPosition::Center)
            } else if str_eq(id.as_str(), "line") {
                Some(TextPosition::Line)
            } else {
                None
            }
        },
        _ => None,
    }
}

fn get_dashes(v: Option<&PropertyValue>) -> (res: Option<Vec<Number>>)
    ensures
        opt_numbers_view(res) == dashes_value(value_view(v)),
{
    match v {
        Some(PropertyValue::Numbers(ns)) => {
            let mut out: Vec<Number> = Vec::new();
            let mut i: usize = 0;
            while i < ns.len()
                invariant
                    i <= ns@.len(),
                    out@ == ns@.take(i as int),
                decreases ns@.len() - i,
            {
                out.push(ns[i]);
                i = i + 1;
                assert(out@ =~= ns@.take(i as int));
            }
            assert(ns@.take(ns@.len() as int) =~= ns@);
            Some(out)
        },
        _ => None,
    }
}

fn is_foreground(v: Option<&PropertyValue>) -> (res: bool)
    ensures
        res == foreground_value(value_view(v)),
{
    match v {
        Some(PropertyValue::Identifier(id)) => !str_eq(id.as_str(), "background"),
        _ => true,
    }
}

fn get_casing_width(v: Option<&PropertyValue>) -> (res: Option<CasingWidth>)
    ensures
        res == casing_width_value(value_view(v)),
{
    match v {
        Some(PropertyValue::Numbers(ns)) => if ns.len() == 1 {
            Some(CasingWidth::Fixed(ns[0]))
        } else {
            None
        },
        Some(PropertyValue::WidthDelta(n)) => Some(CasingWidth::OverBase(*n)),
        _ => None,
    }
}

/// Reads the style of an object in one layer from the layer's properties, `base` being the
/// default layer where the object has one. A property of the wrong kind counts as missing.
pub fn style_props(rules: &Vec<Rule>, current: &PropMap, base: Option<&PropMap>) -> (res: StyleProps)
    ensures
        res@ == spec_style_props(
            rules_view(rules@),
            prop_map_view(current@),
            match base {
                Some(b) => Some(prop_map_view(b@)),
                None => None,
            },
        ),
{
    let width = get_number(layer_lookup(rules, current, "width"));
    let base_width = match width {
        Some(w) => Some(w),
        None => match base {
            Some(b) => get_number(layer_lookup(rules, b, "width")),
            None => None,
        },
    };
    let res = StyleProps {
        z_index: get_number(layer_lookup(rules, current, "z-index")),
        color: get_color(layer_lookup(rules, current, "color")),
        fill_color: get_color(layer_lookup(rules, current, "fill-color")),
        is_foreground_fill: is_foreground(layer_lookup(rules, current, "fill-position")),
        background_color: get_color(layer_lookup(rules, current, "background-color")),
        opacity: get_number(layer_lookup(rules, current, "opacity")),
        fill_opacity: get_number(layer_lookup(rules, current, "fill-opacity")),
        width,
        base_width,
        dashes: get_dashes(layer_lookup(rules, current, "dashes")),
        line_cap: get_line_cap(layer_lookup(rules, current, "linecap")),
        casing_color: get_color(layer_lookup(rules, current, "casing-color")),
        casing_width: get_casing_width(layer_lookup(rules, current, "casing-width")),
        casing_dashes: get_dashes(layer_lookup(rules, current, "casing-dashes")),
        casing_line_cap: get_line_cap(layer_lookup(rules, current, "casing-linecap")),
        icon_image: get_string(layer_lookup(rules, current, "icon-image")),
        fill_image: get_string(layer_lookup(rules, current, "fill-image")),
        text_key: get_string(layer_lookup(rules, current, "text")),
        text_color: get_color(layer_lookup(rules, current, "text-color")),
        text_position: get_text_position(layer_lookup(rules, current, "text-position")),
        font_size: get_number(layer_lookup(rules, current, "font-size")),
    };
    res
}

} // verus!
