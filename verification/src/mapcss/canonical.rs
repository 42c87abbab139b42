use crate::mapcss::color::Color;
use crate::mapcss::number::{number_text, push_number_text, Number};
use crate::mapcss::parser::{
    properties_view, selectors_view, tests_view, BinaryNumericTestType, BinaryStringTestType, ObjectType, Property,
    PropertyValue, PropertyValueView, PropertyView, Rule, RuleView, Selector, SelectorView, Test, TestView,
    UnaryTestType,
};
use crate::mapcss::parser_spec::{binary_numeric_test_type_of, binary_string_test_type_of};
use crate::mapcss::token::TokenView;
use crate::mapcss::token_spec::{spec_one_char_token, spec_two_char_token};
use crate::util::{push_str, string_push};
use vstd::prelude::*;

verus! {

/// The stylesheet name of an object type.
pub open spec fn object_type_text(t: ObjectType) -> Seq<char> {
    match t {
        ObjectType::All => "*"@,
        ObjectType::Canvas => "canvas"@,
        ObjectType::Meta => "meta"@,
        ObjectType::Node => "node"@,
        ObjectType::Way => "way"@,
        ObjectType::Area => "area"@,
    }
}

/// A tag name as a test writes it: quoted where it holds a colon.
pub open spec fn quoted_tag(name: Seq<char>) -> Seq<char> {
    if name.contains(':') {
        seq!['"'] + name + seq!['"']
    } else {
        name
    }
}

pub open spec fn numeric_sign(t: BinaryNumericTestType) -> Seq<char> {
    match t {
        BinaryNumericTestType::Less => "<"@,
        BinaryNumericTestType::LessOrEqual => "<="@,
        BinaryNumericTestType::Greater => ">"@,
        BinaryNumericTestType::GreaterOrEqual => ">="@,
    }
}

/// The comparison sign of each numeric test type reads as a token that the parser takes to
/// that test type, and no other token is taken to it: `<` gives `Less`, `<=` `LessOrEqual`,
/// `>` `Greater` and `>=` `GreaterOrEqual`.
pub proof fn lemma_numeric_sign_reads_back(tt: BinaryNumericTestType, t: TokenView)
    ensures
        sign_token(numeric_sign(tt)) matches Some(k) && binary_numeric_test_type_of(k) == Some(tt),
        binary_numeric_test_type_of(t) == Some(tt) ==> sign_token(numeric_sign(tt)) == Some(t),
{
    reveal_strlit("<");
    reveal_strlit("<=");
    reveal_strlit(">");
    reveal_strlit(">=");
}

/// The signs of the string tests read as the tokens that the parser takes to those tests, and
/// no other token is taken to them: `=` gives `Equal` and `!=` gives `NotEqual`.
pub proof fn lemma_string_sign_reads_back(t: TokenView)
    ensures
        sign_token("="@) matches Some(k) && binary_string_test_type_of(k) == Some(BinaryStringTestType::Equal),
        sign_token("!="@) matches Some(k) && binary_string_test_type_of(k) == Some(BinaryStringTestType::NotEqual),
        binary_string_test_type_of(t) == Some(BinaryStringTestType::Equal) ==> sign_token("="@) == Some(t),
        binary_string_test_type_of(t) == Some(BinaryStringTestType::NotEqual) ==> sign_token("!="@) == Some(t),
{
    reveal_strlit("=");
    reveal_strlit("!=");
}

/// The token that a sign of one or two punctuation characters reads as.
pub open spec fn sign_token(s: Seq<char>) -> Option<TokenView> {
    if s.len() == 1 {
        spec_one_char_token(s[0])
    } else if s.len() == 2 {
        spec_two_char_token(s[0], s[1])
    } else {
        None
    }
}

/// The text of a test, in brackets.
pub open spec fn test_text(t: TestView) -> Seq<char> {
    let inner = match t {
        TestView::Unary { tag_name, test_type } => match test_type {
            UnaryTestType::Exists => quoted_tag(tag_name),
            UnaryTestType::NotExists => seq!['!'] + quoted_tag(tag_name),
            UnaryTestType::True => quoted_tag(tag_name) + seq!['?'],
            UnaryTestType::False => seq!['!'] + quoted_tag(tag_name) + seq!['?'],
        },
        TestView::BinaryStringCompare { tag_name, value, test_type } => quoted_tag(tag_name) + match test_type {
            BinaryStringTestType::Equal => "="@,
            BinaryStringTestType::NotEqual => "!="@,
        } + value,
        TestView::BinaryNumericCompare { tag_name, value, test_type } => quoted_tag(tag_name) + numeric_sign(test_type)
            + number_text(value),
    };
    seq!['['] + inner + seq![']']
}

/// The lower-case hexadecimal digit of `d`.
pub open spec fn hex_digit(d: nat) -> char {
    if d < 10 {
        ('0' as nat + d) as char
    } else {
        ('a' as nat + d - 10) as char
    }
}

/// A byte as two hexadecimal digits.
pub open spec fn hex_byte(b: u8) -> Seq<char> {
    seq![hex_digit((b / 16) as nat), hex_digit((b % 16) as nat)]
}

pub open spec fn color_text(c: Color) -> Seq<char> {
    seq!['#'] + hex_byte(c.r) + hex_byte(c.g) + hex_byte(c.b)
}

/// Numbers separated by commas.
pub open spec fn numbers_text(nums: Seq<Number>) -> Seq<char>
    decreases nums.len(),
{
    if nums.len() == 0 {
        Seq::empty()
    } else if nums.len() == 1 {
        number_text(nums[0])
    } else {
        numbers_text(nums.drop_last()) + seq![','] + number_text(nums.last())
    }
}

/// The text of a property's value.
pub open spec fn property_value_text(v: PropertyValueView) -> Seq<char> {
    match v {
        PropertyValueView::Color(c) => color_text(c),
        PropertyValueView::Identifier(id) => id,
        PropertyValueView::Str(s) => seq!['"'] + s + seq!['"'],
        PropertyValueView::Numbers(nums) => numbers_text(nums),
        PropertyValueView::WidthDelta(d) => "eval(prop(\"width\")) + "@ + number_text(d),
    }
}

/// A property as `name: value;`.
pub open spec fn property_text(p: PropertyView) -> Seq<char> {
    p.name + ": "@ + property_value_text(p.value) + seq![';']
}

/// The text of a zoom level.
pub open spec fn zoom_text(z: u8) -> Seq<char> {
    number_text(Number { negative: false, mantissa: z as u64, scale: 0, exponent: 0 })
}

/// The zoom range of a selector as written after `|z`.
pub open spec fn zoom_range_text(min_zoom: Option<u8>, max_zoom: Option<u8>) -> Seq<char> {
    match (min_zoom, max_zoom) {
        (None, None) => Seq::empty(),
        (Some(mn), None) => zoom_text(mn) + seq!['-'],
        (None, Some(mx)) => seq!['-'] + zoom_text(mx),
        (Some(mn), Some(mx)) => if mn != mx {
            zoom_text(mn) + seq!['-'] + zoom_text(mx)
        } else {
            zoom_text(mn)
        },
    }
}

/// The tests of a selector, one after the other.
pub open spec fn tests_text(tests: Seq<TestView>) -> Seq<char>
    decreases tests.len(),
{
    if tests.len() == 0 {
        Seq::empty()
    } else {
        tests_text(tests.drop_last()) + test_text(tests.last())
    }
}

/// The text of a selector: object type, zoom range, tests, layer.
pub open spec fn selector_text(s: SelectorView) -> Seq<char> {
    let range = zoom_range_text(s.min_zoom, s.max_zoom);
    object_type_text(s.object_type) + (if range.len() == 0 {
        Seq::empty()
    } else {
        "|z"@
    }) + range + tests_text(s.tests) + match s.layer_id {
        Some(id) => "::"@ + id,
        None => Seq::empty(),
    }
}

/// Selectors separated by a comma and a new line.
pub open spec fn selectors_text(sels: Seq<SelectorView>) -> Seq<char>
    decreases sels.len(),
{
    if sels.len() == 0 {
        Seq::empty()
    } else if sels.len() == 1 {
        selector_text(sels[0])
    } else {
        selectors_text(sels.drop_last()) + ",\n"@ + selector_text(sels.last())
    }
}

/// Properties separated by new lines.
pub open spec fn properties_text(props: Seq<PropertyView>) -> Seq<char>
    decreases props.len(),
{
    if props.len() == 0 {
        Seq::empty()
    } else if props.len() == 1 {
        property_text(props[0])
    } else {
        properties_text(props.drop_last()) + seq!['\n'] + property_text(props.last())
    }
}

/// The text of a rule: its selectors, then its properties in braces.
pub open spec fn rule_text(r: RuleView) -> Seq<char> {
    selectors_text(r.selectors) + " {\n"@ + properties_text(r.properties) + "\n}"@
}

impl ObjectType {
    /// The stylesheet name of the object type.
    pub fn to_text(&self) -> (res: &'static str)
        ensures
            res@ == object_type_text(*self),
    {
        match self {
            ObjectType::All => "*",
            ObjectType::Canvas => "canvas",
            ObjectType::Meta => "meta",
            ObjectType::Node => "node",
            ObjectType::Way => "way",
            ObjectType::Area => "area",
        }
    }
}

/// Whether `s` holds the character `c`.
fn str_contains(s: &str, c: char) -> (res: bool)
    ensures
        res == s@.contains(c),
{
    let chars = crate::util::str_chars(s);
    let mut i: usize = 0;
    while i < chars.len()
        invariant
            i <= chars@.len(),
            chars@ == s@,
            forall|k: int| 0 <= k < i ==> chars@[k] != c,
        decreases chars@.len() - i,
    {
        if chars[i] == c {
            assert(s@[i as int] == c);
            return true;
        }
        i = i + 1;
    }
    false
}

fn push_quoted_tag(s: &mut String, name: &str)
    ensures
        final(s)@ == old(s)@ + quoted_tag(name@),
{
    if str_contains(name, ':') {
        string_push(s, '"');
        push_str(s, name);
        string_push(s, '"');
        assert(s@ =~= old(s)@ + quoted_tag(name@));
    } else {
        push_str(s, name);
    }
}

fn push_literal(s: &mut String, lit: &str)
    ensures
        final(s)@ == old(s)@ + lit@,
{
    push_str(s, lit);
}

impl Test {
    /// The stylesheet text of the test.
    pub fn to_text(&self) -> (res: String)
        ensures
            res@ == test_text(self@),
    {
        let mut s = String::new();
        string_push(&mut s, '[');
        let ghost start = s@;
        match self {
            Test::Unary { tag_name, test_type } => match test_type {
                UnaryTestType::Exists => push_quoted_tag(&mut s, tag_name.as_str()),
                UnaryTestType::NotExists => {
                    string_push(&mut s, '!');
                    push_quoted_tag(&mut s, tag_name.as_str());
                },
                UnaryTestType::True => {
                    push_quoted_tag(&mut s, tag_name.as_str());
                    string_push(&mut s, '?');
                },
                UnaryTestType::False => {
                    string_push(&mut s, '!');
                    push_quoted_tag(&mut s, tag_name.as_str());
                    string_push(&mut s, '?');
                },
            },
            Test::BinaryStringCompare { tag_name, value, test_type } => {
                push_quoted_tag(&mut s, tag_name.as_str());
                match test_type {
                    BinaryStringTestType::Equal => push_literal(&mut s, "="),
                    BinaryStringTestType::NotEqual => push_literal(&mut s, "!="),
                }
                push_str(&mut s, value.as_str());
            },
            Test::BinaryNumericCompare { tag_name, value, test_type } => {
                push_quoted_tag(&mut s, tag_name.as_str());
                match test_type {
                    BinaryNumericTestType::Less => push_literal(&mut s, "<"),
                    BinaryNumericTestType::LessOrEqual => push_literal(&mut s, "<="),
                    BinaryNumericTestType::Greater => push_literal(&mut s, ">"),
                    BinaryNumericTestType::GreaterOrEqual => push_literal(&mut s, ">="),
                }
                push_number_text(&mut s, *value);
            },
        }
        string_push(&mut s, ']');
        assert(s@ =~= test_text(self@));
        s
    }
}

fn hex_digit_char(d: u8) -> (res: char)
    requires
        d < 16,
    ensures
        res == hex_digit(d as nat),
{
    if d < 10 {
        let c = ((('0' as u32) + (d as u32)) as u8) as char;
        assert(c == hex_digit(d as nat));
        c
    } else {
        let c = ((('a' as u32) + (d as u32) - 10) as u8) as char;
        assert(c == hex_digit(d as nat));
        c
    }
}

fn push_hex_byte(s: &mut String, b: u8)
    ensures
        final(s)@ == old(s)@ + hex_byte(b),
{
    string_push(s, hex_digit_char(b / 16));
    string_push(s, hex_digit_char(b % 16));
    assert(s@ =~= old(s)@ + hex_byte(b));
}

impl PropertyValue {
    /// The stylesheet text of the value.
    pub fn to_text(&self) -> (res: String)
        ensures
            res@ == property_value_text(self@),
    {
        let mut s = String::new();
        match self {
            PropertyValue::Color(c) => {
                string_push(&mut s, '#');
                push_hex_byte(&mut s, c.r);
                push_hex_byte(&mut s, c.g);
                push_hex_byte(&mut s, c.b);
                assert(s@ =~= color_text(*c));
            },
            PropertyValue::Identifier(id) => {
                push_str(&mut s, id.as_str());
                assert(s@ =~= id@);
            },
            PropertyValue::String(t) => {
                string_push(&mut s, '"');
                push_str(&mut s, t.as_str());
                string_push(&mut s, '"');
                assert(s@ =~= seq!['"'] + t@ + seq!['"']);
            },
            PropertyValue::Numbers(nums) => {
                let mut i: usize = 0;
                while i < nums.len()
                    invariant
                        i <= nums@.len(),
                        s@ == numbers_text(nums@.take(i as int)),
                    decreases nums@.len() - i,
                {
                    let ghost before = s@;
                    if i > 0 {
                        string_push(&mut s, ',');
                    }
                    push_number_text(&mut s, nums[i]);
                    proof {
                        let t = nums@.take(i + 1);
                        assert(t.drop_last() =~= nums@.take(i as int));
                        assert(t.last() == nums@[i as int]);
                        if i == 0 {
                            assert(s@ =~= numbers_text(t));
                        } else {
                            assert(s@ =~= numbers_text(t));
                        }
                    }
                    i = i + 1;
                }
                assert(nums@.take(nums@.len() as int) =~= nums@);
            },
            PropertyValue::WidthDelta(d) => {
                push_literal(&mut s, "eval(prop(\"width\")) + ");
                push_number_text(&mut s, *d);
                assert(s@ =~= "eval(prop(\"width\")) + "@ + number_text(*d));
            },
        }
        s
    }
}

impl Property {
    /// The property as `name: value;`.
    pub fn to_text(&self) -> (res: String)
        ensures
            res@ == property_text(self@),
    {
        let mut s = String::new();
        push_str(&mut s, self.name.as_str());
        push_literal(&mut s, ": ");
        let v = self.value.to_text();
        push_str(&mut s, v.as_str());
        string_push(&mut s, ';');
        assert(s@ =~= property_text(self@));
        s
    }
}

fn push_zoom(s: &mut String, z: u8)
    ensures
        final(s)@ == old(s)@ + zoom_text(z),
{
    push_number_text(s, Number { negative: false, mantissa: z as u64, scale: 0, exponent: 0 });
}

impl Selector {
    /// The stylesheet text of the selector.
    pub fn to_text(&self) -> (res: String)
        ensures
            res@ == selector_text(self@),
    {
        let mut range = String::new();
        match (self.min_zoom, self.max_zoom) {
            (None, None) => {},
            (Some(mn), None) => {
                push_zoom(&mut range, mn);
                string_push(&mut range, '-');
            },
            (None, Some(mx)) => {
                string_push(&mut range, '-');
                push_zoom(&mut range, mx);
            },
            (Some(mn), Some(mx)) => {
                push_zoom(&mut range, mn);
                if mn != mx {
                    string_push(&mut range, '-');
                    push_zoom(&mut range, mx);
                }
            },
        }
        assert(range@ =~= zoom_range_text(self.min_zoom, self.max_zoom));
        let mut s = String::new();
        push_str(&mut s, self.object_type.to_text());
        let ghost after_type = s@;
        if !range.as_str().is_empty() {
            push_literal(&mut s, "|z");
        }
        push_str(&mut s, range.as_str());
        let ghost after_range = s@;
        let mut i: usize = 0;
        while i < self.tests.len()
            invariant
                i <= self.tests@.len(),
                s@ == after_range + tests_text(tests_view(self.tests@).take(i as int)),
            decreases self.tests@.len() - i,
        {
            let t = self.tests[i].to_text();
            push_str(&mut s, t.as_str());
            proof {
                let tv = tests_view(self.tests@).take(i + 1);
                assert(tv.drop_last() =~= tests_view(self.tests@).take(i as int));
                assert(tv.last() == self.tests@[i as int]@);
            }
            i = i + 1;
        }
        assert(tests_view(self.tests@).take(self.tests@.len() as int) =~= tests_view(self.tests@));
        match &self.layer_id {
            Some(id) => {
                push_literal(&mut s, "::");
                push_str(&mut s, id.as_str());
            },
            None => {},
        }
        assert(s@ =~= selector_text(self@));
        s
    }
}

impl Rule {
    /// The stylesheet text of the rule.
    pub fn to_text(&self) -> (res: String)
        ensures
            res@ == rule_text(self@),
    {
        let mut s = String::new();
        let mut i: usize = 0;
        while i < self.selectors.len()
            invariant
                i <= self.selectors@.len(),
                s@ == selectors_text(selectors_view(self.selectors@).take(i as int)),
            decreases self.selectors@.len() - i,
        {
            if i > 0 {
                push_literal(&mut s, ",\n");
            }
            let t = self.selectors[i].to_text();
            push_str(&mut s, t.as_str());
            proof {
                let sv = selectors_view(self.selectors@).take(i + 1);
                assert(sv.drop_last() =~= selectors_view(self.selectors@).take(i as int));
                assert(sv.last() == self.selectors@[i as int]@);
                assert(s@ =~= selectors_text(sv));
            }
            i = i + 1;
        }
        assert(selectors_view(self.selectors@).take(self.selectors@.len() as int) =~= selectors_view(self.selectors@));
        push_literal(&mut s, " {\n");
        let ghost after_open = s@;
        let mut j: usize = 0;
        while j < self.properties.len()
            invariant
                j <= self.properties@.len(),
                s@ == after_open + properties_text(properties_view(self.properties@).take(j as int)),
            decreases self.properties@.len() - j,
        {
            if j > 0 {
                string_push(&mut s, '\n');
            }
            let t = self.properties[j].to_text();
            push_str(&mut s, t.as_str());
            proof {
                let pv = properties_view(self.properties@).take(j + 1);
                assert(pv.drop_last() =~= properties_view(self.properties@).take(j as int));
                assert(pv.last() == self.properties@[j as int]@);
                assert(s@ =~= after_open + properties_text(pv));
            }
            j = j + 1;
        }
        assert(properties_view(self.properties@).take(self.properties@.len() as int) =~= properties_view(self.properties@));
        push_literal(&mut s, "\n}");
        assert(s@ =~= rule_text(self@));
        s
    }
}

} // verus!
