use crate::mapcss::color::Color;
use crate::mapcss::number::{number_text, Number};
use crate::mapcss::parser::{
    BinaryNumericTestType, BinaryStringTestType, ObjectType, ParseErrorKindView, ParseFailure, ParseStepView,
    PropertyValueView, PropertyView, RuleView, SelectorView, TestView, UnaryTestType,
};
use crate::mapcss::token::{TokenView, TokenWithPositionView};
use crate::mapcss::token_spec::{lemma_next_token_bounds, next_token_spec, position_after};
use vstd::prelude::*;

verus! {

/// A parsing step's result: the value or the failure, the next index and the request count.
pub type PResult<V> = (Result<V, ParseFailure>, nat, nat);

/// Reads the next token, if any; a lexer error is reported with the file's name.
pub open spec fn optional_token_spec(text: Seq<char>, file: Seq<char>, idx: nat, calls: nat) -> (
    Option<Result<TokenWithPositionView, ParseFailure>>,
    nat,
    nat,
) {
    let (r, i, c) = next_token_spec(text, idx, calls);
    (
        match r {
            None => None,
            Some(Err(e)) => Some(Err(ParseFailure::Lexer(e, file))),
            Some(Ok(t)) => Some(Ok(t)),
        },
        i,
        c,
    )
}

/// Reads a token that must be there.
pub open spec fn mandatory_token_spec(text: Seq<char>, file: Seq<char>, idx: nat, calls: nat) -> PResult<
    TokenWithPositionView,
> {
    let (r, i, c) = next_token_spec(text, idx, calls);
    match r {
        None => (
            Err(ParseFailure::Parse(ParseErrorKindView::UnexpectedEndOfFile, position_after(text, c).0, file)),
            i,
            c,
        ),
        Some(Err(e)) => (Err(ParseFailure::Lexer(e, file)), i, c),
        Some(Ok(t)) => (Ok(t), i, c),
    }
}

pub open spec fn unexpected(t: TokenWithPositionView, file: Seq<char>) -> ParseFailure {
    ParseFailure::Parse(ParseErrorKindView::UnexpectedToken(t.token), t.position, file)
}

/// Reads a token that must equal `expected`.
pub open spec fn expect_token_spec(text: Seq<char>, file: Seq<char>, idx: nat, calls: nat, expected: TokenView) -> PResult<()> {
    let (r, i, c) = mandatory_token_spec(text, file, idx, calls);
    match r {
        Err(e) => (Err(e), i, c),
        Ok(t) => if t.token == expected {
            (Ok(()), i, c)
        } else {
            (Err(ParseFailure::Parse(ParseErrorKindView::ExpectedToken { expected, found: t.token }, t.position, file)), i, c)
        },
    }
}

/// Reads a token that must be an identifier.
pub open spec fn identifier_spec(text: Seq<char>, file: Seq<char>, idx: nat, calls: nat) -> PResult<Seq<char>> {
    let (r, i, c) = mandatory_token_spec(text, file, idx, calls);
    match r {
        Err(e) => (Err(e), i, c),
        Ok(t) => match t.token {
            TokenView::Identifier(id) => (Ok(id), i, c),
            _ => (Err(unexpected(t, file)), i, c),
        },
    }
}

pub open spec fn object_type_of(id: Seq<char>) -> Option<ObjectType> {
    if id == "*"@ {
        Some(ObjectType::All)
    } else if id == "canvas"@ {
        Some(ObjectType::Canvas)
    } else if id == "meta"@ {
        Some(ObjectType::Meta)
    } else if id == "node"@ {
        Some(ObjectType::Node)
    } else if id == "way"@ || id == "line"@ {
        Some(ObjectType::Way)
    } else if id == "area"@ {
        Some(ObjectType::Area)
    } else {
        None
    }
}

pub open spec fn binary_string_test_type_of(t: TokenView) -> Option<BinaryStringTestType> {
    match t {
        TokenView::Equal => Some(BinaryStringTestType::Equal),
        TokenView::NotEqual => Some(BinaryStringTestType::NotEqual),
        _ => None,
    }
}

pub open spec fn binary_numeric_test_type_of(t: TokenView) -> Option<BinaryNumericTestType> {
    match t {
        TokenView::Less => Some(BinaryNumericTestType::Less),
        TokenView::LessOrEqual => Some(BinaryNumericTestType::LessOrEqual),
        TokenView::Greater => Some(BinaryNumericTestType::Greater),
        TokenView::GreaterOrEqual => Some(BinaryNumericTestType::GreaterOrEqual),
        _ => None,
    }
}

/// The unary test that follows the tag name, once `t` was read after it.
pub open spec fn unary_test_spec(
    text: Seq<char>,
    file: Seq<char>,
    idx: nat,
    calls: nat,
    lhs: Seq<char>,
    bang: bool,
    t: TokenWithPositionView,
) -> PResult<TestView> {
    match t.token {
        TokenView::RightBracket => (
            Ok(TestView::Unary {
                tag_name: lhs,
                test_type: if bang { UnaryTestType::NotExists } else { UnaryTestType::Exists },
            }),
            idx,
            calls,
        ),
        TokenView::QuestionMark => {
            let (r, i, c) = mandatory_token_spec(text, file, idx, calls);
            match r {
                Err(e) => (Err(e), i, c),
                Ok(t3) => match t3.token {
                    TokenView::RightBracket => (
                        Ok(TestView::Unary {
                            tag_name: lhs,
                            test_type: if bang { UnaryTestType::False } else { UnaryTestType::True },
                        }),
                        i,
                        c,
                    ),
                    TokenView::Bang => if !bang {
                        let (re, i2, c2) = expect_token_spec(text, file, i, c, TokenView::RightBracket);
                        match re {
                            Err(e) => (Err(e), i2, c2),
                            Ok(_) => (Ok(TestView::Unary { tag_name: lhs, test_type: UnaryTestType::False }), i2, c2),
                        }
                    } else {
                        (Err(unexpected(t3, file)), i, c)
                    },
                    _ => (Err(unexpected(t3, file)), i, c),
                },
            }
        },
        _ => (Err(unexpected(t, file)), idx, calls),
    }
}

/// The rest of a test once its tag name `lhs` and the token `t` after it were read.
pub open spec fn test_after_name_spec(
    text: Seq<char>,
    file: Seq<char>,
    idx: nat,
    calls: nat,
    lhs: Seq<char>,
    bang: bool,
    t: TokenWithPositionView,
) -> PResult<TestView> {
    if !bang && binary_string_test_type_of(t.token) is Some {
        let (r, i, c) = mandatory_token_spec(text, file, idx, calls);
        match r {
            Err(e) => (Err(e), i, c),
            Ok(t3) => {
                let rhs = match t3.token {
                    TokenView::Identifier(id) => Some(id),
                    TokenView::Number(n) => Some(number_text(n)),
                    _ => None,
                };
                match rhs {
                    None => (Err(unexpected(t3, file)), i, c),
                    Some(v) => {
                        let (re, i2, c2) = expect_token_spec(text, file, i, c, TokenView::RightBracket);
                        match re {
                            Err(e) => (Err(e), i2, c2),
                            Ok(_) => (
                                Ok(TestView::BinaryStringCompare {
                                    tag_name: lhs,
                                    value: v,
                                    test_type: binary_string_test_type_of(t.token).unwrap(),
                                }),
                                i2,
                                c2,
                            ),
                        }
                    },
                }
            },
        }
    } else if !bang && binary_numeric_test_type_of(t.token) is Some {
        let (r, i, c) = mandatory_token_spec(text, file, idx, calls);
        match r {
            Err(e) => (Err(e), i, c),
            Ok(t3) => match t3.token {
                TokenView::Number(n) => {
                    let (re, i2, c2) = expect_token_spec(text, file, i, c, TokenView::RightBracket);
                    match re {
                        Err(e) => (Err(e), i2, c2),
                        Ok(_) => (
                            Ok(TestView::BinaryNumericCompare {
                                tag_name: lhs,
                                value: n,
                                test_type: binary_numeric_test_type_of(t.token).unwrap(),
                            }),
                            i2,
                            c2,
                        ),
                    }
                },
                _ => (Err(unexpected(t3, file)), i, c),
            },
        }
    } else {
        unary_test_spec(text, file, idx, calls, lhs, bang, t)
    }
}

/// A comparison test takes its type from the comparison token read after the tag name: a
/// numeric test has the type that its token stands for, and so has a string test.
pub proof fn lemma_test_type_from_token(
    text: Seq<char>,
    file: Seq<char>,
    idx: nat,
    calls: nat,
    lhs: Seq<char>,
    bang: bool,
    t: TokenWithPositionView,
)
    ensures
        test_after_name_spec(text, file, idx, calls, lhs, bang, t).0 matches Ok(
            TestView::BinaryNumericCompare { test_type, .. },
        ) ==> binary_numeric_test_type_of(t.token) == Some(test_type),
        test_after_name_spec(text, file, idx, calls, lhs, bang, t).0 matches Ok(
            TestView::BinaryStringCompare { test_type, .. },
        ) ==> binary_string_test_type_of(t.token) == Some(test_type),
{
}

/// The tag name of a test and the token after it, once the name's first token `t1` was read.
pub open spec fn test_name_spec(
    text: Seq<char>,
    file: Seq<char>,
    idx: nat,
    calls: nat,
    t1: TokenWithPositionView,
) -> PResult<(Seq<char>, bool, TokenWithPositionView)> {
    let (first, bang, i1, c1): (Result<Seq<char>, ParseFailure>, bool, nat, nat) = match t1.token {
        TokenView::Identifier(id) => (Ok(id), false, idx, calls),
        TokenView::Str(s) => (Ok(s), false, idx, calls),
        TokenView::Bang => {
            let (r, i, c) = identifier_spec(text, file, idx, calls);
            (r, true, i, c)
        },
        _ => (Err(unexpected(t1, file)), false, idx, calls),
    };
    match first {
        Err(e) => (Err(e), i1, c1),
        Ok(name) => {
            let (r2, i2, c2) = mandatory_token_spec(text, file, i1, c1);
            match r2 {
                Err(e) => (Err(e), i2, c2),
                Ok(t2) => match t2.token {
                    TokenView::Colon => {
                        let (r3, i3, c3) = identifier_spec(text, file, i2, c2);
                        match r3 {
                            Err(e) => (Err(e), i3, c3),
                            Ok(suffix) => {
                                let (r4, i4, c4) = mandatory_token_spec(text, file, i3, c3);
                                match r4 {
                                    Err(e) => (Err(e), i4, c4),
                                    Ok(t4) => (Ok((name.push(':') + suffix, bang, t4)), i4, c4),
                                }
                            },
                        }
                    },
                    _ => (Ok((name, bang, t2)), i2, c2),
                },
            }
        },
    }
}

/// Reads a test after `[`.
pub open spec fn read_test_spec(text: Seq<char>, file: Seq<char>, idx: nat, calls: nat) -> PResult<TestView> {
    let (r1, i1, c1) = mandatory_token_spec(text, file, idx, calls);
    match r1 {
        Err(e) => (Err(e), i1, c1),
        Ok(t1) => {
            let (r2, i2, c2) = test_name_spec(text, file, i1, c1, t1);
            match r2 {
                Err(e) => (Err(e), i2, c2),
                Ok((lhs, bang, t)) => test_after_name_spec(text, file, i2, c2, lhs, bang, t),
            }
        },
    }
}

/// The tokens of a selector after its object type, up to `{` or `,`;
/// the flag tells whether another selector follows.
pub open spec fn selector_loop_spec(
    text: Seq<char>,
    file: Seq<char>,
    idx: nat,
    calls: nat,
    sel: SelectorView,
) -> PResult<(SelectorView, bool)>
    decreases text.len() - idx,
{
    let (r, i1, c1) = mandatory_token_spec(text, file, idx, calls);
    match r {
        Err(e) => (Err(e), i1, c1),
        Ok(t) => if idx < i1 <= text.len() {
            match t.token {
                TokenView::LeftBrace => (Ok((sel, false)), i1, c1),
                TokenView::Comma => (Ok((sel, true)), i1, c1),
                TokenView::ZoomRange { min_zoom, max_zoom } => selector_loop_spec(
                    text,
                    file,
                    i1,
                    c1,
                    SelectorView { min_zoom, max_zoom, ..sel },
                ),
                TokenView::LeftBracket => {
                    let (rt, i2, c2) = read_test_spec(text, file, i1, c1);
                    match rt {
                        Err(e) => (Err(e), i2, c2),
                        Ok(test) => if i1 <= i2 <= text.len() {
                            selector_loop_spec(text, file, i2, c2, SelectorView { tests: sel.tests.push(test), ..sel })
                        } else {
                            (Err(unexpected(t, file)), i2, c2)
                        },
                    }
                },
                TokenView::Colon => {
                    let (ri, i2, c2) = identifier_spec(text, file, i1, c1);
                    match ri {
                        Err(e) => (Err(e), i2, c2),
                        Ok(_) => if i1 <= i2 <= text.len() {
                            selector_loop_spec(text, file, i2, c2, sel)
                        } else {
                            (Err(unexpected(t, file)), i2, c2)
                        },
                    }
                },
                TokenView::DoubleColon => {
                    let (ri, i2, c2) = identifier_spec(text, file, i1, c1);
                    match ri {
                        Err(e) => (Err(e), i2, c2),
                        Ok(id) => if i1 <= i2 <= text.len() {
                            selector_loop_spec(text, file, i2, c2, SelectorView { layer_id: Some(id), ..sel })
                        } else {
                            (Err(unexpected(t, file)), i2, c2)
                        },
                    }
                },
                _ => (Err(unexpected(t, file)), i1, c1),
            }
        } else {
            (Err(unexpected(t, file)), i1, c1)
        },
    }
}

/// Reads a selector whose first token `first` was already read.
pub open spec fn read_selector_spec(
    text: Seq<char>,
    file: Seq<char>,
    idx: nat,
    calls: nat,
    first: TokenWithPositionView,
) -> PResult<(SelectorView, bool)> {
    match first.token {
        TokenView::Identifier(id) => match object_type_of(id) {
            None => (Err(ParseFailure::Parse(ParseErrorKindView::UnknownObjectType(id), first.position, file)), idx, calls),
            Some(object_type) => selector_loop_spec(
                text,
                file,
                idx,
                calls,
                SelectorView { object_type, min_zoom: None, max_zoom: None, tests: Seq::empty(), layer_id: None },
            ),
        },
        _ => (Err(unexpected(first, file)), idx, calls),
    }
}

/// Numbers separated by commas up to `;`; `consumed` tells whether the last token was a number.
pub open spec fn number_list_spec(
    text: Seq<char>,
    file: Seq<char>,
    idx: nat,
    calls: nat,
    numbers: Seq<Number>,
    consumed: bool,
) -> PResult<Seq<Number>>
    decreases text.len() - idx,
{
    let (r, i1, c1) = mandatory_token_spec(text, file, idx, calls);
    match r {
        Err(e) => (Err(e), i1, c1),
        Ok(t) => if idx < i1 <= text.len() {
            match t.token {
                TokenView::Comma => if consumed {
                    number_list_spec(text, file, i1, c1, numbers, false)
                } else {
                    (Err(unexpected(t, file)), i1, c1)
                },
                TokenView::SemiColon => if consumed {
                    (Ok(numbers), i1, c1)
                } else {
                    (Err(unexpected(t, file)), i1, c1)
                },
                TokenView::Number(n) => if !consumed {
                    number_list_spec(text, file, i1, c1, numbers.push(n), true)
                } else {
                    (Err(unexpected(t, file)), i1, c1)
                },
                _ => (Err(unexpected(t, file)), i1, c1),
            }
        } else {
            (Err(unexpected(t, file)), i1, c1)
        },
    }
}

/// The tokens up to `;`.
pub open spec fn eval_tokens_spec(
    text: Seq<char>,
    file: Seq<char>,
    idx: nat,
    calls: nat,
    tokens: Seq<TokenView>,
) -> PResult<Seq<TokenView>>
    decreases text.len() - idx,
{
    let (r, i1, c1) = mandatory_token_spec(text, file, idx, calls);
    match r {
        Err(e) => (Err(e), i1, c1),
        Ok(t) => if idx < i1 <= text.len() {
            match t.token {
                TokenView::SemiColon => (Ok(tokens), i1, c1),
                _ => eval_tokens_spec(text, file, i1, c1, tokens.push(t.token)),
            }
        } else {
            (Err(unexpected(t, file)), i1, c1)
        },
    }
}

pub open spec fn eval_prefix() -> Seq<TokenView> {
    seq![
        TokenView::LeftParen,
        TokenView::Identifier("prop"@),
        TokenView::LeftParen,
        TokenView::Str("width"@),
        TokenView::RightParen,
    ]
}

pub open spec fn zero() -> Number {
    Number { negative: false, mantissa: 0, scale: 0, exponent: 0 }
}

/// The width increment of `eval(prop("width") + X)`, from the tokens after `eval`.
pub open spec fn eval_width_delta(tokens: Seq<TokenView>) -> Option<Number> {
    if tokens.len() >= 5 && tokens.take(5) == eval_prefix() {
        let suffix = tokens.skip(5);
        if suffix.len() > 0 && suffix.last() == TokenView::RightParen {
            if suffix.len() == 1 {
                Some(zero())
            } else if suffix.len() == 2 {
                match suffix[0] {
                    TokenView::Number(n) => Some(n),
                    _ => None,
                }
            } else {
                None
            }
        } else {
            None
        }
    } else {
        None
    }
}

pub open spec fn read_simple_eval_spec(
    text: Seq<char>,
    file: Seq<char>,
    idx: nat,
    calls: nat,
    position: crate::mapcss::token::InputPosition,
) -> PResult<PropertyValueView> {
    let (r, i, c) = eval_tokens_spec(text, file, idx, calls, Seq::empty());
    match r {
        Err(e) => (Err(e), i, c),
        Ok(tokens) => match eval_width_delta(tokens) {
            Some(n) => (Ok(PropertyValueView::WidthDelta(n)), i, c),
            None => (Err(ParseFailure::Parse(ParseErrorKindView::UnknownEvalForm, position, file)), i, c),
        },
    }
}

pub open spec fn then_semicolon(
    text: Seq<char>,
    file: Seq<char>,
    idx: nat,
    calls: nat,
    v: PropertyValueView,
) -> PResult<PropertyValueView> {
    let (r, i, c) = expect_token_spec(text, file, idx, calls, TokenView::SemiColon);
    match r {
        Err(e) => (Err(e), i, c),
        Ok(_) => (Ok(v), i, c),
    }
}

/// Reads the value of a property after its `:`.
pub open spec fn read_property_value_spec(
    text: Seq<char>,
    file: Seq<char>,
    idx: nat,
    calls: nat,
    defs: Map<Seq<char>, Color>,
) -> PResult<PropertyValueView> {
    let (r, i1, c1) = mandatory_token_spec(text, file, idx, calls);
    match r {
        Err(e) => (Err(e), i1, c1),
        Ok(t) => match t.token {
            TokenView::Identifier(id) => if id == "eval"@ {
                read_simple_eval_spec(text, file, i1, c1, t.position)
            } else {
                let (r2, i2, c2) = mandatory_token_spec(text, file, i1, c1);
                match r2 {
                    Err(e) => (Err(e), i2, c2),
                    Ok(t2) => match t2.token {
                        TokenView::Colon => {
                            let (r3, i3, c3) = identifier_spec(text, file, i2, c2);
                            match r3 {
                                Err(e) => (Err(e), i3, c3),
                                Ok(suffix) => then_semicolon(
                                    text,
                                    file,
                                    i3,
                                    c3,
                                    PropertyValueView::Identifier(id.push(':') + suffix),
                                ),
                            }
                        },
                        TokenView::SemiColon => (Ok(PropertyValueView::Identifier(id)), i2, c2),
                        _ => (Err(unexpected(t2, file)), i2, c2),
                    },
                }
            },
            TokenView::Str(s) => then_semicolon(text, file, i1, c1, PropertyValueView::Str(s)),
            TokenView::Color(color) => then_semicolon(text, file, i1, c1, PropertyValueView::Color(color)),
            TokenView::ColorRef(name) => if defs.contains_key(name) {
                then_semicolon(text, file, i1, c1, PropertyValueView::Color(defs[name]))
            } else {
                (
                    Err(ParseFailure::Parse(
                        ParseErrorKindView::UnknownColorReference(name),
                        position_after(text, c1).0,
                        file,
                    )),
                    i1,
                    c1,
                )
            },
            TokenView::Number(n) => {
                let (rl, i2, c2) = number_list_spec(text, file, i1, c1, seq![n], true);
                match rl {
                    Err(e) => (Err(e), i2, c2),
                    Ok(nums) => (Ok(PropertyValueView::Numbers(nums)), i2, c2),
                }
            },
            _ => (Err(unexpected(t, file)), i1, c1),
        },
    }
}

/// The properties of a rule after `{`, up to `}`.
pub open spec fn properties_spec(
    text: Seq<char>,
    file: Seq<char>,
    idx: nat,
    calls: nat,
    defs: Map<Seq<char>, Color>,
    props: Seq<PropertyView>,
) -> PResult<Seq<PropertyView>>
    decreases text.len() - idx,
{
    let (r, i1, c1) = mandatory_token_spec(text, file, idx, calls);
    match r {
        Err(e) => (Err(e), i1, c1),
        Ok(t) => if idx < i1 <= text.len() {
            match t.token {
                TokenView::Identifier(id) => {
                    let (rc, i2, c2) = expect_token_spec(text, file, i1, c1, TokenView::Colon);
                    match rc {
                        Err(e) => (Err(e), i2, c2),
                        Ok(_) => {
                            let (rv, i3, c3) = read_property_value_spec(text, file, i2, c2, defs);
                            match rv {
                                Err(e) => (Err(e), i3, c3),
                                Ok(v) => if i1 <= i3 <= text.len() {
                                    properties_spec(text, file, i3, c3, defs, props.push(PropertyView { name: id, value: v }))
                                } else {
                                    (Err(unexpected(t, file)), i3, c3)
                                },
                            }
                        },
                    }
                },
                TokenView::RightBrace => (Ok(props), i1, c1),
                _ => (Err(unexpected(t, file)), i1, c1),
            }
        } else {
            (Err(unexpected(t, file)), i1, c1)
        },
    }
}

/// Skips the tokens of an auxiliary `colors` section up to `}`.
pub open spec fn skip_section_spec(text: Seq<char>, file: Seq<char>, idx: nat, calls: nat) -> PResult<()>
    decreases text.len() - idx,
{
    let (r, i1, c1) = mandatory_token_spec(text, file, idx, calls);
    match r {
        Err(e) => (Err(e), i1, c1),
        Ok(t) => if idx < i1 <= text.len() {
            match t.token {
                TokenView::RightBrace => (Ok(()), i1, c1),
                _ => skip_section_spec(text, file, i1, c1),
            }
        } else {
            (Err(unexpected(t, file)), i1, c1)
        },
    }
}

/// The properties of a rule after `{`, which complete the rule with the given selectors.
pub open spec fn rule_body_spec(
    text: Seq<char>,
    file: Seq<char>,
    idx: nat,
    calls: nat,
    defs: Map<Seq<char>, Color>,
    selectors: Seq<SelectorView>,
) -> PResult<RuleView> {
    let (rp, i, c) = properties_spec(text, file, idx, calls, defs, Seq::empty());
    match rp {
        Err(e) => (Err(e), i, c),
        Ok(props) => (Ok(RuleView { selectors, properties: props }), i, c),
    }
}

/// The selectors of a rule, starting with the already read token `start`, then its properties.
pub open spec fn rule_loop_spec(
    text: Seq<char>,
    file: Seq<char>,
    idx: nat,
    calls: nat,
    start: TokenWithPositionView,
    defs: Map<Seq<char>, Color>,
    selectors: Seq<SelectorView>,
) -> PResult<RuleView>
    decreases text.len() - idx,
{
    match start.token {
        TokenView::LeftBrace => rule_body_spec(text, file, idx, calls, defs, selectors),
        TokenView::Identifier(id) if id == "colors"@ => {
            let (rs, i, c) = skip_section_spec(text, file, idx, calls);
            match rs {
                Err(e) => (Err(e), i, c),
                Ok(_) => (Ok(RuleView { selectors, properties: Seq::empty() }), i, c),
            }
        },
        _ => {
            let (rs, i1, c1) = read_selector_spec(text, file, idx, calls, start);
            match rs {
                Err(e) => (Err(e), i1, c1),
                Ok((sel, more)) => if !more {
                    rule_body_spec(text, file, i1, c1, defs, selectors.push(sel))
                } else {
                    let (rt, i2, c2) = mandatory_token_spec(text, file, i1, c1);
                    match rt {
                        Err(e) => (Err(e), i2, c2),
                        Ok(t) => if idx < i2 <= text.len() {
                            rule_loop_spec(text, file, i2, c2, t, defs, selectors.push(sel))
                        } else {
                            (Err(unexpected(t, file)), i2, c2)
                        },
                    }
                },
            }
        },
    }
}

/// Reads a color definition `@name: #rrggbb;` after its name; only colors are kept.
pub open spec fn color_def_spec(
    text: Seq<char>,
    file: Seq<char>,
    idx: nat,
    calls: nat,
    name: Seq<char>,
    defs: Map<Seq<char>, Color>,
) -> PResult<Map<Seq<char>, Color>> {
    let (r1, i1, c1) = expect_token_spec(text, file, idx, calls, TokenView::Colon);
    match r1 {
        Err(e) => (Err(e), i1, c1),
        Ok(_) => {
            let (r2, i2, c2) = mandatory_token_spec(text, file, i1, c1);
            match r2 {
                Err(e) => (Err(e), i2, c2),
                Ok(t) => {
                    let (r3, i3, c3) = expect_token_spec(text, file, i2, c2, TokenView::SemiColon);
                    match r3 {
                        Err(e) => (Err(e), i3, c3),
                        Ok(_) => match t.token {
                            TokenView::Color(color) => (Ok(defs.insert(name, color)), i3, c3),
                            _ => (Ok(defs), i3, c3),
                        },
                    }
                },
            }
        },
    }
}

/// The parser's state besides the tokenizer: the color definitions and the rules read so far.
pub type ParseState = (nat, nat, Map<Seq<char>, Color>, Seq<RuleView>);

/// Reads rules and color definitions up to the end of the text or up to the next import.
pub open spec fn parse_spec(
    text: Seq<char>,
    file: Seq<char>,
    idx: nat,
    calls: nat,
    defs: Map<Seq<char>, Color>,
    rules: Seq<RuleView>,
) -> (Result<ParseStepView, ParseFailure>, ParseState)
    decreases text.len() - idx,
{
    let (r, i1, c1) = next_token_spec(text, idx, calls);
    match r {
        None => (Ok(ParseStepView::Done), (i1, c1, defs, rules)),
        Some(Err(e)) => (Err(ParseFailure::Lexer(e, file)), (i1, c1, defs, rules)),
        Some(Ok(t)) => if idx < i1 <= text.len() {
            match t.token {
                TokenView::Import(f) => {
                    let (re, i2, c2) = expect_token_spec(text, file, i1, c1, TokenView::SemiColon);
                    match re {
                        Err(e) => (Err(e), (i2, c2, defs, rules)),
                        Ok(_) => (Ok(ParseStepView::Import(f)), (i2, c2, defs, rules)),
                    }
                },
                TokenView::ColorRef(name) => {
                    let (rd, i2, c2) = color_def_spec(text, file, i1, c1, name, defs);
                    match rd {
                        Err(e) => (Err(e), (i2, c2, defs, rules)),
                        Ok(defs2) => if i1 <= i2 <= text.len() {
                            parse_spec(text, file, i2, c2, defs2, rules)
                        } else {
                            (Err(unexpected(t, file)), (i2, c2, defs, rules))
                        },
                    }
                },
                _ => {
                    let (rr, i2, c2) = rule_loop_spec(text, file, i1, c1, t, defs, Seq::empty());
                    match rr {
                        Err(e) => (Err(e), (i2, c2, defs, rules)),
                        Ok(rule) => if i1 <= i2 <= text.len() {
                            parse_spec(text, file, i2, c2, defs, rules.push(rule))
                        } else {
                            (Err(unexpected(t, file)), (i2, c2, defs, rules))
                        },
                    }
                },
            }
        } else {
            (Err(unexpected(t, file)), (i1, c1, defs, rules))
        },
    }
}

} // verus!

verus! {

pub proof fn lemma_mandatory_bounds(text: Seq<char>, file: Seq<char>, idx: nat, calls: nat)
    ensures
        idx <= text.len() ==> idx <= mandatory_token_spec(text, file, idx, calls).1 <= text.len(),
        mandatory_token_spec(text, file, idx, calls).0 is Ok ==> idx < mandatory_token_spec(text, file, idx, calls).1
            <= text.len(),
{
    lemma_next_token_bounds(text, idx, calls);
}

pub proof fn lemma_expect_bounds(text: Seq<char>, file: Seq<char>, idx: nat, calls: nat, expected: TokenView)
    ensures
        idx <= text.len() ==> idx <= expect_token_spec(text, file, idx, calls, expected).1 <= text.len(),
{
    lemma_mandatory_bounds(text, file, idx, calls);
}

pub proof fn lemma_identifier_bounds(text: Seq<char>, file: Seq<char>, idx: nat, calls: nat)
    ensures
        idx <= text.len() ==> idx <= identifier_spec(text, file, idx, calls).1 <= text.len(),
{
    lemma_mandatory_bounds(text, file, idx, calls);
}

pub proof fn lemma_read_test_bounds(text: Seq<char>, file: Seq<char>, idx: nat, calls: nat)
    requires
        idx <= text.len(),
    ensures
        idx <= read_test_spec(text, file, idx, calls).1 <= text.len(),
{
    lemma_mandatory_bounds(text, file, idx, calls);
    let (r1, i1, c1) = mandatory_token_spec(text, file, idx, calls);
    if let Ok(t1) = r1 {
        lemma_identifier_bounds(text, file, i1, c1);
        let (first, bang, j1, d1): (Result<Seq<char>, ParseFailure>, bool, nat, nat) = match t1.token {
            TokenView::Identifier(id) => (Ok(id), false, i1, c1),
            TokenView::Str(s) => (Ok(s), false, i1, c1),
            TokenView::Bang => {
                let (r, i, c) = identifier_spec(text, file, i1, c1);
                (r, true, i, c)
            },
            _ => (Err(unexpected(t1, file)), false, i1, c1),
        };
        lemma_mandatory_bounds(text, file, j1, d1);
        let (r2, i2, c2) = mandatory_token_spec(text, file, j1, d1);
        lemma_identifier_bounds(text, file, i2, c2);
        let (r3, i3, c3) = identifier_spec(text, file, i2, c2);
        lemma_mandatory_bounds(text, file, i3, c3);
        let (r, i, c) = test_name_spec(text, file, i1, c1, t1);
        if let Ok((lhs, b, t)) = r {
            lemma_mandatory_bounds(text, file, i, c);
            let (ra, ia, ca) = mandatory_token_spec(text, file, i, c);
            lemma_expect_bounds(text, file, ia, ca, TokenView::RightBracket);
        }
    }
}

pub proof fn lemma_selector_loop_bounds(text: Seq<char>, file: Seq<char>, idx: nat, calls: nat, sel: SelectorView)
    requires
        idx <= text.len(),
    ensures
        idx <= selector_loop_spec(text, file, idx, calls, sel).1 <= text.len(),
    decreases text.len() - idx,
{
    lemma_mandatory_bounds(text, file, idx, calls);
    let (r, i1, c1) = mandatory_token_spec(text, file, idx, calls);
    if let Ok(t) = r {
        match t.token {
            TokenView::ZoomRange { min_zoom, max_zoom } => {
                lemma_selector_loop_bounds(text, file, i1, c1, SelectorView { min_zoom, max_zoom, ..sel });
            },
            TokenView::LeftBracket => {
                lemma_read_test_bounds(text, file, i1, c1);
                let (rt, i2, c2) = read_test_spec(text, file, i1, c1);
                if let Ok(test) = rt {
                    lemma_selector_loop_bounds(text, file, i2, c2, SelectorView { tests: sel.tests.push(test), ..sel });
                }
            },
            TokenView::Colon => {
                lemma_identifier_bounds(text, file, i1, c1);
                let (ri, i2, c2) = identifier_spec(text, file, i1, c1);
                lemma_selector_loop_bounds(text, file, i2, c2, sel);
            },
            TokenView::DoubleColon => {
                lemma_identifier_bounds(text, file, i1, c1);
                let (ri, i2, c2) = identifier_spec(text, file, i1, c1);
                if let Ok(id) = ri {
                    lemma_selector_loop_bounds(text, file, i2, c2, SelectorView { layer_id: Some(id), ..sel });
                }
            },
            _ => {},
        }
    }
}

pub proof fn lemma_read_selector_bounds(
    text: Seq<char>,
    file: Seq<char>,
    idx: nat,
    calls: nat,
    first: TokenWithPositionView,
)
    requires
        idx <= text.len(),
    ensures
        idx <= read_selector_spec(text, file, idx, calls, first).1 <= text.len(),
{
    match first.token {
        TokenView::Identifier(id) => match object_type_of(id) {
            None => {},
            Some(object_type) => lemma_selector_loop_bounds(
                text,
                file,
                idx,
                calls,
                SelectorView { object_type, min_zoom: None, max_zoom: None, tests: Seq::empty(), layer_id: None },
            ),
        },
        _ => {},
    }
}

pub proof fn lemma_number_list_bounds(
    text: Seq<char>,
    file: Seq<char>,
    idx: nat,
    calls: nat,
    numbers: Seq<Number>,
    consumed: bool,
)
    requires
        idx <= text.len(),
    ensures
        idx <= number_list_spec(text, file, idx, calls, numbers, consumed).1 <= text.len(),
    decreases text.len() - idx,
{
    lemma_mandatory_bounds(text, file, idx, calls);
    let (r, i1, c1) = mandatory_token_spec(text, file, idx, calls);
    if let Ok(t) = r {
        match t.token {
            TokenView::Comma => lemma_number_list_bounds(text, file, i1, c1, numbers, false),
            TokenView::Number(n) => lemma_number_list_bounds(text, file, i1, c1, numbers.push(n), true),
            _ => {},
        }
    }
}

pub proof fn lemma_eval_tokens_bounds(text: Seq<char>, file: Seq<char>, idx: nat, calls: nat, tokens: Seq<TokenView>)
    requires
        idx <= text.len(),
    ensures
        idx <= eval_tokens_spec(text, file, idx, calls, tokens).1 <= text.len(),
    decreases text.len() - idx,
{
    lemma_mandatory_bounds(text, file, idx, calls);
    let (r, i1, c1) = mandatory_token_spec(text, file, idx, calls);
    if let Ok(t) = r {
        match t.token {
            TokenView::SemiColon => {},
            _ => lemma_eval_tokens_bounds(text, file, i1, c1, tokens.push(t.token)),
        }
    }
}

pub proof fn lemma_property_value_bounds(
    text: Seq<char>,
    file: Seq<char>,
    idx: nat,
    calls: nat,
    defs: Map<Seq<char>, Color>,
)
    requires
        idx <= text.len(),
    ensures
        idx <= read_property_value_spec(text, file, idx, calls, defs).1 <= text.len(),
{
    lemma_mandatory_bounds(text, file, idx, calls);
    let (r, i1, c1) = mandatory_token_spec(text, file, idx, calls);
    if let Ok(t) = r {
        lemma_eval_tokens_bounds(text, file, i1, c1, Seq::empty());
        lemma_expect_bounds(text, file, i1, c1, TokenView::SemiColon);
        lemma_mandatory_bounds(text, file, i1, c1);
        let (r2, i2, c2) = mandatory_token_spec(text, file, i1, c1);
        lemma_identifier_bounds(text, file, i2, c2);
        let (r3, i3, c3) = identifier_spec(text, file, i2, c2);
        lemma_expect_bounds(text, file, i3, c3, TokenView::SemiColon);
        match t.token {
            TokenView::Number(n) => lemma_number_list_bounds(text, file, i1, c1, seq![n], true),
            _ => {},
        }
    }
}

pub proof fn lemma_properties_bounds(
    text: Seq<char>,
    file: Seq<char>,
    idx: nat,
    calls: nat,
    defs: Map<Seq<char>, Color>,
    props: Seq<PropertyView>,
)
    requires
        idx <= text.len(),
    ensures
        idx <= properties_spec(text, file, idx, calls, defs, props).1 <= text.len(),
    decreases text.len() - idx,
{
    lemma_mandatory_bounds(text, file, idx, calls);
    let (r, i1, c1) = mandatory_token_spec(text, file, idx, calls);
    if let Ok(t) = r {
        match t.token {
            TokenView::Identifier(id) => {
                lemma_expect_bounds(text, file, i1, c1, TokenView::Colon);
                let (rc, i2, c2) = expect_token_spec(text, file, i1, c1, TokenView::Colon);
                lemma_property_value_bounds(text, file, i2, c2, defs);
                let (rv, i3, c3) = read_property_value_spec(text, file, i2, c2, defs);
                if let Ok(v) = rv {
                    lemma_properties_bounds(text, file, i3, c3, defs, props.push(PropertyView { name: id, value: v }));
                }
            },
            _ => {},
        }
    }
}

pub proof fn lemma_skip_section_bounds(text: Seq<char>, file: Seq<char>, idx: nat, calls: nat)
    requires
        idx <= text.len(),
    ensures
        idx <= skip_section_spec(text, file, idx, calls).1 <= text.len(),
    decreases text.len() - idx,
{
    lemma_mandatory_bounds(text, file, idx, calls);
    let (r, i1, c1) = mandatory_token_spec(text, file, idx, calls);
    if let Ok(t) = r {
        lemma_skip_section_bounds(text, file, i1, c1);
    }
}

pub proof fn lemma_rule_loop_bounds(
    text: Seq<char>,
    file: Seq<char>,
    idx: nat,
    calls: nat,
    start: TokenWithPositionView,
    defs: Map<Seq<char>, Color>,
    selectors: Seq<SelectorView>,
)
    requires
        idx <= text.len(),
    ensures
        idx <= rule_loop_spec(text, file, idx, calls, start, defs, selectors).1 <= text.len(),
    decreases text.len() - idx,
{
    lemma_properties_bounds(text, file, idx, calls, defs, Seq::empty());
    lemma_skip_section_bounds(text, file, idx, calls);
    lemma_read_selector_bounds(text, file, idx, calls, start);
    let (rs, i1, c1) = read_selector_spec(text, file, idx, calls, start);
    lemma_properties_bounds(text, file, i1, c1, defs, Seq::empty());
    lemma_mandatory_bounds(text, file, i1, c1);
    let (rt, i2, c2) = mandatory_token_spec(text, file, i1, c1);
    if let Ok((sel, more)) = rs {
        if let Ok(t) = rt {
            if idx < i2 <= text.len() {
                lemma_rule_loop_bounds(text, file, i2, c2, t, defs, selectors.push(sel));
            }
        }
    }
}

pub proof fn lemma_color_def_bounds(
    text: Seq<char>,
    file: Seq<char>,
    idx: nat,
    calls: nat,
    name: Seq<char>,
    defs: Map<Seq<char>, Color>,
)
    requires
        idx <= text.len(),
    ensures
        idx <= color_def_spec(text, file, idx, calls, name, defs).1 <= text.len(),
{
    lemma_expect_bounds(text, file, idx, calls, TokenView::Colon);
    let (r1, i1, c1) = expect_token_spec(text, file, idx, calls, TokenView::Colon);
    lemma_mandatory_bounds(text, file, i1, c1);
    let (r2, i2, c2) = mandatory_token_spec(text, file, i1, c1);
    lemma_expect_bounds(text, file, i2, c2, TokenView::SemiColon);
}

} // verus!
