use crate::mapcss::color::Color;
use crate::mapcss::number::Number;
use crate::mapcss::token::{InputPosition, LexerError, LexerErrorKind, TokenView, TokenWithPositionView};
use vstd::prelude::*;

verus! {

/// `char::is_whitespace`: the Unicode `White_Space` property.
pub open spec fn spec_is_whitespace(c: char) -> bool {
    ||| c == '\t' || c == '\n' || c == '\u{0B}' || c == '\u{0C}' || c == '\r' || c == ' '
    ||| c == '\u{85}' || c == '\u{A0}' || c == '\u{1680}'
    ||| ('\u{2000}' <= c && c <= '\u{200A}')
    ||| c == '\u{2028}' || c == '\u{2029}' || c == '\u{202F}' || c == '\u{205F}' || c == '\u{3000}'
}

pub open spec fn spec_is_digit(c: char) -> bool {
    '0' <= c && c <= '9'
}

pub open spec fn spec_is_lower(c: char) -> bool {
    'a' <= c && c <= 'z'
}

pub open spec fn spec_is_upper(c: char) -> bool {
    'A' <= c && c <= 'Z'
}

pub open spec fn spec_can_be_in_at_directive(c: char) -> bool {
    c == '_' || spec_is_lower(c) || spec_is_digit(c)
}

pub open spec fn spec_can_start_identifier(c: char) -> bool {
    c == '_' || spec_is_lower(c) || spec_is_upper(c)
}

pub open spec fn spec_can_continue_identifier(c: char) -> bool {
    c == '-' || spec_is_digit(c) || c == '.' || c == '/' || spec_can_start_identifier(c)
}

/// The value of a decimal digit.
pub open spec fn spec_decimal_value(c: char) -> int {
    c as int - '0' as int
}

/// `char::to_digit(16)`.
pub open spec fn spec_hex_value(c: char) -> Option<u8> {
    if spec_is_digit(c) {
        Some((c as int - '0' as int) as u8)
    } else if 'a' <= c && c <= 'f' {
        Some((c as int - 'a' as int + 10) as u8)
    } else if 'A' <= c && c <= 'F' {
        Some((c as int - 'A' as int + 10) as u8)
    } else {
        None
    }
}

/// Tokens made of two punctuation characters.
pub open spec fn spec_two_char_token(fst: char, snd: char) -> Option<TokenView> {
    if fst == '!' && snd == '=' {
        Some(TokenView::NotEqual)
    } else if fst == '<' && snd == '=' {
        Some(TokenView::LessOrEqual)
    } else if fst == '>' && snd == '=' {
        Some(TokenView::GreaterOrEqual)
    } else if fst == '=' && snd == '~' {
        Some(TokenView::RegexMatch)
    } else if fst == ':' && snd == ':' {
        Some(TokenView::DoubleColon)
    } else {
        None
    }
}

/// Tokens made of one punctuation character.
pub open spec fn spec_one_char_token(c: char) -> Option<TokenView> {
    if c == '(' {
        Some(TokenView::LeftParen)
    } else if c == ')' {
        Some(TokenView::RightParen)
    } else if c == '[' {
        Some(TokenView::LeftBracket)
    } else if c == ']' {
        Some(TokenView::RightBracket)
    } else if c == '{' {
        Some(TokenView::LeftBrace)
    } else if c == '}' {
        Some(TokenView::RightBrace)
    } else if c == '=' {
        Some(TokenView::Equal)
    } else if c == '<' {
        Some(TokenView::Less)
    } else if c == '>' {
        Some(TokenView::Greater)
    } else if c == '!' {
        Some(TokenView::Bang)
    } else if c == '?' {
        Some(TokenView::QuestionMark)
    } else if c == ':' {
        Some(TokenView::Colon)
    } else if c == ';' {
        Some(TokenView::SemiColon)
    } else if c == ',' {
        Some(TokenView::Comma)
    } else {
        None
    }
}

pub open spec fn sat_inc(x: usize) -> usize {
    if x < usize::MAX {
        (x + 1) as usize
    } else {
        x
    }
}

/// How the position and the "previous character was a newline" flag change
/// when the tokenizer asks for one more character (`None` at the end of the text).
pub open spec fn step_position(state: (InputPosition, bool), c: Option<char>) -> (InputPosition, bool) {
    let p = if state.1 {
        InputPosition { line: sat_inc(state.0.line), character: 0 }
    } else {
        state.0
    };
    (InputPosition { line: p.line, character: sat_inc(p.character) }, c == Some('\n'))
}

/// The character that the `n`-th request (counted from 0) for a character yields.
pub open spec fn char_request(text: Seq<char>, n: nat) -> Option<char> {
    if n < text.len() {
        Some(text[n as int])
    } else {
        None
    }
}

/// The position after `calls` requests for a character.
pub open spec fn position_after(text: Seq<char>, calls: nat) -> (InputPosition, bool)
    decreases calls,
{
    if calls == 0 {
        (InputPosition { line: 1, character: 0 }, false)
    } else {
        step_position(position_after(text, (calls - 1) as nat), char_request(text, (calls - 1) as nat))
    }
}

pub enum ScanMode {
    Normal,
    LineComment,
    BlockComment,
}

/// The outcome of looking for the next significant character.
pub enum Scan {
    End { idx: nat, calls: nat },
    UnterminatedComment { idx: nat, calls: nat },
    Found { at: nat, idx: nat, calls: nat },
}

pub open spec fn mode_rank(mode: ScanMode) -> nat {
    match mode {
        ScanMode::Normal => 0,
        _ => 1,
    }
}

/// Skips whitespace and comments from index `idx`; `calls` counts the
/// character requests made so far.
pub open spec fn scan_significant(text: Seq<char>, idx: nat, calls: nat, mode: ScanMode) -> Scan
    decreases text.len() - idx, mode_rank(mode),
{
    match mode {
        ScanMode::Normal => {
            if idx >= text.len() {
                Scan::End { idx, calls: calls + 1 }
            } else if spec_is_whitespace(text[idx as int]) {
                scan_significant(text, idx + 1, calls + 1, ScanMode::Normal)
            } else if text[idx as int] == '/' && idx + 1 < text.len() && text[idx + 1int] == '/' {
                scan_significant(text, idx + 2, calls + 2, ScanMode::LineComment)
            } else if text[idx as int] == '/' && idx + 1 < text.len() && text[idx + 1int] == '*' {
                scan_significant(text, idx + 2, calls + 2, ScanMode::BlockComment)
            } else {
                Scan::Found { at: idx, idx: idx + 1, calls: calls + 1 }
            }
        },
        ScanMode::LineComment => {
            if idx >= text.len() {
                scan_significant(text, idx, calls + 1, ScanMode::Normal)
            } else if text[idx as int] == '\n' {
                scan_significant(text, idx + 1, calls + 1, ScanMode::Normal)
            } else {
                scan_significant(text, idx + 1, calls + 1, ScanMode::LineComment)
            }
        },
        ScanMode::BlockComment => {
            if idx >= text.len() {
                Scan::UnterminatedComment { idx, calls: calls + 1 }
            } else if text[idx as int] == '*' && idx + 1 < text.len() && text[idx + 1int] == '/' {
                scan_significant(text, idx + 2, calls + 2, ScanMode::Normal)
            } else {
                scan_significant(text, idx + 1, calls + 1, ScanMode::BlockComment)
            }
        },
    }
}

/// Where a scan for the next significant character stops.
pub proof fn lemma_scan_shape(text: Seq<char>, idx: nat, calls: nat, mode: ScanMode)
    requires
        idx <= text.len(),
    ensures
        match scan_significant(text, idx, calls, mode) {
            Scan::End { idx: i, calls: c } => i == text.len() && (calls >= idx ==> c > i),
            Scan::UnterminatedComment { idx: i, calls: c } => i == text.len() && (calls >= idx ==> c > i),
            Scan::Found { at, idx: i, calls: c } => idx <= at < text.len() && i == at + 1 && (calls >= idx ==> c >= i),
        },
    decreases text.len() - idx, mode_rank(mode),
{
    match mode {
        ScanMode::Normal => {
            if idx >= text.len() {
            } else if spec_is_whitespace(text[idx as int]) {
                lemma_scan_shape(text, idx + 1, calls + 1, ScanMode::Normal);
            } else if text[idx as int] == '/' && idx + 1 < text.len() && text[idx + 1int] == '/' {
                lemma_scan_shape(text, idx + 2, calls + 2, ScanMode::LineComment);
            } else if text[idx as int] == '/' && idx + 1 < text.len() && text[idx + 1int] == '*' {
                lemma_scan_shape(text, idx + 2, calls + 2, ScanMode::BlockComment);
            } else {
            }
        },
        ScanMode::LineComment => {
            if idx >= text.len() {
                lemma_scan_shape(text, idx, calls + 1, ScanMode::Normal);
            } else if text[idx as int] == '\n' {
                lemma_scan_shape(text, idx + 1, calls + 1, ScanMode::Normal);
            } else {
                lemma_scan_shape(text, idx + 1, calls + 1, ScanMode::LineComment);
            }
        },
        ScanMode::BlockComment => {
            if idx >= text.len() {
            } else if text[idx as int] == '*' && idx + 1 < text.len() && text[idx + 1int] == '/' {
                lemma_scan_shape(text, idx + 2, calls + 2, ScanMode::Normal);
            } else {
                lemma_scan_shape(text, idx + 1, calls + 1, ScanMode::BlockComment);
            }
        },
    }
}

/// The end of the longest run of identifier characters starting at `idx`.
pub open spec fn identifier_end(text: Seq<char>, idx: nat) -> nat
    decreases text.len() - idx,
{
    if idx < text.len() && spec_can_continue_identifier(text[idx as int]) {
        identifier_end(text, idx + 1)
    } else {
        idx
    }
}

/// The end of the longest run of at-directive characters starting at `idx`.
pub open spec fn at_directive_end(text: Seq<char>, idx: nat) -> nat
    decreases text.len() - idx,
{
    if idx < text.len() && spec_can_be_in_at_directive(text[idx as int]) {
        at_directive_end(text, idx + 1)
    } else {
        idx
    }
}

/// The index of the first `"` at or after `idx`, or the text length.
pub open spec fn string_end(text: Seq<char>, idx: nat) -> nat
    decreases text.len() - idx,
{
    if idx < text.len() && text[idx as int] != '"' {
        string_end(text, idx + 1)
    } else {
        idx
    }
}

/// The end of the longest run of hexadecimal digits starting at `idx`.
pub open spec fn hex_end(text: Seq<char>, idx: nat) -> nat
    decreases text.len() - idx,
{
    if idx < text.len() && spec_hex_value(text[idx as int]) is Some {
        hex_end(text, idx + 1)
    } else {
        idx
    }
}

/// A reader's result: the token or error kind, the next index and the request count.
pub type ReadResult = (Result<TokenView, LexerErrorKind>, nat, nat);

pub open spec fn read_identifier_spec(text: Seq<char>, start: nat, idx: nat, calls: nat) -> ReadResult {
    let e = identifier_end(text, idx);
    (Ok(TokenView::Identifier(text.subrange(start as int, e as int))), e, (calls + e - idx) as nat)
}

/// Reads a string whose opening quote was consumed just before `idx`.
pub open spec fn read_string_spec(text: Seq<char>, idx: nat, calls: nat) -> ReadResult {
    let q = string_end(text, idx);
    if q < text.len() {
        (Ok(TokenView::Str(text.subrange(idx as int, q as int))), q + 1, (calls + q + 1 - idx) as nat)
    } else {
        (Err(LexerErrorKind::UnterminatedString), text.len(), (calls + text.len() - idx + 1) as nat)
    }
}

/// Consumes one character that must be `expected`.
pub open spec fn expect_char_spec(text: Seq<char>, idx: nat, calls: nat, expected: char) -> (bool, nat, nat) {
    if idx >= text.len() {
        (false, idx, calls + 1)
    } else {
        (text[idx as int] == expected, idx + 1, calls + 1)
    }
}

/// Reads what follows `@`.
pub open spec fn read_at_directive_spec(text: Seq<char>, idx: nat, calls: nat) -> ReadResult {
    if idx >= text.len() {
        (Err(LexerErrorKind::ExpectedAtDirectiveStart), idx, calls + 1)
    } else if !spec_can_be_in_at_directive(text[idx as int]) {
        (Err(LexerErrorKind::ExpectedAtDirectiveStart), idx + 1, calls + 1)
    } else {
        let e = at_directive_end(text, idx + 1);
        let c1 = (calls + e - idx) as nat;
        let directive = text.subrange(idx as int, e as int);
        if directive == "import"@ {
            let (ok1, i2, c2) = expect_char_spec(text, e, c1, '(');
            if !ok1 {
                (Err(LexerErrorKind::ExpectedChar('(')), i2, c2)
            } else if i2 >= text.len() {
                (Err(LexerErrorKind::ExpectedString), i2, c2 + 1)
            } else if text[i2 as int] != '"' {
                (Err(LexerErrorKind::ExpectedString), i2 + 1, c2 + 1)
            } else {
                let (r, i3, c3) = read_string_spec(text, i2 + 1, c2 + 1);
                match r {
                    Ok(TokenView::Str(s)) => {
                        let (ok2, i4, c4) = expect_char_spec(text, i3, c3, ')');
                        if ok2 {
                            (Ok(TokenView::Import(s)), i4, c4)
                        } else {
                            (Err(LexerErrorKind::ExpectedChar(')')), i4, c4)
                        }
                    },
                    _ => (r, i3, c3),
                }
            }
        } else {
            (Ok(TokenView::ColorRef(directive)), e, c1)
        }
    }
}

/// The digits and at most one dot of a number, from index `idx`: `mantissa` holds the digits
/// kept so far, `scale` how many of them follow the dot, `exponent` how many digits before the
/// dot were dropped, and `frac_digit` whether a digit followed the dot. A digit that would not
/// fit a 64-bit mantissa, and every digit after it, is read and dropped: before the dot it
/// still counts as a power of ten, after it the number is cut to the precision that fits.
pub open spec fn read_number_loop(
    text: Seq<char>,
    negative: bool,
    idx: nat,
    calls: nat,
    mantissa: nat,
    had_dot: bool,
    scale: nat,
    exponent: nat,
    frac_digit: bool,
) -> ReadResult
    decreases text.len() - idx,
{
    if idx < text.len() && spec_is_digit(text[idx as int]) {
        let d = spec_decimal_value(text[idx as int]);
        if exponent > 0 || mantissa * 10 + d > u64::MAX {
            read_number_loop(
                text,
                negative,
                idx + 1,
                calls + 1,
                mantissa,
                had_dot,
                scale,
                if had_dot { exponent } else { exponent + 1 },
                had_dot,
            )
        } else {
            read_number_loop(
                text,
                negative,
                idx + 1,
                calls + 1,
                (mantissa * 10 + d) as nat,
                had_dot,
                if had_dot { scale + 1 } else { scale },
                exponent,
                had_dot,
            )
        }
    } else if idx < text.len() && text[idx as int] == '.' && !had_dot {
        read_number_loop(text, negative, idx + 1, calls + 1, mantissa, true, scale, exponent, false)
    } else if had_dot && !frac_digit {
        (Err(LexerErrorKind::ExpectedDigitAfterDot), idx, calls)
    } else {
        (Ok(TokenView::Number(Number {
            negative,
            mantissa: mantissa as u64,
            scale: scale as usize,
            exponent: exponent as usize,
        })), idx, calls)
    }
}

/// Reads a number whose first (already consumed) character is `first`.
pub open spec fn read_number_body_spec(text: Seq<char>, negative: bool, first: char, idx: nat, calls: nat) -> ReadResult {
    if spec_is_digit(first) {
        read_number_loop(text, negative, idx, calls, spec_decimal_value(first) as nat, false, 0, 0, false)
    } else if first == '.' {
        read_number_loop(text, negative, idx, calls, 0, true, 0, 0, false)
    } else {
        (Err(LexerErrorKind::ExpectedDigitOrDot(first)), idx, calls)
    }
}

pub open spec fn read_number_spec(text: Seq<char>, first: char, idx: nat, calls: nat) -> ReadResult {
    if first == '+' || first == '-' {
        if idx >= text.len() {
            (Err(LexerErrorKind::ExpectedDigitAfterSign), idx, calls + 1)
        } else {
            read_number_body_spec(text, first == '-', text[idx as int], idx + 1, calls + 1)
        }
    } else {
        read_number_body_spec(text, false, first, idx, calls)
    }
}

pub open spec fn hex_at(text: Seq<char>, i: int) -> u8 {
    spec_hex_value(text[i]).unwrap()
}

pub open spec fn hex_pair(text: Seq<char>, i: int, j: int) -> u8 {
    (hex_at(text, i) * 16 + hex_at(text, j)) as u8
}

/// Reads the hexadecimal digits of a color after `#`.
pub open spec fn read_color_spec(text: Seq<char>, idx: nat, calls: nat) -> ReadResult {
    let e = hex_end(text, idx);
    let c = (calls + e - idx) as nat;
    if e - idx == 6 {
        (Ok(TokenView::Color(Color {
            r: hex_pair(text, idx as int, idx + 1int),
            g: hex_pair(text, idx + 2int, idx + 3int),
            b: hex_pair(text, idx + 4int, idx + 5int),
        })), e, c)
    } else if e - idx == 3 {
        (Ok(TokenView::Color(Color {
            r: hex_pair(text, idx as int, idx as int),
            g: hex_pair(text, idx + 1int, idx + 1int),
            b: hex_pair(text, idx + 2int, idx + 2int),
        })), e, c)
    } else {
        (Err(LexerErrorKind::InvalidHexColor), e, c)
    }
}

/// A color of six hex digits reads as red from the first two, green from the next two and blue
/// from the last two (the first digit of each pair counting sixteen times); a color of three
/// digits reads as the six-digit color that repeats each digit, so the first digit gives red.
/// Any other number of digits is an error, and reading stops after the digits.
pub proof fn lemma_color_digits(text: Seq<char>, idx: nat, calls: nat)
    ensures
        hex_end(text, idx) == idx + 6 ==> (read_color_spec(text, idx, calls).0 matches Ok(TokenView::Color(c)) && c.r
            == 16 * spec_hex_value(text[idx as int]).unwrap() + spec_hex_value(text[idx + 1int]).unwrap() && c.g == 16
            * spec_hex_value(text[idx + 2int]).unwrap() + spec_hex_value(text[idx + 3int]).unwrap() && c.b == 16
            * spec_hex_value(text[idx + 4int]).unwrap() + spec_hex_value(text[idx + 5int]).unwrap()),
        hex_end(text, idx) == idx + 3 ==> (read_color_spec(text, idx, calls).0 matches Ok(TokenView::Color(c)) && c.r
            == 17 * spec_hex_value(text[idx as int]).unwrap() && c.g == 17 * spec_hex_value(text[idx + 1int]).unwrap()
            && c.b == 17 * spec_hex_value(text[idx + 2int]).unwrap()),
        hex_end(text, idx) != idx + 3 && hex_end(text, idx) != idx + 6 ==> read_color_spec(text, idx, calls).0 == Err::<
            TokenView,
            LexerErrorKind,
        >(LexerErrorKind::InvalidHexColor),
        read_color_spec(text, idx, calls).1 == hex_end(text, idx),
{
    lemma_hex_digits(text, idx);
}

/// The characters between `idx` and the end of its hex digits are hex digits, each at most 15.
proof fn lemma_hex_digits(text: Seq<char>, idx: nat)
    ensures
        idx <= hex_end(text, idx),
        hex_end(text, idx) > idx ==> hex_end(text, idx) <= text.len(),
        forall|i: int|
            idx <= i < hex_end(text, idx) ==> (spec_hex_value(#[trigger] text[i]) matches Some(v) && v < 16),
    decreases text.len() - idx,
{
    if idx < text.len() && spec_hex_value(text[idx as int]) is Some {
        lemma_hex_digits(text, idx + 1);
    }
}

/// Reads a zoom level of one or two digits.
pub open spec fn read_zoom_level_spec(text: Seq<char>, idx: nat) -> (Option<u8>, nat) {
    if idx < text.len() && spec_is_digit(text[idx as int]) {
        let a = spec_decimal_value(text[idx as int]);
        if idx + 1 < text.len() && spec_is_digit(text[idx + 1int]) {
            (Some((10 * a + spec_decimal_value(text[idx + 1int])) as u8), idx + 2)
        } else {
            (Some(a as u8), idx + 1)
        }
    } else {
        (None, idx)
    }
}

/// Reads a zoom range after `|`.
pub open spec fn read_zoom_range_spec(text: Seq<char>, idx: nat, calls: nat) -> ReadResult {
    let (ok, i1, c1) = expect_char_spec(text, idx, calls, 'z');
    if !ok {
        (Err(LexerErrorKind::ExpectedChar('z')), i1, c1)
    } else {
        let (min_zoom, i2) = read_zoom_level_spec(text, i1);
        let had_hyphen = i2 < text.len() && text[i2 as int] == '-';
        let i3 = if had_hyphen { i2 + 1 } else { i2 };
        let (max_zoom, i4) = read_zoom_level_spec(text, i3);
        let c4 = (c1 + i4 - i1) as nat;
        if min_zoom is None && max_zoom is None {
            (Err(LexerErrorKind::ZoomRangeWithoutLevels), i4, c4)
        } else {
            (Ok(TokenView::ZoomRange { min_zoom, max_zoom: if had_hyphen { max_zoom } else { min_zoom } }), i4, c4)
        }
    }
}

/// Reads the token that starts with the character `ch` at index `at`; `idx` is `at + 1`.
pub open spec fn read_token_spec(text: Seq<char>, at: nat, ch: char, idx: nat, calls: nat) -> ReadResult {
    if idx < text.len() && spec_two_char_token(ch, text[idx as int]) is Some {
        (Ok(spec_two_char_token(ch, text[idx as int]).unwrap()), idx + 1, calls + 1)
    } else if spec_one_char_token(ch) is Some {
        (Ok(spec_one_char_token(ch).unwrap()), idx, calls)
    } else if ch == '@' {
        read_at_directive_spec(text, idx, calls)
    } else if ch == '*' {
        (Ok(TokenView::Identifier(seq!['*'])), idx, calls)
    } else if spec_can_start_identifier(ch) {
        read_identifier_spec(text, at, idx, calls)
    } else if ch == '"' {
        read_string_spec(text, idx, calls)
    } else if spec_is_digit(ch) || ch == '+' || ch == '.' {
        read_number_spec(text, ch, idx, calls)
    } else if ch == '-' {
        if idx < text.len() && spec_is_digit(text[idx as int]) {
            read_number_spec(text, ch, idx, calls)
        } else if idx < text.len() && spec_can_continue_identifier(text[idx as int]) {
            read_identifier_spec(text, at, idx, calls)
        } else {
            (Err(LexerErrorKind::ExpectedNumberOrIdentifierAfterHyphen), idx, calls)
        }
    } else if ch == '|' {
        read_zoom_range_spec(text, idx, calls)
    } else if ch == '#' {
        read_color_spec(text, idx, calls)
    } else {
        (Err(LexerErrorKind::UnexpectedSymbol(ch)), idx, calls)
    }
}

/// What one call of `Tokenizer::next` yields, with the next index and request count.
pub open spec fn next_token_spec(text: Seq<char>, idx: nat, calls: nat) -> (
    Option<Result<TokenWithPositionView, LexerError>>,
    nat,
    nat,
) {
    match scan_significant(text, idx, calls, ScanMode::Normal) {
        Scan::End { idx, calls } => (None, idx, calls),
        Scan::UnterminatedComment { idx, calls } => (
            Some(Err(LexerError {
                kind: LexerErrorKind::UnterminatedBlockComment,
                position: position_after(text, calls).0,
            })),
            idx,
            calls,
        ),
        Scan::Found { at, idx, calls } => {
            let pos = position_after(text, calls).0;
            let (r, i2, c2) = read_token_spec(text, at, text[at as int], idx, calls);
            match r {
                Ok(t) => (Some(Ok(TokenWithPositionView { token: t, position: pos })), i2, c2),
                Err(k) => (Some(Err(LexerError { kind: k, position: position_after(text, c2).0 })), i2, c2),
            }
        },
    }
}

} // verus!

verus! {

pub proof fn lemma_identifier_end(text: Seq<char>, idx: nat)
    requires
        idx <= text.len(),
    ensures
        idx <= identifier_end(text, idx) <= text.len(),
    decreases text.len() - idx,
{
    if idx < text.len() && spec_can_continue_identifier(text[idx as int]) {
        lemma_identifier_end(text, idx + 1);
    }
}

pub proof fn lemma_at_directive_end(text: Seq<char>, idx: nat)
    requires
        idx <= text.len(),
    ensures
        idx <= at_directive_end(text, idx) <= text.len(),
    decreases text.len() - idx,
{
    if idx < text.len() && spec_can_be_in_at_directive(text[idx as int]) {
        lemma_at_directive_end(text, idx + 1);
    }
}

pub proof fn lemma_string_end(text: Seq<char>, idx: nat)
    requires
        idx <= text.len(),
    ensures
        idx <= string_end(text, idx) <= text.len(),
        string_end(text, idx) < text.len() ==> text[string_end(text, idx) as int] == '"',
    decreases text.len() - idx,
{
    if idx < text.len() && text[idx as int] != '"' {
        lemma_string_end(text, idx + 1);
    }
}

pub proof fn lemma_hex_end(text: Seq<char>, idx: nat)
    requires
        idx <= text.len(),
    ensures
        idx <= hex_end(text, idx) <= text.len(),
    decreases text.len() - idx,
{
    if idx < text.len() && spec_hex_value(text[idx as int]) is Some {
        lemma_hex_end(text, idx + 1);
    }
}

pub proof fn lemma_number_loop_bounds(
    text: Seq<char>,
    negative: bool,
    idx: nat,
    calls: nat,
    mantissa: nat,
    had_dot: bool,
    scale: nat,
    exponent: nat,
    frac_digit: bool,
)
    requires
        idx <= text.len(),
    ensures
        idx <= read_number_loop(text, negative, idx, calls, mantissa, had_dot, scale, exponent, frac_digit).1
            <= text.len(),
    decreases text.len() - idx,
{
    if idx < text.len() && spec_is_digit(text[idx as int]) {
        let d = spec_decimal_value(text[idx as int]);
        if exponent > 0 || mantissa * 10 + d > u64::MAX {
            lemma_number_loop_bounds(
                text,
                negative,
                idx + 1,
                calls + 1,
                mantissa,
                had_dot,
                scale,
                if had_dot { exponent } else { exponent + 1 },
                had_dot,
            );
        } else {
            lemma_number_loop_bounds(
                text,
                negative,
                idx + 1,
                calls + 1,
                (mantissa * 10 + d) as nat,
                had_dot,
                if had_dot { scale + 1 } else { scale },
                exponent,
                had_dot,
            );
        }
    } else if idx < text.len() && text[idx as int] == '.' && !had_dot {
        lemma_number_loop_bounds(text, negative, idx + 1, calls + 1, mantissa, true, scale, exponent, false);
    }
}

/// Reading a token never moves backwards nor past the end of the text.
pub proof fn lemma_read_token_bounds(text: Seq<char>, at: nat, ch: char, idx: nat, calls: nat)
    requires
        idx <= text.len(),
    ensures
        idx <= read_token_spec(text, at, ch, idx, calls).1 <= text.len(),
{
    lemma_identifier_end(text, idx);
    lemma_hex_end(text, idx);
    lemma_string_end(text, idx);
    if idx < text.len() {
        lemma_at_directive_end(text, idx + 1);
        let e = at_directive_end(text, idx + 1);
        if e < text.len() && e + 1 < text.len() {
            lemma_string_end(text, e + 2);
        }
        if idx + 1 <= text.len() {
            if spec_is_digit(text[idx as int]) {
                lemma_number_loop_bounds(text, ch == '-', idx + 1, calls + 1, spec_decimal_value(text[idx as int]) as nat, false, 0, 0, false);
            }
            if text[idx as int] == '.' {
                lemma_number_loop_bounds(text, ch == '-', idx + 1, calls + 1, 0, true, 0, 0, false);
            }
        }
    }
    if spec_is_digit(ch) {
        lemma_number_loop_bounds(text, false, idx, calls, spec_decimal_value(ch) as nat, false, 0, 0, false);
    }
    if ch == '.' {
        lemma_number_loop_bounds(text, false, idx, calls, 0, true, 0, 0, false);
    }
}

/// A call of `next` never moves backwards nor past the end of the text, and
/// a token that it yields consumes at least one character.
pub proof fn lemma_next_token_bounds(text: Seq<char>, idx: nat, calls: nat)
    ensures
        idx <= text.len() ==> idx <= next_token_spec(text, idx, calls).1 <= text.len(),
        next_token_spec(text, idx, calls).0 matches Some(Ok(_)) ==> idx < next_token_spec(text, idx, calls).1 <= text.len(),
{
    if idx <= text.len() {
        lemma_scan_shape(text, idx, calls, ScanMode::Normal);
        match scan_significant(text, idx, calls, ScanMode::Normal) {
            Scan::Found { at, idx: i, calls: c } => {
                lemma_read_token_bounds(text, at, text[at as int], i, c);
            },
            _ => {},
        }
    }
}

} // verus!
