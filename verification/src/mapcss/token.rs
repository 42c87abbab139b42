use crate::mapcss::color::Color;
pub use crate::mapcss::number::Number;
use crate::mapcss::token_spec::{
    at_directive_end, char_request, expect_char_spec, hex_at, hex_end, identifier_end, lemma_scan_shape, next_token_spec,
    position_after, read_at_directive_spec, read_color_spec, read_identifier_spec, read_number_body_spec,
    read_number_loop, read_number_spec, read_string_spec, read_token_spec, read_zoom_level_spec,
    read_zoom_range_spec, scan_significant, spec_can_be_in_at_directive, spec_can_continue_identifier,
    spec_can_start_identifier, spec_decimal_value, spec_hex_value, spec_is_digit, spec_is_whitespace,
    spec_one_char_token, spec_two_char_token, string_end, Scan, ScanMode,
};
use crate::util::{chars_to_string, str_chars, str_eq};
use vstd::prelude::*;

verus! {

pub type ZoomLevel = Option<u8>;


#[derive(Clone, Debug)]
pub enum Token {
    Import(String),
    Identifier(String),
    String(String),
    Number(Number),
    ZoomRange { min_zoom: ZoomLevel, max_zoom: ZoomLevel },
    ColorRef(String),
    Color(Color),
    LeftParen,
    RightParen,
    LeftBracket,
    RightBracket,
    LeftBrace,
    RightBrace,
    Equal,
    NotEqual,
    Less,
    Greater,
    LessOrEqual,
    GreaterOrEqual,
    RegexMatch,
    Bang,
    QuestionMark,
    Colon,
    DoubleColon,
    SemiColon,
    Comma,
}

/// The mathematical view of a token: its text as a sequence of characters.
pub enum TokenView {
    Import(Seq<char>),
    Identifier(Seq<char>),
    Str(Seq<char>),
    Number(Number),
    ZoomRange { min_zoom: ZoomLevel, max_zoom: ZoomLevel },
    ColorRef(Seq<char>),
    Color(Color),
    LeftParen,
    RightParen,
    LeftBracket,
    RightBracket,
    LeftBrace,
    RightBrace,
    Equal,
    NotEqual,
    Less,
    Greater,
    LessOrEqual,
    GreaterOrEqual,
    RegexMatch,
    Bang,
    QuestionMark,
    Colon,
    DoubleColon,
    SemiColon,
    Comma,
}

impl View for Token {
    type V = TokenView;

    open spec fn view(&self) -> TokenView {
        match self {
            Token::Import(s) => TokenView::Import(s@),
            Token::Identifier(s) => TokenView::Identifier(s@),
            Token::String(s) => TokenView::Str(s@),
            Token::Number(n) => TokenView::Number(*n),
            Token::ZoomRange { min_zoom, max_zoom } => TokenView::ZoomRange { min_zoom: *min_zoom, max_zoom: *max_zoom },
            Token::ColorRef(s) => TokenView::ColorRef(s@),
            Token::Color(c) => TokenView::Color(*c),
            Token::LeftParen => TokenView::LeftParen,
            Token::RightParen => TokenView::RightParen,
            Token::LeftBracket => TokenView::LeftBracket,
            Token::RightBracket => TokenView::RightBracket,
            Token::LeftBrace => TokenView::LeftBrace,
            Token::RightBrace => TokenView::RightBrace,
            Token::Equal => TokenView::Equal,
            Token::NotEqual => TokenView::NotEqual,
            Token::Less => TokenView::Less,
            Token::Greater => TokenView::Greater,
            Token::LessOrEqual => TokenView::LessOrEqual,
            Token::GreaterOrEqual => TokenView::GreaterOrEqual,
            Token::RegexMatch => TokenView::RegexMatch,
            Token::Bang => TokenView::Bang,
            Token::QuestionMark => TokenView::QuestionMark,
            Token::Colon => TokenView::Colon,
            Token::DoubleColon => TokenView::DoubleColon,
            Token::SemiColon => TokenView::SemiColon,
            Token::Comma => TokenView::Comma,
        }
    }
}

impl Token {
    /// Whether two tokens are the same token with the same contents.
    pub fn same_as(&self, other: &Token) -> (res: bool)
        ensures
            res == (self@ == other@),
    {
        match self {
            Token::Import(a) => match other {
                Token::Import(b) => str_eq(a.as_str(), b.as_str()),
                _ => false,
            },
            Token::Identifier(a) => match other {
                Token::Identifier(b) => str_eq(a.as_str(), b.as_str()),
                _ => false,
            },
            Token::String(a) => match other {
                Token::String(b) => str_eq(a.as_str(), b.as_str()),
                _ => false,
            },
            Token::Number(a) => match other {
                Token::Number(b) => a.negative == b.negative && a.mantissa == b.mantissa && a.scale == b.scale
                    && a.exponent == b.exponent,
                _ => false,
            },
            Token::ZoomRange { min_zoom: a1, max_zoom: a2 } => match other {
                Token::ZoomRange { min_zoom: b1, max_zoom: b2 } => same_zoom_level(*a1, *b1) && same_zoom_level(
                    *a2,
                    *b2,
                ),
                _ => false,
            },
            Token::ColorRef(a) => match other {
                Token::ColorRef(b) => str_eq(a.as_str(), b.as_str()),
                _ => false,
            },
            Token::Color(a) => match other {
                Token::Color(b) => a.r == b.r && a.g == b.g && a.b == b.b,
                _ => false,
            },
            Token::LeftParen => matches!(other, Token::LeftParen),
            Token::RightParen => matches!(other, Token::RightParen),
            Token::LeftBracket => matches!(other, Token::LeftBracket),
            Token::RightBracket => matches!(other, Token::RightBracket),
            Token::LeftBrace => matches!(other, Token::LeftBrace),
            Token::RightBrace => matches!(other, Token::RightBrace),
            Token::Equal => matches!(other, Token::Equal),
            Token::NotEqual => matches!(other, Token::NotEqual),
            Token::Less => matches!(other, Token::Less),
            Token::Greater => matches!(other, Token::Greater),
            Token::LessOrEqual => matches!(other, Token::LessOrEqual),
            Token::GreaterOrEqual => matches!(other, Token::GreaterOrEqual),
            Token::RegexMatch => matches!(other, Token::RegexMatch),
            Token::Bang => matches!(other, Token::Bang),
            Token::QuestionMark => matches!(other, Token::QuestionMark),
            Token::Colon => matches!(other, Token::Colon),
            Token::DoubleColon => matches!(other, Token::DoubleColon),
            Token::SemiColon => matches!(other, Token::SemiColon),
            Token::Comma => matches!(other, Token::Comma),
        }
    }
}

fn same_zoom_level(a: ZoomLevel, b: ZoomLevel) -> (res: bool)
    ensures
        res == (a == b),
{
    match (a, b) {
        (None, None) => true,
        (Some(x), Some(y)) => x == y,
        _ => false,
    }
}

impl PartialEq for Token {
    fn eq(&self, other: &Token) -> (res: bool) {
        self.same_as(other)
    }
}

impl vstd::std_specs::cmp::PartialEqSpecImpl for Token {
    open spec fn obeys_eq_spec() -> bool {
        true
    }

    open spec fn eq_spec(&self, other: &Token) -> bool {
        self@ == other@
    }
}

/// A line (from 1) and a column (from 1) in the stylesheet text.
#[derive(Copy, Clone, Debug, Eq, PartialEq, Structural)]
pub struct InputPosition {
    pub line: usize,
    pub character: usize,
}

#[derive(Clone, Debug)]
pub struct TokenWithPosition {
    pub token: Token,
    pub position: InputPosition,
}

pub struct TokenWithPositionView {
    pub token: TokenView,
    pub position: InputPosition,
}

impl View for TokenWithPosition {
    type V = TokenWithPositionView;

    open spec fn view(&self) -> TokenWithPositionView {
        TokenWithPositionView { token: self.token@, position: self.position }
    }
}

/// Why the tokenizer rejected its input.
#[derive(Clone, Copy, Debug, PartialEq, Eq, Structural)]
pub enum LexerErrorKind {
    ExpectedNumberOrIdentifierAfterHyphen,
    UnexpectedSymbol(char),
    ExpectedAtDirectiveStart,
    ExpectedString,
    UnterminatedString,
    ExpectedDigitAfterSign,
    ExpectedDigitOrDot(char),
    ExpectedDigitAfterDot,
    InvalidHexColor,
    ZoomRangeWithoutLevels,
    ExpectedChar(char),
    UnterminatedBlockComment,
}

/// A tokenizer error with the position at which it was detected.
#[derive(Clone, Copy, Debug, PartialEq, Eq, Structural)]
pub struct LexerError {
    pub kind: LexerErrorKind,
    pub position: InputPosition,
}

pub open spec fn opt_result_view(
    r: Option<Result<TokenWithPosition, LexerError>>,
) -> Option<Result<TokenWithPositionView, LexerError>> {
    match r {
        None => None,
        Some(Ok(t)) => Some(Ok(t@)),
        Some(Err(e)) => Some(Err(e)),
    }
}

pub open spec fn read_result_view(r: Result<Token, LexerErrorKind>) -> Result<TokenView, LexerErrorKind> {
    match r {
        Ok(t) => Ok(t@),
        Err(k) => Err(k),
    }
}

/// Splits a stylesheet into tokens.
pub struct Tokenizer {
    text: Vec<char>,
    idx: usize,
    current_position: InputPosition,
    had_newline: bool,
    calls: Ghost<nat>,
}

impl Tokenizer {
    /// The text being tokenized.
    pub closed spec fn text(&self) -> Seq<char> {
        self.text@
    }

    /// The index of the next character to read.
    pub closed spec fn index(&self) -> nat {
        self.idx as nat
    }

    /// How many times a character was requested so far (also at the end of the text).
    pub closed spec fn requests(&self) -> nat {
        self.calls@
    }

    pub closed spec fn wf(&self) -> bool {
        &&& self.idx <= self.text@.len()
        &&& self.text@.len() < usize::MAX
        &&& self.calls@ >= self.idx
        &&& (self.calls@ > self.idx ==> self.idx == self.text@.len())
        &&& position_after(self.text@, self.calls@) == (self.current_position, self.had_newline)
    }

    pub proof fn lemma_wf_bounds(&self)
        requires
            self.wf(),
        ensures
            self.index() <= self.text().len(),
            self.text().len() < usize::MAX,
    {
    }

    pub fn new(input: &str) -> (res: Tokenizer)
        requires
            input@.len() < usize::MAX,
        ensures
            res.wf(),
            res.text() == input@,
            res.index() == 0,
            res.requests() == 0,
    {
        Tokenizer {
            text: str_chars(input),
            idx: 0,
            current_position: InputPosition { line: 1, character: 0 },
            had_newline: false,
            calls: Ghost(0),
        }
    }

    /// The position after the last character that was read.
    pub fn position(&self) -> (res: InputPosition)
        requires
            self.wf(),
        ensures
            res == position_after(self.text(), self.requests()).0,
    {
        self.current_position
    }

    /// The next token, or the error that stopped it, or `None` at the end of the text.
    pub fn next(&mut self) -> (res: Option<Result<TokenWithPosition, LexerError>>)
        requires
            old(self).wf(),
        ensures
            final(self).wf(),
            final(self).text() == old(self).text(),
            (opt_result_view(res), final(self).index(), final(self).requests()) == next_token_spec(
                old(self).text(),
                old(self).index(),
                old(self).requests(),
            ),
    {
        match self.next_significant_char() {
            None => None,
            Some(Err(e)) => Some(Err(e)),
            Some(Ok((idx, ch))) => {
                proof {
                    lemma_scan_shape(old(self).text@, old(self).idx as nat, old(self).calls@, ScanMode::Normal);
                }
                let pos = self.current_position;
                match self.read_token(idx, ch) {
                    Ok(token) => Some(Ok(TokenWithPosition { token, position: pos })),
                    Err(kind) => Some(Err(LexerError { kind, position: self.current_position })),
                }
            },
        }
    }

    fn read_token(&mut self, idx: usize, ch: char) -> (res: Result<Token, LexerErrorKind>)
        requires
            old(self).wf(),
            idx + 1 == old(self).idx,
            old(self).text@[idx as int] == ch,
        ensures
            final(self).wf(),
            final(self).text@ == old(self).text@,
            (read_result_view(res), final(self).index(), final(self).requests()) == read_token_spec(
                old(self).text@,
                idx as nat,
                ch,
                old(self).index(),
                old(self).requests(),
            ),
    {
        if let Some(next_ch) = self.peek_char() {
            if let Some(token) = get_two_char_simple_token(ch, next_ch) {
                self.advance();
                return Ok(token);
            }
        }
        if let Some(token) = get_one_char_simple_token(ch) {
            Ok(token)
        } else if ch == '@' {
            self.read_at_directive()
        } else if ch == '*' {
            let s = chars_to_string(&self.text, idx, idx + 1);
            proof {
                assert(self.text@.subrange(idx as int, idx + 1) == seq!['*']);
            }
            Ok(Token::Identifier(s))
        } else if can_start_identifier(ch) {
            Ok(self.read_identifier(idx))
        } else if ch == '"' {
            self.read_string()
        } else if is_digit(ch) || ch == '+' || ch == '.' {
            self.read_number(ch)
        } else if ch == '-' {
            match self.peek_char() {
                Some(next_ch) => {
                    if is_digit(next_ch) {
                        self.read_number(ch)
                    } else if can_continue_identifier(next_ch) {
                        Ok(self.read_identifier(idx))
                    } else {
                        Err(LexerErrorKind::ExpectedNumberOrIdentifierAfterHyphen)
                    }
                },
                None => Err(LexerErrorKind::ExpectedNumberOrIdentifierAfterHyphen),
            }
        } else if ch == '|' {
            self.read_zoom_range()
        } else if ch == '#' {
            self.read_color()
        } else {
            Err(LexerErrorKind::UnexpectedSymbol(ch))
        }
    }

    fn read_at_directive(&mut self) -> (res: Result<Token, LexerErrorKind>)
        requires
            old(self).wf(),
        ensures
            final(self).wf(),
            final(self).text@ == old(self).text@,
            (read_result_view(res), final(self).index(), final(self).requests()) == read_at_directive_spec(
                old(self).text@,
                old(self).index(),
                old(self).requests(),
            ),
    {
        let start_idx = match self.next_char_with_pos() {
            Some((idx, ch)) => {
                if can_be_in_at_directive(ch) {
                    idx
                } else {
                    return Err(LexerErrorKind::ExpectedAtDirectiveStart);
                }
            },
            None => return Err(LexerErrorKind::ExpectedAtDirectiveStart),
        };
        let ghost c0 = old(self).calls@;
        while self.idx < self.text.len() && can_be_in_at_directive(self.text[self.idx])
            invariant
                self.wf(),
                self.text@ == old(self).text@,
                start_idx < self.idx,
                self.idx <= self.text@.len(),
                at_directive_end(self.text@, (start_idx + 1) as nat) == at_directive_end(self.text@, self.idx as nat),
                self.calls@ == c0 + (self.idx - start_idx),
            decreases self.text@.len() - self.idx,
        {
            self.advance();
        }
        let end_idx = self.idx;
        let directive_text = chars_to_string(&self.text, start_idx, end_idx);
        let ghost directive = self.text@.subrange(start_idx as int, end_idx as int);
        if self.is_import_directive(start_idx, end_idx) {
            if !self.expect_char('(') {
                return Err(LexerErrorKind::ExpectedChar('('));
            }
            let import_text = match self.next_char_with_pos() {
                Some((_, ch)) => {
                    if ch == '"' {
                        match self.read_string()? {
                            Token::String(text) => text,
                            _ => {
                                proof {
                                    assert(false);
                                }
                                String::new()
                            },
                        }
                    } else {
                        return Err(LexerErrorKind::ExpectedString);
                    }
                },
                None => return Err(LexerErrorKind::ExpectedString),
            };
            if !self.expect_char(')') {
                return Err(LexerErrorKind::ExpectedChar(')'));
            }
            Ok(Token::Import(import_text))
        } else {
            Ok(Token::ColorRef(directive_text))
        }
    }

    fn is_import_directive(&self, start: usize, end: usize) -> (res: bool)
        requires
            start <= end <= self.text@.len(),
        ensures
            res == (self.text@.subrange(start as int, end as int) == "import"@),
    {
        proof {
            reveal_strlit("import");
        }
        assert("import"@.len() == 6);
        if end - start != 6 {
            return false;
        }
        let r = self.text[start] == 'i' && self.text[start + 1] == 'm' && self.text[start + 2] == 'p'
            && self.text[start + 3] == 'o' && self.text[start + 4] == 'r' && self.text[start + 5] == 't';
        proof {
            let s = self.text@.subrange(start as int, end as int);
            if r {
                assert(s =~= "import"@);
            } else {
                if s == "import"@ {
                    assert(s[0] == 'i' && s[1] == 'm' && s[2] == 'p' && s[3] == 'o' && s[4] == 'r' && s[5] == 't');
                }
            }
        }
        r
    }

    fn read_identifier(&mut self, start_idx: usize) -> (res: Token)
        requires
            old(self).wf(),
            start_idx < old(self).idx,
        ensures
            final(self).wf(),
            final(self).text@ == old(self).text@,
            (Ok::<TokenView, LexerErrorKind>(res@), final(self).index(), final(self).requests()) == read_identifier_spec(
                old(self).text@,
                start_idx as nat,
                old(self).index(),
                old(self).requests(),
            ),
    {
        let ghost i0 = self.idx;
        let ghost c0 = self.calls@;
        while self.idx < self.text.len() && can_continue_identifier(self.text[self.idx])
            invariant
                self.wf(),
                self.text@ == old(self).text@,
                i0 <= self.idx <= self.text@.len(),
                identifier_end(self.text@, i0 as nat) == identifier_end(self.text@, self.idx as nat),
                self.calls@ == c0 + (self.idx - i0),
            decreases self.text@.len() - self.idx,
        {
            self.advance();
        }
        Token::Identifier(chars_to_string(&self.text, start_idx, self.idx))
    }

    /// Reads a string whose opening quote was just consumed.
    fn read_string(&mut self) -> (res: Result<Token, LexerErrorKind>)
        requires
            old(self).wf(),
        ensures
            final(self).wf(),
            final(self).text@ == old(self).text@,
            (read_result_view(res), final(self).index(), final(self).requests()) == read_string_spec(
                old(self).text@,
                old(self).index(),
                old(self).requests(),
            ),
    {
        let start_idx = self.idx;
        let ghost c0 = self.calls@;
        while self.idx < self.text.len() && self.text[self.idx] != '"'
            invariant
                self.wf(),
                self.text@ == old(self).text@,
                start_idx <= self.idx <= self.text@.len(),
                string_end(self.text@, start_idx as nat) == string_end(self.text@, self.idx as nat),
                self.calls@ == c0 + (self.idx - start_idx),
            decreases self.text@.len() - self.idx,
        {
            self.advance();
        }
        if self.idx < self.text.len() {
            let end_idx = self.idx;
            self.advance();
            Ok(Token::String(chars_to_string(&self.text, start_idx, end_idx)))
        } else {
            self.advance();
            Err(LexerErrorKind::UnterminatedString)
        }
    }

    fn read_number(&mut self, first: char) -> (res: Result<Token, LexerErrorKind>)
        requires
            old(self).wf(),
        ensures
            final(self).wf(),
            final(self).text@ == old(self).text@,
            (read_result_view(res), final(self).index(), final(self).requests()) == read_number_spec(
                old(self).text@,
                first,
                old(self).index(),
                old(self).requests(),
            ),
    {
        let mut first_ch = first;
        let mut negative = false;
        if first == '+' || first == '-' {
            match self.next_char() {
                Some(next_ch) => {
                    negative = first == '-';
                    first_ch = next_ch;
                },
                None => return Err(LexerErrorKind::ExpectedDigitAfterSign),
            }
        }
        let mut had_dot = false;
        let mut mantissa: u64 = 0;
        if is_digit(first_ch) {
            mantissa = decimal_value(first_ch) as u64;
        } else if first_ch == '.' {
            had_dot = true;
        } else {
            return Err(LexerErrorKind::ExpectedDigitOrDot(first_ch));
        }
        let mut scale: usize = 0;
        let mut exponent: usize = 0;
        let mut frac_digit = false;
        let ghost target = read_number_body_spec(self.text@, negative, first_ch, self.idx as nat, self.calls@);
        let ghost i0 = self.idx;
        loop
            invariant
                self.wf(),
                self.text@ == old(self).text@,
                i0 <= self.idx,
                scale <= self.idx - i0,
                exponent <= self.idx - i0,
                target == read_number_loop(
                    self.text@,
                    negative,
                    self.idx as nat,
                    self.calls@,
                    mantissa as nat,
                    had_dot,
                    scale as nat,
                    exponent as nat,
                    frac_digit,
                ),
            ensures
                !(self.idx < self.text@.len() && spec_is_digit(self.text@[self.idx as int])),
                !(self.idx < self.text@.len() && self.text@[self.idx as int] == '.' && !had_dot),
            decreases self.text@.len() - self.idx,
        {
            match self.peek_char() {
                Some(next_ch) => {
                    if is_digit(next_ch) {
                        let d = decimal_value(next_ch) as u64;
                        if exponent > 0 || mantissa > (u64::MAX - d) / 10 {
                            proof {
                                if exponent == 0 {
                                    assert(mantissa * 10 + d > u64::MAX) by (nonlinear_arith)
                                        requires
                                            mantissa > (u64::MAX - d) / 10,
                                            0 <= d <= 9,
                                    ;
                                }
                            }
                            if !had_dot {
                                exponent = exponent + 1;
                            }
                        } else {
                            proof {
                                assert(mantissa * 10 + d <= u64::MAX) by (nonlinear_arith)
                                    requires
                                        mantissa <= (u64::MAX - d) / 10,
                                        0 <= d <= 9,
                                ;
                            }
                            mantissa = mantissa * 10 + d;
                            if had_dot {
                                scale = scale + 1;
                            }
                        }
                        frac_digit = had_dot;
                        self.advance();
                    } else if next_ch == '.' && !had_dot {
                        had_dot = true;
                        frac_digit = false;
                        self.advance();
                    } else {
                        break;
                    }
                },
                None => break,
            }
        }
        if had_dot && !frac_digit {
            Err(LexerErrorKind::ExpectedDigitAfterDot)
        } else {
            Ok(Token::Number(Number { negative, mantissa, scale, exponent }))
        }
    }

    fn read_color(&mut self) -> (res: Result<Token, LexerErrorKind>)
        requires
            old(self).wf(),
        ensures
            final(self).wf(),
            final(self).text@ == old(self).text@,
            (read_result_view(res), final(self).index(), final(self).requests()) == read_color_spec(
                old(self).text@,
                old(self).index(),
                old(self).requests(),
            ),
    {
        let start = self.idx;
        let ghost c0 = self.calls@;
        let mut color_digits: Vec<u8> = Vec::new();
        loop
            invariant
                self.wf(),
                self.text@ == old(self).text@,
                start <= self.idx <= self.text@.len(),
                hex_end(self.text@, start as nat) == hex_end(self.text@, self.idx as nat),
                self.calls@ == c0 + (self.idx - start),
                color_digits@.len() == self.idx - start,
                forall|k: int| 0 <= k < color_digits@.len() ==> color_digits@[k] == hex_at(self.text@, start + k) && color_digits@[k] < 16,
            ensures
                !(self.idx < self.text@.len() && spec_hex_value(self.text@[self.idx as int]) is Some),
            decreases self.text@.len() - self.idx,
        {
            match self.read_digit(16) {
                Some(d) => color_digits.push(d),
                None => break,
            }
        }
        if color_digits.len() == 6 {
            Ok(Token::Color(Color {
                r: color_digits[0] * 16 + color_digits[1],
                g: color_digits[2] * 16 + color_digits[3],
                b: color_digits[4] * 16 + color_digits[5],
            }))
        } else if color_digits.len() == 3 {
            Ok(Token::Color(Color {
                r: color_digits[0] * 16 + color_digits[0],
                g: color_digits[1] * 16 + color_digits[1],
                b: color_digits[2] * 16 + color_digits[2],
            }))
        } else {
            Err(LexerErrorKind::InvalidHexColor)
        }
    }

    fn read_zoom_range(&mut self) -> (res: Result<Token, LexerErrorKind>)
        requires
            old(self).wf(),
        ensures
            final(self).wf(),
            final(self).text@ == old(self).text@,
            (read_result_view(res), final(self).index(), final(self).requests()) == read_zoom_range_spec(
                old(self).text@,
                old(self).index(),
                old(self).requests(),
            ),
    {
        if !self.expect_char('z') {
            return Err(LexerErrorKind::ExpectedChar('z'));
        }
        let min_zoom = self.read_zoom_level();
        let had_hyphen = match self.peek_char() {
            Some(c) => {
                if c == '-' {
                    self.advance();
                    true
                } else {
                    false
                }
            },
            None => false,
        };
        let max_zoom = self.read_zoom_level();
        if min_zoom.is_none() && max_zoom.is_none() {
            Err(LexerErrorKind::ZoomRangeWithoutLevels)
        } else {
            Ok(Token::ZoomRange { min_zoom, max_zoom: if had_hyphen { max_zoom } else { min_zoom } })
        }
    }

    fn read_zoom_level(&mut self) -> (res: ZoomLevel)
        requires
            old(self).wf(),
        ensures
            final(self).wf(),
            final(self).text@ == old(self).text@,
            (res, final(self).index()) == read_zoom_level_spec(old(self).text@, old(self).index()),
            final(self).requests() == old(self).requests() + (final(self).index() - old(self).index()),
    {
        match self.read_digit(10) {
            Some(num1) => match self.read_digit(10) {
                Some(num2) => Some(10 * num1 + num2),
                None => Some(num1),
            },
            None => None,
        }
    }

    /// Consumes the next character if it is a digit in `radix` (10 or 16).
    fn read_digit(&mut self, radix: u32) -> (res: Option<u8>)
        requires
            old(self).wf(),
            radix == 10 || radix == 16,
        ensures
            final(self).wf(),
            final(self).text@ == old(self).text@,
            ({
                let i = old(self).idx as int;
                let t = old(self).text@;
                let is_match = i < t.len() && (if radix == 10 {
                    spec_is_digit(t[i])
                } else {
                    spec_hex_value(t[i]) is Some
                });
                if is_match {
                    &&& final(self).idx == i + 1
                    &&& final(self).calls@ == old(self).calls@ + 1
                    &&& res == (if radix == 10 {
                        Some(spec_decimal_value(t[i]) as u8)
                    } else {
                        spec_hex_value(t[i])
                    })
                    &&& res.unwrap() < radix
                } else {
                    &&& res is None
                    &&& final(self).idx == old(self).idx
                    &&& final(self).calls@ == old(self).calls@
                }
            }),
    {
        match self.peek_char() {
            Some(ch) => {
                let digit = if radix == 10 {
                    if is_digit(ch) {
                        Some(decimal_value(ch))
                    } else {
                        None
                    }
                } else {
                    hex_value(ch)
                };
                match digit {
                    Some(d) => {
                        self.advance();
                        Some(d)
                    },
                    None => None,
                }
            },
            None => None,
        }
    }

    fn next_significant_char(&mut self) -> (res: Option<Result<(usize, char), LexerError>>)
        requires
            old(self).wf(),
        ensures
            final(self).wf(),
            final(self).text@ == old(self).text@,
            match scan_significant(old(self).text@, old(self).index(), old(self).requests(), ScanMode::Normal) {
                Scan::End { idx, calls } => res is None && final(self).index() == idx && final(self).requests() == calls,
                Scan::UnterminatedComment { idx, calls } => {
                    &&& res == Some(Err::<(usize, char), LexerError>(LexerError {
                        kind: LexerErrorKind::UnterminatedBlockComment,
                        position: position_after(old(self).text@, calls).0,
                    }))
                    &&& final(self).index() == idx
                    &&& final(self).requests() == calls
                },
                Scan::Found { at, idx, calls } => {
                    &&& res == Some(Ok::<(usize, char), LexerError>((at as usize, old(self).text@[at as int])))
                    &&& final(self).index() == idx
                    &&& final(self).requests() == calls
                },
            },
    {
        let ghost target = scan_significant(self.text@, self.idx as nat, self.calls@, ScanMode::Normal);
        loop
            invariant
                self.wf(),
                self.text@ == old(self).text@,
                target == scan_significant(self.text@, self.idx as nat, self.calls@, ScanMode::Normal),
                target == scan_significant(old(self).text@, old(self).idx as nat, old(self).calls@, ScanMode::Normal),
            decreases self.text@.len() - self.idx,
        {
            let ghost i = self.idx as nat;
            let ghost c = self.calls@;
            assert(scan_significant(self.text@, i, c, ScanMode::Normal) == (if i >= self.text@.len() {
                Scan::End { idx: i, calls: c + 1 }
            } else if spec_is_whitespace(self.text@[i as int]) {
                scan_significant(self.text@, i + 1, c + 1, ScanMode::Normal)
            } else if self.text@[i as int] == '/' && i + 1 < self.text@.len() && self.text@[i + 1int] == '/' {
                scan_significant(self.text@, i + 2, c + 2, ScanMode::LineComment)
            } else if self.text@[i as int] == '/' && i + 1 < self.text@.len() && self.text@[i + 1int] == '*' {
                scan_significant(self.text@, i + 2, c + 2, ScanMode::BlockComment)
            } else {
                Scan::Found { at: i, idx: i + 1, calls: c + 1 }
            }));
            match self.next_char_with_pos() {
                None => return None,
                Some((idx, ch)) => {
                    if is_whitespace(ch) {
                        continue;
                    }
                    if ch == '/' {
                        match self.try_skip_comment() {
                            Err(err) => return Some(Err(err)),
                            Ok(true) => continue,
                            Ok(false) => {},
                        }
                    }
                    return Some(Ok((idx, ch)));
                },
            }
        }
    }

    fn next_char_with_pos(&mut self) -> (res: Option<(usize, char)>)
        requires
            old(self).wf(),
        ensures
            final(self).wf(),
            final(self).text@ == old(self).text@,
            final(self).calls@ == old(self).calls@ + 1,
            old(self).idx < old(self).text@.len() ==> {
                &&& res == Some((old(self).idx, old(self).text@[old(self).idx as int]))
                &&& final(self).idx == old(self).idx + 1
            },
            old(self).idx >= old(self).text@.len() ==> res is None && final(self).idx == old(self).idx,
    {
        let res = if self.idx < self.text.len() {
            let r = (self.idx, self.text[self.idx]);
            self.idx = self.idx + 1;
            Some(r)
        } else {
            None
        };
        if self.had_newline {
            self.current_position.line = self.current_position.line.saturating_add(1);
            self.current_position.character = 0;
            self.had_newline = false;
        }
        self.current_position.character = self.current_position.character.saturating_add(1);
        self.had_newline = match res {
            Some((_, c)) => c == '\n',
            None => false,
        };
        self.calls = Ghost(self.calls@ + 1);
        res
    }

    fn next_char(&mut self) -> (res: Option<char>)
        requires
            old(self).wf(),
        ensures
            final(self).wf(),
            final(self).text@ == old(self).text@,
            final(self).calls@ == old(self).calls@ + 1,
            old(self).idx < old(self).text@.len() ==> {
                &&& res == Some(old(self).text@[old(self).idx as int])
                &&& final(self).idx == old(self).idx + 1
            },
            old(self).idx >= old(self).text@.len() ==> res is None && final(self).idx == old(self).idx,
    {
        match self.next_char_with_pos() {
            Some((_, c)) => Some(c),
            None => None,
        }
    }

    fn advance(&mut self)
        requires
            old(self).wf(),
        ensures
            final(self).wf(),
            final(self).text@ == old(self).text@,
            final(self).calls@ == old(self).calls@ + 1,
            old(self).idx < old(self).text@.len() ==> final(self).idx == old(self).idx + 1,
            old(self).idx >= old(self).text@.len() ==> final(self).idx == old(self).idx,
    {
        self.next_char();
    }

    fn peek_char(&self) -> (res: Option<char>)
        requires
            self.wf(),
        ensures
            res == char_request(self.text@, self.idx as nat),
    {
        if self.idx < self.text.len() {
            Some(self.text[self.idx])
        } else {
            None
        }
    }

    fn expect_char(&mut self, expected_ch: char) -> (res: bool)
        requires
            old(self).wf(),
        ensures
            final(self).wf(),
            final(self).text@ == old(self).text@,
            (res, final(self).index(), final(self).requests()) == expect_char_spec(
                old(self).text@,
                old(self).index(),
                old(self).requests(),
                expected_ch,
            ),
    {
        match self.next_char() {
            Some(actual_ch) => actual_ch == expected_ch,
            None => false,
        }
    }

    /// Called right after a `/` was consumed: skips the comment that it starts, if any.
    fn try_skip_comment(&mut self) -> (res: Result<bool, LexerError>)
        requires
            old(self).wf(),
        ensures
            final(self).wf(),
            res == Ok::<bool, LexerError>(true) ==> final(self).idx > old(self).idx,
            final(self).text@ == old(self).text@,
            ({
                let t = old(self).text@;
                let i = old(self).idx as nat;
                let c = old(self).calls@;
                if i < t.len() && t[i as int] == '/' {
                    &&& res == Ok::<bool, LexerError>(true)
                    &&& scan_significant(t, i + 1, c + 1, ScanMode::LineComment) == scan_significant(
                        t,
                        final(self).index(),
                        final(self).requests(),
                        ScanMode::Normal,
                    )
                } else if i < t.len() && t[i as int] == '*' {
                    match res {
                        Ok(b) => b && scan_significant(t, i + 1, c + 1, ScanMode::BlockComment) == scan_significant(
                            t,
                            final(self).index(),
                            final(self).requests(),
                            ScanMode::Normal,
                        ),
                        Err(e) => {
                            &&& scan_significant(t, i + 1, c + 1, ScanMode::BlockComment) == Scan::UnterminatedComment {
                                idx: final(self).index(),
                                calls: final(self).requests(),
                            }
                            &&& e == LexerError {
                                kind: LexerErrorKind::UnterminatedBlockComment,
                                position: position_after(t, final(self).requests()).0,
                            }
                        },
                    }
                } else {
                    &&& res == Ok::<bool, LexerError>(false)
                    &&& final(self).idx == old(self).idx
                    &&& final(self).calls@ == old(self).calls@
                }
            }),
    {
        match self.peek_char() {
            Some(c) => {
                if c == '/' {
                    self.advance();
                    self.skip_line_comment();
                    Ok(true)
                } else if c == '*' {
                    self.advance();
                    match self.skip_block_comment() {
                        Ok(()) => Ok(true),
                        Err(e) => Err(e),
                    }
                } else {
                    Ok(false)
                }
            },
            None => Ok(false),
        }
    }

    fn skip_line_comment(&mut self)
        requires
            old(self).wf(),
        ensures
            final(self).wf(),
            final(self).idx >= old(self).idx,
            final(self).text@ == old(self).text@,
            scan_significant(old(self).text@, old(self).index(), old(self).requests(), ScanMode::LineComment)
                == scan_significant(final(self).text@, final(self).index(), final(self).requests(), ScanMode::Normal),
    {
        let ghost target = scan_significant(self.text@, self.idx as nat, self.calls@, ScanMode::LineComment);
        loop
            invariant
                self.wf(),
                self.text@ == old(self).text@,
                target == scan_significant(self.text@, self.idx as nat, self.calls@, ScanMode::LineComment),
                target == scan_significant(old(self).text@, old(self).idx as nat, old(self).calls@, ScanMode::LineComment),
                self.idx >= old(self).idx,
            decreases self.text@.len() - self.idx,
        {
            let ghost i = self.idx as nat;
            let ghost c = self.calls@;
            let next = self.next_char();
            assert(scan_significant(self.text@, i, c, ScanMode::LineComment) == (if i >= self.text@.len() {
                scan_significant(self.text@, i, c + 1, ScanMode::Normal)
            } else if self.text@[i as int] == '\n' {
                scan_significant(self.text@, i + 1, c + 1, ScanMode::Normal)
            } else {
                scan_significant(self.text@, i + 1, c + 1, ScanMode::LineComment)
            }));
            match next {
                Some(ch) => {
                    if ch == '\n' {
                        return;
                    }
                },
                None => return,
            }
        }
    }

    fn skip_block_comment(&mut self) -> (res: Result<(), LexerError>)
        requires
            old(self).wf(),
        ensures
            final(self).wf(),
            final(self).idx >= old(self).idx,
            final(self).text@ == old(self).text@,
            match res {
                Ok(()) => scan_significant(old(self).text@, old(self).index(), old(self).requests(), ScanMode::BlockComment)
                    == scan_significant(final(self).text@, final(self).index(), final(self).requests(), ScanMode::Normal),
                Err(e) => {
                    &&& scan_significant(old(self).text@, old(self).index(), old(self).requests(), ScanMode::BlockComment)
                        == Scan::UnterminatedComment { idx: final(self).index(), calls: final(self).requests() }
                    &&& e == LexerError {
                        kind: LexerErrorKind::UnterminatedBlockComment,
                        position: position_after(final(self).text@, final(self).requests()).0,
                    }
                },
            },
    {
        let ghost target = scan_significant(self.text@, self.idx as nat, self.calls@, ScanMode::BlockComment);
        loop
            invariant
                self.wf(),
                self.text@ == old(self).text@,
                target == scan_significant(self.text@, self.idx as nat, self.calls@, ScanMode::BlockComment),
                target == scan_significant(old(self).text@, old(self).idx as nat, old(self).calls@, ScanMode::BlockComment),
                self.idx >= old(self).idx,
            decreases self.text@.len() - self.idx,
        {
            let ghost i = self.idx as nat;
            let ghost c = self.calls@;
            assert(scan_significant(self.text@, i, c, ScanMode::BlockComment) == (if i >= self.text@.len() {
                Scan::UnterminatedComment { idx: i, calls: c + 1 }
            } else if self.text@[i as int] == '*' && i + 1 < self.text@.len() && self.text@[i + 1int] == '/' {
                scan_significant(self.text@, i + 2, c + 2, ScanMode::Normal)
            } else {
                scan_significant(self.text@, i + 1, c + 1, ScanMode::BlockComment)
            }));
            match self.next_char() {
                Some(ch) => {
                    if ch == '*' {
                        if let Some('/') = self.peek_char() {
                            self.advance();
                            return Ok(());
                        }
                    }
                },
                None => return Err(self.lexer_error(LexerErrorKind::UnterminatedBlockComment)),
            }
        }
    }

    fn lexer_error(&self, kind: LexerErrorKind) -> (res: LexerError)
        requires
            self.wf(),
        ensures
            res == (LexerError { kind, position: position_after(self.text@, self.calls@).0 }),
    {
        LexerError { kind, position: self.current_position }
    }
}

fn get_two_char_simple_token(fst: char, snd: char) -> (res: Option<Token>)
    ensures
        match res {
            Some(t) => spec_two_char_token(fst, snd) == Some(t@),
            None => spec_two_char_token(fst, snd) is None,
        },
{
    if fst == '!' && snd == '=' {
        Some(Token::NotEqual)
    } else if fst == '<' && snd == '=' {
        Some(Token::LessOrEqual)
    } else if fst == '>' && snd == '=' {
        Some(Token::GreaterOrEqual)
    } else if fst == '=' && snd == '~' {
        Some(Token::RegexMatch)
    } else if fst == ':' && snd == ':' {
        Some(Token::DoubleColon)
    } else {
        None
    }
}

fn get_one_char_simple_token(ch: char) -> (res: Option<Token>)
    ensures
        match res {
            Some(t) => spec_one_char_token(ch) == Some(t@),
            None => spec_one_char_token(ch) is None,
        },
{
    if ch == '(' {
        Some(Token::LeftParen)
    } else if ch == ')' {
        Some(Token::RightParen)
    } else if ch == '[' {
        Some(Token::LeftBracket)
    } else if ch == ']' {
        Some(Token::RightBracket)
    } else if ch == '{' {
        Some(Token::LeftBrace)
    } else if ch == '}' {
        Some(Token::RightBrace)
    } else if ch == '=' {
        Some(Token::Equal)
    } else if ch == '<' {
        Some(Token::Less)
    } else if ch == '>' {
        Some(Token::Greater)
    } else if ch == '!' {
        Some(Token::Bang)
    } else if ch == '?' {
        Some(Token::QuestionMark)
    } else if ch == ':' {
        Some(Token::Colon)
    } else if ch == ';' {
        Some(Token::SemiColon)
    } else if ch == ',' {
        Some(Token::Comma)
    } else {
        None
    }
}

fn is_whitespace(ch: char) -> (res: bool)
    ensures
        res == spec_is_whitespace(ch),
{
    ch == '\t' || ch == '\n' || ch == '\u{0B}' || ch == '\u{0C}' || ch == '\r' || ch == ' ' || ch == '\u{85}'
        || ch == '\u{A0}' || ch == '\u{1680}' || ('\u{2000}' <= ch && ch <= '\u{200A}') || ch == '\u{2028}'
        || ch == '\u{2029}' || ch == '\u{202F}' || ch == '\u{205F}' || ch == '\u{3000}'
}

fn can_be_in_at_directive(ch: char) -> (res: bool)
    ensures
        res == spec_can_be_in_at_directive(ch),
{
    ch == '_' || ('a' <= ch && ch <= 'z') || ('0' <= ch && ch <= '9')
}

fn can_start_identifier(ch: char) -> (res: bool)
    ensures
        res == spec_can_start_identifier(ch),
{
    ch == '_' || ('a' <= ch && ch <= 'z') || ('A' <= ch && ch <= 'Z')
}

fn can_continue_identifier(ch: char) -> (res: bool)
    ensures
        res == spec_can_continue_identifier(ch),
{
    ch == '-' || ('0' <= ch && ch <= '9') || ch == '.' || ch == '/' || can_start_identifier(ch)
}

fn is_digit(ch: char) -> (res: bool)
    ensures
        res == spec_is_digit(ch),
{
    '0' <= ch && ch <= '9'
}

fn decimal_value(ch: char) -> (res: u8)
    requires
        spec_is_digit(ch),
    ensures
        res == spec_decimal_value(ch),
        res < 10,
{
    ((ch as u32) - ('0' as u32)) as u8
}

fn hex_value(ch: char) -> (res: Option<u8>)
    ensures
        res == spec_hex_value(ch),
        res matches Some(d) ==> d < 16,
{
    if '0' <= ch && ch <= '9' {
        Some(((ch as u32) - ('0' as u32)) as u8)
    } else if 'a' <= ch && ch <= 'f' {
        Some(((ch as u32) - ('a' as u32) + 10) as u8)
    } else if 'A' <= ch && ch <= 'F' {
        Some(((ch as u32) - ('A' as u32) + 10) as u8)
    } else {
        None
    }
}

} // verus!
