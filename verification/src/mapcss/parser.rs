use crate::mapcss::color::Color;
use crate::mapcss::number::{number_to_string, Number};
use crate::mapcss::parser_spec::{
    binary_numeric_test_type_of, binary_string_test_type_of, color_def_spec, eval_prefix, eval_tokens_spec,
    eval_width_delta, expect_token_spec, identifier_spec, lemma_color_def_bounds, lemma_eval_tokens_bounds,
    lemma_expect_bounds, lemma_identifier_bounds, lemma_mandatory_bounds, lemma_number_list_bounds,
    lemma_properties_bounds, lemma_property_value_bounds, lemma_read_selector_bounds, lemma_read_test_bounds,
    lemma_rule_loop_bounds, lemma_selector_loop_bounds, rule_body_spec, lemma_skip_section_bounds, mandatory_token_spec,
    number_list_spec, object_type_of, optional_token_spec, parse_spec, properties_spec, read_property_value_spec, read_selector_spec,
    read_simple_eval_spec, read_test_spec, rule_loop_spec, selector_loop_spec, skip_section_spec,
    test_after_name_spec, test_name_spec, then_semicolon, unary_test_spec, unexpected, zero,
};
use crate::mapcss::token::{InputPosition, LexerError, Token, TokenView, TokenWithPosition, TokenWithPositionView, Tokenizer};
use crate::mapcss::token_spec::{lemma_next_token_bounds, next_token_spec, position_after};
use crate::util::{push_str, str_eq, string_push};
use vstd::prelude::*;

verus! {

#[derive(Clone, Copy, Debug, PartialEq, Eq, Structural)]
pub enum ObjectType {
    All,
    Canvas,
    Meta,
    Node,
    Way,
    Area,
}

#[derive(Clone, Copy, Debug, PartialEq, Eq, Structural)]
pub enum UnaryTestType {
    Exists,
    NotExists,
    True,
    False,
}

#[derive(Clone, Copy, Debug, PartialEq, Eq, Structural)]
pub enum BinaryStringTestType {
    Equal,
    NotEqual,
}

#[derive(Clone, Copy, Debug, PartialEq, Eq, Structural)]
pub enum BinaryNumericTestType {
    Less,
    LessOrEqual,
    Greater,
    GreaterOrEqual,
}

#[derive(Debug)]
pub enum Test {
    Unary { tag_name: String, test_type: UnaryTestType },
    BinaryStringCompare { tag_name: String, value: String, test_type: BinaryStringTestType },
    BinaryNumericCompare { tag_name: String, value: Number, test_type: BinaryNumericTestType },
}

pub enum TestView {
    Unary { tag_name: Seq<char>, test_type: UnaryTestType },
    BinaryStringCompare { tag_name: Seq<char>, value: Seq<char>, test_type: BinaryStringTestType },
    BinaryNumericCompare { tag_name: Seq<char>, value: Number, test_type: BinaryNumericTestType },
}

impl View for Test {
    type V = TestView;

    open spec fn view(&self) -> TestView {
        match self {
            Test::Unary { tag_name, test_type } => TestView::Unary { tag_name: tag_name@, test_type: *test_type },
            Test::BinaryStringCompare { tag_name, value, test_type } => TestView::BinaryStringCompare {
                tag_name: tag_name@,
                value: value@,
                test_type: *test_type,
            },
            Test::BinaryNumericCompare { tag_name, value, test_type } => TestView::BinaryNumericCompare {
                tag_name: tag_name@,
                value: *value,
                test_type: *test_type,
            },
        }
    }
}

#[derive(Debug)]
pub enum PropertyValue {
    Identifier(String),
    String(String),
    Color(Color),
    Numbers(Vec<Number>),
    WidthDelta(Number),
}

pub enum PropertyValueView {
    Identifier(Seq<char>),
    Str(Seq<char>),
    Color(Color),
    Numbers(Seq<Number>),
    WidthDelta(Number),
}

impl View for PropertyValue {
    type V = PropertyValueView;

    open spec fn view(&self) -> PropertyValueView {
        match self {
            PropertyValue::Identifier(s) => PropertyValueView::Identifier(s@),
            PropertyValue::String(s) => PropertyValueView::Str(s@),
            PropertyValue::Color(c) => PropertyValueView::Color(*c),
            PropertyValue::Numbers(v) => PropertyValueView::Numbers(v@),
            PropertyValue::WidthDelta(n) => PropertyValueView::WidthDelta(*n),
        }
    }
}

#[derive(Debug)]
pub struct Property {
    pub name: String,
    pub value: PropertyValue,
}

pub struct PropertyView {
    pub name: Seq<char>,
    pub value: PropertyValueView,
}

impl View for Property {
    type V = PropertyView;

    open spec fn view(&self) -> PropertyView {
        PropertyView { name: self.name@, value: self.value@ }
    }
}

#[derive(Debug)]
pub struct Selector {
    pub object_type: ObjectType,
    pub min_zoom: Option<u8>,
    pub max_zoom: Option<u8>,
    pub tests: Vec<Test>,
    pub layer_id: Option<String>,
}

pub struct SelectorView {
    pub object_type: ObjectType,
    pub min_zoom: Option<u8>,
    pub max_zoom: Option<u8>,
    pub tests: Seq<TestView>,
    pub layer_id: Option<Seq<char>>,
}

pub open spec fn tests_view(v: Seq<Test>) -> Seq<TestView> {
    v.map_values(|t: Test| t@)
}

pub open spec fn opt_string_view(s: Option<String>) -> Option<Seq<char>> {
    match s {
        Some(s) => Some(s@),
        None => None,
    }
}

impl View for Selector {
    type V = SelectorView;

    open spec fn view(&self) -> SelectorView {
        SelectorView {
            object_type: self.object_type,
            min_zoom: self.min_zoom,
            max_zoom: self.max_zoom,
            tests: tests_view(self.tests@),
            layer_id: opt_string_view(self.layer_id),
        }
    }
}

#[derive(Debug)]
pub struct Rule {
    pub selectors: Vec<Selector>,
    pub properties: Vec<Property>,
}

pub struct RuleView {
    pub selectors: Seq<SelectorView>,
    pub properties: Seq<PropertyView>,
}

pub open spec fn selectors_view(v: Seq<Selector>) -> Seq<SelectorView> {
    v.map_values(|s: Selector| s@)
}

pub open spec fn properties_view(v: Seq<Property>) -> Seq<PropertyView> {
    v.map_values(|p: Property| p@)
}

pub open spec fn rules_view(v: Seq<Rule>) -> Seq<RuleView> {
    v.map_values(|r: Rule| r@)
}

impl View for Rule {
    type V = RuleView;

    open spec fn view(&self) -> RuleView {
        RuleView { selectors: selectors_view(self.selectors@), properties: properties_view(self.properties@) }
    }
}

/// What the parser reported besides a lexer error.
#[derive(Debug)]
pub enum ParseErrorKind {
    UnknownObjectType(String),
    UnexpectedToken(Token),
    UnexpectedEndOfFile,
    ExpectedToken { expected: Token, found: Token },
    UnknownColorReference(String),
    UnknownEvalForm,
}

pub enum ParseErrorKindView {
    UnknownObjectType(Seq<char>),
    UnexpectedToken(TokenView),
    UnexpectedEndOfFile,
    ExpectedToken { expected: TokenView, found: TokenView },
    UnknownColorReference(Seq<char>),
    UnknownEvalForm,
}

impl View for ParseErrorKind {
    type V = ParseErrorKindView;

    open spec fn view(&self) -> ParseErrorKindView {
        match self {
            ParseErrorKind::UnknownObjectType(s) => ParseErrorKindView::UnknownObjectType(s@),
            ParseErrorKind::UnexpectedToken(t) => ParseErrorKindView::UnexpectedToken(t@),
            ParseErrorKind::UnexpectedEndOfFile => ParseErrorKindView::UnexpectedEndOfFile,
            ParseErrorKind::ExpectedToken { expected, found } => ParseErrorKindView::ExpectedToken {
                expected: expected@,
                found: found@,
            },
            ParseErrorKind::UnknownColorReference(s) => ParseErrorKindView::UnknownColorReference(s@),
            ParseErrorKind::UnknownEvalForm => ParseErrorKindView::UnknownEvalForm,
        }
    }
}

/// An error in a stylesheet, with the name of the file that holds it.
#[derive(Debug)]
pub enum MapcssError {
    LexerError { error: LexerError, file_name: String },
    ParseError { kind: ParseErrorKind, position: InputPosition, file_name: String },
}

pub enum ParseFailure {
    Lexer(LexerError, Seq<char>),
    Parse(ParseErrorKindView, InputPosition, Seq<char>),
}

impl View for MapcssError {
    type V = ParseFailure;

    open spec fn view(&self) -> ParseFailure {
        match self {
            MapcssError::LexerError { error, file_name } => ParseFailure::Lexer(*error, file_name@),
            MapcssError::ParseError { kind, position, file_name } => ParseFailure::Parse(kind@, *position, file_name@),
        }
    }
}

/// Where a call of `Parser::parse` stopped.
pub enum ParseStep {
    Done,
    Import(String),
}

pub enum ParseStepView {
    Done,
    Import(Seq<char>),
}

impl View for ParseStep {
    type V = ParseStepView;

    open spec fn view(&self) -> ParseStepView {
        match self {
            ParseStep::Done => ParseStepView::Done,
            ParseStep::Import(s) => ParseStepView::Import(s@),
        }
    }
}

/// The color definitions of a stylesheet, in the order in which they were read;
/// a later definition of a name replaces an earlier one.
pub struct ColorDefs {
    entries: Vec<(String, Color)>,
}

pub open spec fn entries_map(s: Seq<(String, Color)>) -> Map<Seq<char>, Color>
    decreases s.len(),
{
    if s.len() == 0 {
        Map::empty()
    } else {
        entries_map(s.drop_last()).insert(s.last().0@, s.last().1)
    }
}

proof fn lemma_entries_map_lookup(s: Seq<(String, Color)>, i: int, k: Seq<char>)
    requires
        0 <= i <= s.len(),
        forall|j: int| i <= j < s.len() ==> s[j].0@ != k,
    ensures
        entries_map(s).contains_key(k) == entries_map(s.take(i)).contains_key(k),
        entries_map(s).contains_key(k) ==> entries_map(s)[k] == entries_map(s.take(i))[k],
    decreases s.len() - i,
{
    if i < s.len() {
        lemma_entries_map_lookup(s.drop_last(), i, k);
        assert(s.drop_last().take(i) == s.take(i));
    } else {
        assert(s.take(i) == s);
    }
}

proof fn lemma_entries_map_concat(a: Seq<(String, Color)>, b: Seq<(String, Color)>)
    ensures
        entries_map(a + b) == entries_map(a).union_prefer_right(entries_map(b)),
    decreases b.len(),
{
    if b.len() == 0 {
        assert(a + b == a);
        assert(entries_map(a).union_prefer_right(Map::empty()) =~= entries_map(a));
    } else {
        lemma_entries_map_concat(a, b.drop_last());
        assert((a + b).drop_last() == a + b.drop_last());
        assert(entries_map(a + b) =~= entries_map(a).union_prefer_right(entries_map(b)));
    }
}

impl View for ColorDefs {
    type V = Map<Seq<char>, Color>;

    closed spec fn view(&self) -> Map<Seq<char>, Color> {
        entries_map(self.entries@)
    }
}

impl ColorDefs {
    pub fn new() -> (res: ColorDefs)
        ensures
            res@ == Map::<Seq<char>, Color>::empty(),
    {
        ColorDefs { entries: Vec::new() }
    }

    /// The color defined under `name`.
    pub fn get(&self, name: &str) -> (res: Option<Color>)
        ensures
            res == (if self@.contains_key(name@) {
                Some(self@[name@])
            } else {
                None
            }),
    {
        let mut i = self.entries.len();
        while i > 0
            invariant
                i <= self.entries@.len(),
                forall|j: int| i <= j < self.entries@.len() ==> self.entries@[j].0@ != name@,
            decreases i,
        {
            if str_eq(self.entries[i - 1].0.as_str(), name) {
                proof {
                    lemma_entries_map_lookup(self.entries@, i as int, name@);
                    assert(self.entries@.take(i as int).drop_last() == self.entries@.take(i - 1));
                }
                return Some(self.entries[i - 1].1);
            }
            i = i - 1;
        }
        proof {
            lemma_entries_map_lookup(self.entries@, 0, name@);
        }
        None
    }

    /// Defines (or redefines) the color `name`.
    pub fn insert(&mut self, name: String, color: Color)
        ensures
            final(self)@ == old(self)@.insert(name@, color),
    {
        self.entries.push((name, color));
        assert(self.entries@.drop_last() == old(self).entries@);
    }

    /// Adds all definitions of `other`, which replace those of the same names.
    pub fn extend(&mut self, other: &ColorDefs)
        ensures
            final(self)@ == old(self)@.union_prefer_right(other@),
    {
        let mut i: usize = 0;
        while i < other.entries.len()
            invariant
                i <= other.entries@.len(),
                self.entries@ == old(self).entries@ + other.entries@.take(i as int),
            decreases other.entries@.len() - i,
        {
            let name = other.entries[i].0.clone();
            let color = other.entries[i].1;
            self.entries.push((name, color));
            i = i + 1;
            assert(other.entries@.take(i as int) == other.entries@.take(i - 1).push(other.entries@[i - 1]));
            assert(self.entries@ =~= old(self).entries@ + other.entries@.take(i as int));
        }
        assert(other.entries@.take(other.entries@.len() as int) == other.entries@);
        proof {
            lemma_entries_map_concat(old(self).entries@, other.entries@);
        }
    }

    pub fn clone_defs(&self) -> (res: ColorDefs)
        ensures
            res@ == self@,
    {
        let mut res = ColorDefs::new();
        res.extend(self);
        assert(Map::<Seq<char>, Color>::empty().union_prefer_right(self@) =~= self@);
        res
    }
}

} // verus!

verus! {

/// The view of a parsing result whose value is seen through `f`.
pub open spec fn map_result<T, V>(r: Result<T, MapcssError>, f: spec_fn(T) -> V) -> Result<V, ParseFailure> {
    match r {
        Ok(v) => Ok(f(v)),
        Err(e) => Err(e@),
    }
}

pub open spec fn opt_token_result_view(r: Option<Result<TokenWithPosition, MapcssError>>) -> Option<
    Result<TokenWithPositionView, ParseFailure>,
> {
    match r {
        None => None,
        Some(Ok(t)) => Some(Ok(t@)),
        Some(Err(e)) => Some(Err(e@)),
    }
}

pub open spec fn tokens_view(v: Seq<Token>) -> Seq<TokenView> {
    v.map_values(|t: Token| t@)
}

/// The object type named by a selector's first identifier.
fn id_to_object_type(id: &str) -> (res: Option<ObjectType>)
    ensures
        res == object_type_of(id@),
{
    if str_eq(id, "*") {
        Some(ObjectType::All)
    } else if str_eq(id, "canvas") {
        Some(ObjectType::Canvas)
    } else if str_eq(id, "meta") {
        Some(ObjectType::Meta)
    } else if str_eq(id, "node") {
        Some(ObjectType::Node)
    } else if str_eq(id, "way") || str_eq(id, "line") {
        Some(ObjectType::Way)
    } else if str_eq(id, "area") {
        Some(ObjectType::Area)
    } else {
        None
    }
}

fn to_binary_string_test_type(token: &Token) -> (res: Option<BinaryStringTestType>)
    ensures
        res == binary_string_test_type_of(token@),
{
    match token {
        Token::Equal => Some(BinaryStringTestType::Equal),
        Token::NotEqual => Some(BinaryStringTestType::NotEqual),
        _ => None,
    }
}

fn to_binary_numeric_test_type(token: &Token) -> (res: Option<BinaryNumericTestType>)
    ensures
        res == binary_numeric_test_type_of(token@),
{
    match token {
        Token::Less => Some(BinaryNumericTestType::Less),
        Token::LessOrEqual => Some(BinaryNumericTestType::LessOrEqual),
        Token::Greater => Some(BinaryNumericTestType::Greater),
        Token::GreaterOrEqual => Some(BinaryNumericTestType::GreaterOrEqual),
        _ => None,
    }
}

/// Whether the first five tokens spell `(prop("width")`.
fn starts_with_eval_prefix(tokens: &Vec<Token>) -> (res: bool)
    requires
        tokens@.len() >= 5,
    ensures
        res == (tokens_view(tokens@).take(5) == eval_prefix()),
{
    let prop = match &tokens[1] {
        Token::Identifier(s) => str_eq(s.as_str(), "prop"),
        _ => false,
    };
    let width = match &tokens[3] {
        Token::String(s) => str_eq(s.as_str(), "width"),
        _ => false,
    };
    let res = tokens[0].same_as(&Token::LeftParen) && prop && tokens[2].same_as(&Token::LeftParen) && width
        && tokens[4].same_as(&Token::RightParen);
    proof {
        let v = tokens_view(tokens@).take(5);
        if res {
            assert(v =~= eval_prefix());
        } else if v == eval_prefix() {
            assert(v[0] == eval_prefix()[0]);
            assert(v[1] == eval_prefix()[1]);
            assert(v[2] == eval_prefix()[2]);
            assert(v[3] == eval_prefix()[3]);
            assert(v[4] == eval_prefix()[4]);
        }
    }
    res
}

/// The width increment of the only supported `eval` form, from the tokens after `eval`.
fn eval_width_increment(tokens: &Vec<Token>) -> (res: Option<Number>)
    ensures
        res == eval_width_delta(tokens_view(tokens@)),
{
    let n = tokens.len();
    if n < 5 || !starts_with_eval_prefix(tokens) {
        return None;
    }
    proof {
        let suffix = tokens_view(tokens@).skip(5);
        assert(suffix.len() == n - 5);
        if n > 5 {
            assert(suffix.last() == tokens@[n - 1]@);
        }
        if n == 7 {
            assert(suffix[0] == tokens@[5]@);
        }
    }
    if n == 5 || !tokens[n - 1].same_as(&Token::RightParen) {
        None
    } else if n == 6 {
        Some(Number { negative: false, mantissa: 0, scale: 0, exponent: 0 })
    } else if n == 7 {
        match &tokens[5] {
            Token::Number(num) => Some(*num),
            _ => None,
        }
    } else {
        None
    }
}

/// The tokenizer of one stylesheet together with the file's name, for error reports.
struct TokenStream {
    tokenizer: Tokenizer,
    file_name: String,
}

impl TokenStream {
    spec fn text(&self) -> Seq<char> {
        self.tokenizer.text()
    }

    spec fn idx(&self) -> nat {
        self.tokenizer.index()
    }

    spec fn calls(&self) -> nat {
        self.tokenizer.requests()
    }

    spec fn file(&self) -> Seq<char> {
        self.file_name@
    }

    spec fn wf(&self) -> bool {
        self.tokenizer.wf()
    }

    /// `next` reads on in the same text of the same file.
    spec fn continued_by(&self, next: &TokenStream) -> bool {
        &&& next.wf()
        &&& next.text() == self.text()
        &&& next.file() == self.file()
    }

    proof fn lemma_bounds(&self)
        requires
            self.wf(),
        ensures
            self.idx() <= self.text().len(),
    {
        self.tokenizer.lemma_wf_bounds();
    }

    fn parse_error(&self, kind: ParseErrorKind, position: InputPosition) -> (res: MapcssError)
        ensures
            res@ == ParseFailure::Parse(kind@, position, self.file()),
    {
        MapcssError::ParseError { kind, position, file_name: self.file_name.clone() }
    }

    fn unexpected_token(&self, token: TokenWithPosition) -> (res: MapcssError)
        ensures
            res@ == unexpected(token@, self.file()),
    {
        self.parse_error(ParseErrorKind::UnexpectedToken(token.token), token.position)
    }

    fn read_optional_token(&mut self) -> (res: Option<Result<TokenWithPosition, MapcssError>>)
        requires
            old(self).wf(),
        ensures
            old(self).continued_by(final(self)),
            (opt_token_result_view(res), final(self).idx(), final(self).calls()) == optional_token_spec(
                old(self).text(),
                old(self).file(),
                old(self).idx(),
                old(self).calls(),
            ),
    {
        match self.tokenizer.next() {
            None => None,
            Some(Err(e)) => Some(Err(MapcssError::LexerError { error: e, file_name: self.file_name.clone() })),
            Some(Ok(t)) => Some(Ok(t)),
        }
    }

    fn read_mandatory_token(&mut self) -> (res: Result<TokenWithPosition, MapcssError>)
        requires
            old(self).wf(),
        ensures
            old(self).continued_by(final(self)),
            (map_result(res, |t: TokenWithPosition| t@), final(self).idx(), final(self).calls())
                == mandatory_token_spec(old(self).text(), old(self).file(), old(self).idx(), old(self).calls()),
    {
        match self.read_optional_token() {
            Some(token) => token,
            None => {
                let position = self.tokenizer.position();
                Err(self.parse_error(ParseErrorKind::UnexpectedEndOfFile, position))
            },
        }
    }

    fn expect_simple_token(&mut self, expected: Token) -> (res: Result<(), MapcssError>)
        requires
            old(self).wf(),
        ensures
            old(self).continued_by(final(self)),
            (map_result(res, |u: ()| u), final(self).idx(), final(self).calls()) == expect_token_spec(
                old(self).text(),
                old(self).file(),
                old(self).idx(),
                old(self).calls(),
                expected@,
            ),
    {
        let token = match self.read_mandatory_token() {
            Ok(t) => t,
            Err(e) => return Err(e),
        };
        if token.token.same_as(&expected) {
            Ok(())
        } else {
            Err(self.parse_error(ParseErrorKind::ExpectedToken { expected, found: token.token }, token.position))
        }
    }

    fn read_identifier(&mut self) -> (res: Result<String, MapcssError>)
        requires
            old(self).wf(),
        ensures
            old(self).continued_by(final(self)),
            (map_result(res, |s: String| s@), final(self).idx(), final(self).calls()) == identifier_spec(
                old(self).text(),
                old(self).file(),
                old(self).idx(),
                old(self).calls(),
            ),
    {
        let token = match self.read_mandatory_token() {
            Ok(t) => t,
            Err(e) => return Err(e),
        };
        match token.token {
            Token::Identifier(id) => Ok(id),
            _ => Err(self.unexpected_token(token)),
        }
    }
}

} // verus!

verus! {

impl TokenStream {
    /// Reads the tag name of a test, whose first token `first` was read, and the token after it.
    fn read_test_name(&mut self, first: TokenWithPosition) -> (res: Result<
        (String, bool, TokenWithPosition),
        MapcssError,
    >)
        requires
            old(self).wf(),
        ensures
            old(self).continued_by(final(self)),
            (
                map_result(res, |r: (String, bool, TokenWithPosition)| (r.0@, r.1, r.2@)),
                final(self).idx(),
                final(self).calls(),
            ) == test_name_spec(old(self).text(), old(self).file(), old(self).idx(), old(self).calls(), first@),
    {
        let mut starts_with_bang = false;
        let mut lhs = match first.token {
            Token::Identifier(id) => id,
            Token::String(s) => s,
            Token::Bang => {
                starts_with_bang = true;
                match self.read_identifier() {
                    Ok(id) => id,
                    Err(e) => return Err(e),
                }
            },
            _ => return Err(self.unexpected_token(first)),
        };
        let current = match self.read_mandatory_token() {
            Ok(t) => t,
            Err(e) => return Err(e),
        };
        match current.token {
            Token::Colon => {
                let suffix = match self.read_identifier() {
                    Ok(id) => id,
                    Err(e) => return Err(e),
                };
                string_push(&mut lhs, ':');
                push_str(&mut lhs, suffix.as_str());
                match self.read_mandatory_token() {
                    Ok(next) => Ok((lhs, starts_with_bang, next)),
                    Err(e) => Err(e),
                }
            },
            _ => Ok((lhs, starts_with_bang, current)),
        }
    }

    /// Reads the rest of a unary test once its tag name and the token `t` after it were read.
    fn read_unary_test(&mut self, lhs: String, starts_with_bang: bool, t: TokenWithPosition) -> (res: Result<
        Test,
        MapcssError,
    >)
        requires
            old(self).wf(),
        ensures
            old(self).continued_by(final(self)),
            (map_result(res, |x: Test| x@), final(self).idx(), final(self).calls()) == unary_test_spec(
                old(self).text(),
                old(self).file(),
                old(self).idx(),
                old(self).calls(),
                lhs@,
                starts_with_bang,
                t@,
            ),
    {
        match t.token {
            Token::RightBracket => Ok(
                Test::Unary {
                    tag_name: lhs,
                    test_type: if starts_with_bang {
                        UnaryTestType::NotExists
                    } else {
                        UnaryTestType::Exists
                    },
                },
            ),
            Token::QuestionMark => {
                let current = match self.read_mandatory_token() {
                    Ok(c) => c,
                    Err(e) => return Err(e),
                };
                match current.token {
                    Token::RightBracket => Ok(
                        Test::Unary {
                            tag_name: lhs,
                            test_type: if starts_with_bang {
                                UnaryTestType::False
                            } else {
                                UnaryTestType::True
                            },
                        },
                    ),
                    Token::Bang => {
                        if !starts_with_bang {
                            match self.expect_simple_token(Token::RightBracket) {
                                Ok(()) => Ok(Test::Unary { tag_name: lhs, test_type: UnaryTestType::False }),
                                Err(e) => Err(e),
                            }
                        } else {
                            Err(self.unexpected_token(current))
                        }
                    },
                    _ => Err(self.unexpected_token(current)),
                }
            },
            _ => Err(self.unexpected_token(t)),
        }
    }

    /// Reads the rest of a test once its tag name and the token `t` after it were read.
    fn read_test_rest(&mut self, lhs: String, starts_with_bang: bool, t: TokenWithPosition) -> (res: Result<
        Test,
        MapcssError,
    >)
        requires
            old(self).wf(),
        ensures
            old(self).continued_by(final(self)),
            (map_result(res, |x: Test| x@), final(self).idx(), final(self).calls()) == test_after_name_spec(
                old(self).text(),
                old(self).file(),
                old(self).idx(),
                old(self).calls(),
                lhs@,
                starts_with_bang,
                t@,
            ),
    {
        if !starts_with_bang {
            if let Some(binary_op) = to_binary_string_test_type(&t.token) {
                let current = match self.read_mandatory_token() {
                    Ok(c) => c,
                    Err(e) => return Err(e),
                };
                let rhs = match current.token {
                    Token::Identifier(id) => id,
                    Token::Number(num) => number_to_string(num),
                    _ => return Err(self.unexpected_token(current)),
                };
                return match self.expect_simple_token(Token::RightBracket) {
                    Ok(()) => Ok(Test::BinaryStringCompare { tag_name: lhs, value: rhs, test_type: binary_op }),
                    Err(e) => Err(e),
                };
            }
            if let Some(binary_op) = to_binary_numeric_test_type(&t.token) {
                let current = match self.read_mandatory_token() {
                    Ok(c) => c,
                    Err(e) => return Err(e),
                };
                let rhs = match current.token {
                    Token::Number(num) => num,
                    _ => return Err(self.unexpected_token(current)),
                };
                return match self.expect_simple_token(Token::RightBracket) {
                    Ok(()) => Ok(Test::BinaryNumericCompare { tag_name: lhs, value: rhs, test_type: binary_op }),
                    Err(e) => Err(e),
                };
            }
        }
        self.read_unary_test(lhs, starts_with_bang, t)
    }

    /// Reads a test after `[`, up to and including `]`.
    fn read_test(&mut self) -> (res: Result<Test, MapcssError>)
        requires
            old(self).wf(),
        ensures
            old(self).continued_by(final(self)),
            (map_result(res, |x: Test| x@), final(self).idx(), final(self).calls()) == read_test_spec(
                old(self).text(),
                old(self).file(),
                old(self).idx(),
                old(self).calls(),
            ),
    {
        let first = match self.read_mandatory_token() {
            Ok(t) => t,
            Err(e) => return Err(e),
        };
        match self.read_test_name(first) {
            Ok((lhs, starts_with_bang, current)) => self.read_test_rest(lhs, starts_with_bang, current),
            Err(e) => Err(e),
        }
    }
}

} // verus!

verus! {

impl TokenStream {
    /// Reads a selector whose first token `first` was already read, up to `{` or `,`;
    /// the flag tells whether another selector follows.
    #[verifier::spinoff_prover]
    #[verifier::rlimit(40)]
    fn read_selector(&mut self, first: TokenWithPosition) -> (res: Result<(Selector, bool), MapcssError>)
        requires
            old(self).wf(),
        ensures
            old(self).continued_by(final(self)),
            (map_result(res, |r: (Selector, bool)| (r.0@, r.1)), final(self).idx(), final(self).calls())
                == read_selector_spec(old(self).text(), old(self).file(), old(self).idx(), old(self).calls(), first@),
    {
        let object_type = match &first.token {
            Token::Identifier(id) => match id_to_object_type(id.as_str()) {
                Some(object_type) => object_type,
                None => {
                    return Err(self.parse_error(ParseErrorKind::UnknownObjectType(id.clone()), first.position));
                },
            },
            _ => return Err(self.unexpected_token(first)),
        };
        let mut selector = Selector {
            object_type,
            min_zoom: None,
            max_zoom: None,
            tests: Vec::new(),
            layer_id: None,
        };
        let ghost text = self.text();
        let ghost file = self.file();
        let ghost target = read_selector_spec(text, file, self.idx(), self.calls(), first@);
        proof {
            self.lemma_bounds();
            assert(selector@.tests =~= Seq::<TestView>::empty());
        }
        loop
            invariant
                self.wf(),
                self.text() == text,
                self.file() == file,
                self.idx() <= text.len(),
                selector_loop_spec(text, file, self.idx(), self.calls(), selector@) == target,
                text == old(self).text(),
                file == old(self).file(),
                target == read_selector_spec(text, file, old(self).idx(), old(self).calls(), first@),
            decreases text.len() - self.idx(),
        {
            let ghost idx0 = self.idx();
            let ghost calls0 = self.calls();
            let ghost sel0 = selector@;
            let current = match self.read_mandatory_token() {
                Ok(t) => t,
                Err(e) => return Err(e),
            };
            proof {
                lemma_mandatory_bounds(text, file, idx0, calls0);
            }
            let ghost idx1 = self.idx();
            let ghost calls1 = self.calls();
            match current.token {
                Token::LeftBrace => return Ok((selector, false)),
                Token::Comma => return Ok((selector, true)),
                Token::ZoomRange { min_zoom, max_zoom } => {
                    selector.min_zoom = min_zoom;
                    selector.max_zoom = max_zoom;
                    assert(selector@ == SelectorView { min_zoom, max_zoom, ..sel0 });
                },
                Token::LeftBracket => {
                    let test = match self.read_test() {
                        Ok(t) => t,
                        Err(e) => return Err(e),
                    };
                    proof {
                        lemma_read_test_bounds(text, file, idx1, calls1);
                    }
                    selector.tests.push(test);
                    assert(selector@.tests =~= sel0.tests.push(test@));
                    assert(selector@ == SelectorView { tests: sel0.tests.push(test@), ..sel0 });
                },
                Token::Colon => {
                    match self.read_identifier() {
                        Ok(_) => {},
                        Err(e) => return Err(e),
                    }
                    proof {
                        lemma_identifier_bounds(text, file, idx1, calls1);
                    }
                },
                Token::DoubleColon => {
                    match self.read_identifier() {
                        Ok(id) => {
                            selector.layer_id = Some(id);
                        },
                        Err(e) => return Err(e),
                    }
                    proof {
                        lemma_identifier_bounds(text, file, idx1, calls1);
                    }
                },
                _ => return Err(self.unexpected_token(current)),
            }
        }
    }

    /// Reads numbers separated by commas up to `;`, after the first number.
    fn read_number_list(&mut self, first_num: Number) -> (res: Result<Vec<Number>, MapcssError>)
        requires
            old(self).wf(),
        ensures
            old(self).continued_by(final(self)),
            (map_result(res, |v: Vec<Number>| v@), final(self).idx(), final(self).calls()) == number_list_spec(
                old(self).text(),
                old(self).file(),
                old(self).idx(),
                old(self).calls(),
                seq![first_num],
                true,
            ),
    {
        let mut numbers: Vec<Number> = Vec::new();
        numbers.push(first_num);
        let mut consumed_number = true;
        let ghost text = self.text();
        let ghost file = self.file();
        let ghost target = number_list_spec(text, file, self.idx(), self.calls(), seq![first_num], true);
        proof {
            self.lemma_bounds();
            assert(numbers@ =~= seq![first_num]);
        }
        loop
            invariant
                self.wf(),
                self.text() == text,
                self.file() == file,
                self.idx() <= text.len(),
                number_list_spec(text, file, self.idx(), self.calls(), numbers@, consumed_number) == target,
                text == old(self).text(),
                file == old(self).file(),
                target == number_list_spec(text, file, old(self).idx(), old(self).calls(), seq![first_num], true),
            decreases text.len() - self.idx(),
        {
            let ghost idx0 = self.idx();
            let ghost calls0 = self.calls();
            let next_token = match self.read_mandatory_token() {
                Ok(t) => t,
                Err(e) => return Err(e),
            };
            proof {
                lemma_mandatory_bounds(text, file, idx0, calls0);
            }
            match next_token.token {
                Token::Comma => {
                    if consumed_number {
                        consumed_number = false;
                    } else {
                        return Err(self.unexpected_token(next_token));
                    }
                },
                Token::SemiColon => {
                    if consumed_number {
                        return Ok(numbers);
                    } else {
                        return Err(self.unexpected_token(next_token));
                    }
                },
                Token::Number(next_num) => {
                    if !consumed_number {
                        consumed_number = true;
                        numbers.push(next_num);
                    } else {
                        return Err(self.unexpected_token(next_token));
                    }
                },
                _ => return Err(self.unexpected_token(next_token)),
            }
        }
    }

    /// Reads the tokens of an `eval(...)` up to `;`.
    fn read_eval_tokens(&mut self) -> (res: Result<Vec<Token>, MapcssError>)
        requires
            old(self).wf(),
        ensures
            old(self).continued_by(final(self)),
            (map_result(res, |v: Vec<Token>| tokens_view(v@)), final(self).idx(), final(self).calls())
                == eval_tokens_spec(old(self).text(), old(self).file(), old(self).idx(), old(self).calls(), Seq::empty()),
    {
        let mut tokens: Vec<Token> = Vec::new();
        let ghost text = self.text();
        let ghost file = self.file();
        let ghost target = eval_tokens_spec(text, file, self.idx(), self.calls(), Seq::empty());
        proof {
            self.lemma_bounds();
            assert(tokens_view(tokens@) =~= Seq::<TokenView>::empty());
        }
        loop
            invariant
                self.wf(),
                self.text() == text,
                self.file() == file,
                self.idx() <= text.len(),
                eval_tokens_spec(text, file, self.idx(), self.calls(), tokens_view(tokens@)) == target,
                text == old(self).text(),
                file == old(self).file(),
                target == eval_tokens_spec(text, file, old(self).idx(), old(self).calls(), Seq::empty()),
            decreases text.len() - self.idx(),
        {
            let ghost idx0 = self.idx();
            let ghost calls0 = self.calls();
            let ghost before = tokens_view(tokens@);
            let token = match self.read_mandatory_token() {
                Ok(t) => t,
                Err(e) => return Err(e),
            };
            proof {
                lemma_mandatory_bounds(text, file, idx0, calls0);
            }
            if token.token.same_as(&Token::SemiColon) {
                return Ok(tokens);
            }
            let ghost tv = token.token@;
            tokens.push(token.token);
            assert(tokens_view(tokens@) =~= before.push(tv));
        }
    }

    /// Reads `eval(prop("width") + X);`, the only form of `eval` that is supported,
    /// after `eval`; `position` is that of `eval`.
    fn read_simple_eval(&mut self, position: InputPosition) -> (res: Result<PropertyValue, MapcssError>)
        requires
            old(self).wf(),
        ensures
            old(self).continued_by(final(self)),
            (map_result(res, |v: PropertyValue| v@), final(self).idx(), final(self).calls()) == read_simple_eval_spec(
                old(self).text(),
                old(self).file(),
                old(self).idx(),
                old(self).calls(),
                position,
            ),
    {
        let tokens = match self.read_eval_tokens() {
            Ok(t) => t,
            Err(e) => return Err(e),
        };
        match eval_width_increment(&tokens) {
            Some(num) => Ok(PropertyValue::WidthDelta(num)),
            None => Err(self.parse_error(ParseErrorKind::UnknownEvalForm, position)),
        }
    }

    /// Reads `;` after a value.
    fn read_semicolon_after(&mut self, value: PropertyValue) -> (res: Result<PropertyValue, MapcssError>)
        requires
            old(self).wf(),
        ensures
            old(self).continued_by(final(self)),
            (map_result(res, |v: PropertyValue| v@), final(self).idx(), final(self).calls()) == then_semicolon(
                old(self).text(),
                old(self).file(),
                old(self).idx(),
                old(self).calls(),
                value@,
            ),
    {
        match self.expect_simple_token(Token::SemiColon) {
            Ok(()) => Ok(value),
            Err(e) => Err(e),
        }
    }
}

} // verus!

verus! {

impl TokenStream {
    /// Reads the value of a property after its `:`, up to and including `;`.
    fn read_property_value(&mut self, color_defs: &ColorDefs) -> (res: Result<PropertyValue, MapcssError>)
        requires
            old(self).wf(),
        ensures
            old(self).continued_by(final(self)),
            (map_result(res, |v: PropertyValue| v@), final(self).idx(), final(self).calls())
                == read_property_value_spec(
                old(self).text(),
                old(self).file(),
                old(self).idx(),
                old(self).calls(),
                color_defs@,
            ),
    {
        let token = match self.read_mandatory_token() {
            Ok(t) => t,
            Err(e) => return Err(e),
        };
        match token.token {
            Token::Identifier(id) => {
                if str_eq(id.as_str(), "eval") {
                    return self.read_simple_eval(token.position);
                }
                let mut full_id = id;
                let next = match self.read_mandatory_token() {
                    Ok(t) => t,
                    Err(e) => return Err(e),
                };
                match next.token {
                    Token::Colon => {
                        let suffix = match self.read_identifier() {
                            Ok(s) => s,
                            Err(e) => return Err(e),
                        };
                        string_push(&mut full_id, ':');
                        push_str(&mut full_id, suffix.as_str());
                        self.read_semicolon_after(PropertyValue::Identifier(full_id))
                    },
                    Token::SemiColon => Ok(PropertyValue::Identifier(full_id)),
                    _ => Err(self.unexpected_token(next)),
                }
            },
            Token::String(s) => self.read_semicolon_after(PropertyValue::String(s)),
            Token::Color(color) => self.read_semicolon_after(PropertyValue::Color(color)),
            Token::ColorRef(color_name) => match color_defs.get(color_name.as_str()) {
                Some(color) => self.read_semicolon_after(PropertyValue::Color(color)),
                None => {
                    let position = self.tokenizer.position();
                    Err(self.parse_error(ParseErrorKind::UnknownColorReference(color_name), position))
                },
            },
            Token::Number(num) => match self.read_number_list(num) {
                Ok(numbers) => Ok(PropertyValue::Numbers(numbers)),
                Err(e) => Err(e),
            },
            _ => Err(self.unexpected_token(token)),
        }
    }

    /// Reads the properties of a rule after `{`, up to and including `}`.
    fn read_properties(&mut self, color_defs: &ColorDefs) -> (res: Result<Vec<Property>, MapcssError>)
        requires
            old(self).wf(),
        ensures
            old(self).continued_by(final(self)),
            (map_result(res, |v: Vec<Property>| properties_view(v@)), final(self).idx(), final(self).calls())
                == properties_spec(
                old(self).text(),
                old(self).file(),
                old(self).idx(),
                old(self).calls(),
                color_defs@,
                Seq::empty(),
            ),
    {
        let mut result: Vec<Property> = Vec::new();
        let ghost text = self.text();
        let ghost file = self.file();
        let ghost defs = color_defs@;
        let ghost target = properties_spec(text, file, self.idx(), self.calls(), defs, Seq::empty());
        proof {
            self.lemma_bounds();
            assert(properties_view(result@) =~= Seq::<PropertyView>::empty());
        }
        loop
            invariant
                self.wf(),
                self.text() == text,
                self.file() == file,
                self.idx() <= text.len(),
                defs == color_defs@,
                properties_spec(text, file, self.idx(), self.calls(), defs, properties_view(result@)) == target,
                text == old(self).text(),
                file == old(self).file(),
                target == properties_spec(text, file, old(self).idx(), old(self).calls(), defs, Seq::empty()),
            decreases text.len() - self.idx(),
        {
            let ghost idx0 = self.idx();
            let ghost calls0 = self.calls();
            let ghost before = properties_view(result@);
            let token = match self.read_mandatory_token() {
                Ok(t) => t,
                Err(e) => return Err(e),
            };
            proof {
                lemma_mandatory_bounds(text, file, idx0, calls0);
            }
            let ghost idx1 = self.idx();
            let ghost calls1 = self.calls();
            match token.token {
                Token::Identifier(id) => {
                    match self.expect_simple_token(Token::Colon) {
                        Ok(()) => {},
                        Err(e) => return Err(e),
                    }
                    proof {
                        lemma_expect_bounds(text, file, idx1, calls1, TokenView::Colon);
                    }
                    let ghost idx2 = self.idx();
                    let ghost calls2 = self.calls();
                    let value = match self.read_property_value(color_defs) {
                        Ok(v) => v,
                        Err(e) => return Err(e),
                    };
                    proof {
                        lemma_property_value_bounds(text, file, idx2, calls2, defs);
                    }
                    let property = Property { name: id, value };
                    let ghost pv = property@;
                    result.push(property);
                    assert(properties_view(result@) =~= before.push(pv));
                },
                Token::RightBrace => return Ok(result),
                _ => return Err(self.unexpected_token(token)),
            }
        }
    }

    /// Skips an auxiliary `colors` section up to and including `}`.
    fn skip_section(&mut self) -> (res: Result<(), MapcssError>)
        requires
            old(self).wf(),
        ensures
            old(self).continued_by(final(self)),
            (map_result(res, |u: ()| u), final(self).idx(), final(self).calls()) == skip_section_spec(
                old(self).text(),
                old(self).file(),
                old(self).idx(),
                old(self).calls(),
            ),
    {
        let ghost text = self.text();
        let ghost file = self.file();
        let ghost target = skip_section_spec(text, file, self.idx(), self.calls());
        proof {
            self.lemma_bounds();
        }
        loop
            invariant
                self.wf(),
                self.text() == text,
                self.file() == file,
                self.idx() <= text.len(),
                skip_section_spec(text, file, self.idx(), self.calls()) == target,
                text == old(self).text(),
                file == old(self).file(),
                target == skip_section_spec(text, file, old(self).idx(), old(self).calls()),
            decreases text.len() - self.idx(),
        {
            let ghost idx0 = self.idx();
            let ghost calls0 = self.calls();
            let token = match self.read_mandatory_token() {
                Ok(t) => t,
                Err(e) => return Err(e),
            };
            proof {
                lemma_mandatory_bounds(text, file, idx0, calls0);
            }
            if token.token.same_as(&Token::RightBrace) {
                return Ok(());
            }
        }
    }

    /// Reads the properties of a rule after `{` and makes the rule with them.
    fn read_rule_body(&mut self, selectors: Vec<Selector>, color_defs: &ColorDefs) -> (res: Result<
        Rule,
        MapcssError,
    >)
        requires
            old(self).wf(),
        ensures
            old(self).continued_by(final(self)),
            (map_result(res, |r: Rule| r@), final(self).idx(), final(self).calls()) == rule_body_spec(
                old(self).text(),
                old(self).file(),
                old(self).idx(),
                old(self).calls(),
                color_defs@,
                selectors_view(selectors@),
            ),
    {
        match self.read_properties(color_defs) {
            Ok(properties) => Ok(Rule { selectors, properties }),
            Err(e) => Err(e),
        }
    }

    /// Reads a rule whose first token `selector_start` was already read: its selectors,
    /// then its properties.
    fn read_rule(&mut self, start: TokenWithPosition, color_defs: &ColorDefs) -> (res: Result<
        Rule,
        MapcssError,
    >)
        requires
            old(self).wf(),
        ensures
            old(self).continued_by(final(self)),
            (map_result(res, |r: Rule| r@), final(self).idx(), final(self).calls()) == rule_loop_spec(
                old(self).text(),
                old(self).file(),
                old(self).idx(),
                old(self).calls(),
                start@,
                color_defs@,
                Seq::empty(),
            ),
    {
        let mut selectors: Vec<Selector> = Vec::new();
        let ghost start0 = start@;
        let mut selector_start = start;
        let ghost text = self.text();
        let ghost file = self.file();
        let ghost defs = color_defs@;
        let ghost target = rule_loop_spec(text, file, self.idx(), self.calls(), selector_start@, defs, Seq::empty());
        proof {
            self.lemma_bounds();
            assert(selectors_view(selectors@) =~= Seq::<SelectorView>::empty());
        }
        loop
            invariant
                self.wf(),
                self.text() == text,
                self.file() == file,
                self.idx() <= text.len(),
                defs == color_defs@,
                rule_loop_spec(text, file, self.idx(), self.calls(), selector_start@, defs, selectors_view(selectors@))
                    == target,
                text == old(self).text(),
                file == old(self).file(),
                target == rule_loop_spec(text, file, old(self).idx(), old(self).calls(), start0, defs, Seq::empty()),
                start0 == start@,
            decreases text.len() - self.idx(),
        {
            let ghost idx0 = self.idx();
            let ghost calls0 = self.calls();
            let ghost before = selectors_view(selectors@);
            let is_colors_section = match &selector_start.token {
                Token::Identifier(id) => str_eq(id.as_str(), "colors"),
                _ => false,
            };
            if selector_start.token.same_as(&Token::LeftBrace) {
                return self.read_rule_body(selectors, color_defs);
            }
            if is_colors_section {
                let properties: Vec<Property> = Vec::new();
                assert(properties_view(properties@) =~= Seq::<PropertyView>::empty());
                return match self.skip_section() {
                    Ok(()) => Ok(Rule { selectors, properties }),
                    Err(e) => Err(e),
                };
            }
            let (selector, expect_more_selectors) = match self.read_selector(selector_start) {
                Ok(s) => s,
                Err(e) => return Err(e),
            };
            proof {
                lemma_read_selector_bounds(text, file, idx0, calls0, selector_start@);
            }
            let ghost sv = selector@;
            selectors.push(selector);
            assert(selectors_view(selectors@) =~= before.push(sv));
            if !expect_more_selectors {
                return self.read_rule_body(selectors, color_defs);
            }
            let ghost idx1 = self.idx();
            let ghost calls1 = self.calls();
            selector_start = match self.read_mandatory_token() {
                Ok(t) => t,
                Err(e) => return Err(e),
            };
            proof {
                lemma_mandatory_bounds(text, file, idx1, calls1);
            }
        }
    }
}

} // verus!

verus! {

/// A stylesheet parser. It reads rules and color definitions, and stops at each
/// `@import` so that the caller can parse the imported file (with a parser that starts
/// from `color_defs`) and hand its rules and definitions to `add_imported`.
pub struct Parser {
    stream: TokenStream,
    color_defs: ColorDefs,
    rules: Vec<Rule>,
}

impl Parser {
    /// The text of the stylesheet.
    pub closed spec fn text(&self) -> Seq<char> {
        self.stream.text()
    }

    /// The name of the stylesheet's file, as errors report it.
    pub closed spec fn file(&self) -> Seq<char> {
        self.stream.file()
    }

    /// The index of the next character to read.
    pub closed spec fn index(&self) -> nat {
        self.stream.idx()
    }

    /// How many times the tokenizer asked for a character so far.
    pub closed spec fn requests(&self) -> nat {
        self.stream.calls()
    }

    /// The color definitions known so far.
    pub closed spec fn defs(&self) -> Map<Seq<char>, Color> {
        self.color_defs@
    }

    /// The rules read so far, imported ones included.
    pub closed spec fn rules_read(&self) -> Seq<RuleView> {
        rules_view(self.rules@)
    }

    pub closed spec fn wf(&self) -> bool {
        self.stream.wf()
    }

    /// A parser at the start of `content`, which knows the color definitions `color_defs`.
    pub fn new(content: &str, file_name: &str, color_defs: ColorDefs) -> (res: Parser)
        requires
            content@.len() < usize::MAX,
        ensures
            res.wf(),
            res.text() == content@,
            res.file() == file_name@,
            res.index() == 0,
            res.requests() == 0,
            res.defs() == color_defs@,
            res.rules_read() == Seq::<RuleView>::empty(),
    {
        let rules: Vec<Rule> = Vec::new();
        assert(rules_view(rules@) =~= Seq::<RuleView>::empty());
        Parser {
            stream: TokenStream { tokenizer: Tokenizer::new(content), file_name: file_name.to_owned() },
            color_defs,
            rules,
        }
    }

    /// Reads a color definition `@name: value;` after its name; only a color value is kept.
    fn read_color_def(&mut self, color_name: String) -> (res: Result<(), MapcssError>)
        requires
            old(self).wf(),
        ensures
            old(self).stream.continued_by(&final(self).stream),
            final(self).rules@ == old(self).rules@,
            ({
                let (r, i, c) = color_def_spec(
                    old(self).text(),
                    old(self).file(),
                    old(self).index(),
                    old(self).requests(),
                    color_name@,
                    old(self).defs(),
                );
                &&& final(self).index() == i
                &&& final(self).requests() == c
                &&& match r {
                    Ok(d) => res is Ok && final(self).defs() == d,
                    Err(e) => res matches Err(x) && x@ == e && final(self).defs() == old(self).defs(),
                }
            }),
    {
        match self.stream.expect_simple_token(Token::Colon) {
            Ok(()) => {},
            Err(e) => return Err(e),
        }
        let color_value_token = match self.stream.read_mandatory_token() {
            Ok(t) => t,
            Err(e) => return Err(e),
        };
        // A value other than a color is not defined, but it does not stop the parsing either.
        let color_value = match color_value_token.token {
            Token::Color(color) => Some(color),
            _ => None,
        };
        match self.stream.expect_simple_token(Token::SemiColon) {
            Ok(()) => {},
            Err(e) => return Err(e),
        }
        if let Some(val) = color_value {
            self.color_defs.insert(color_name, val);
        }
        Ok(())
    }

    /// Reads rules and color definitions up to the end of the text (`Done`) or up to the
    /// next `@import` and its `;` (`Import` with the imported file's name).
    #[verifier::rlimit(50)]
    pub fn parse(&mut self) -> (res: Result<ParseStep, MapcssError>)
        requires
            old(self).wf(),
        ensures
            final(self).wf(),
            final(self).text() == old(self).text(),
            final(self).file() == old(self).file(),
            (
                map_result(res, |s: ParseStep| s@),
                (final(self).index(), final(self).requests(), final(self).defs(), final(self).rules_read()),
            ) == parse_spec(
                old(self).text(),
                old(self).file(),
                old(self).index(),
                old(self).requests(),
                old(self).defs(),
                old(self).rules_read(),
            ),
    {
        let ghost text = self.text();
        let ghost file = self.file();
        let ghost target = parse_spec(text, file, self.index(), self.requests(), self.defs(), self.rules_read());
        proof {
            self.stream.lemma_bounds();
        }
        loop
            invariant
                self.wf(),
                self.text() == text,
                self.file() == file,
                self.index() <= text.len(),
                parse_spec(text, file, self.index(), self.requests(), self.defs(), self.rules_read()) == target,
                text == old(self).text(),
                file == old(self).file(),
                target == parse_spec(
                    text,
                    file,
                    old(self).index(),
                    old(self).requests(),
                    old(self).defs(),
                    old(self).rules_read(),
                ),
            decreases text.len() - self.index(),
        {
            let ghost idx0 = self.index();
            let ghost calls0 = self.requests();
            let ghost rules0 = self.rules_read();
            let ghost defs0 = self.defs();
            let token = match self.stream.read_optional_token() {
                None => return Ok(ParseStep::Done),
                Some(Err(e)) => return Err(e),
                Some(Ok(t)) => t,
            };
            proof {
                lemma_next_token_bounds(text, idx0, calls0);
            }
            let ghost idx1 = self.index();
            let ghost calls1 = self.requests();
            match token.token {
                Token::Import(imported_file) => {
                    return match self.stream.expect_simple_token(Token::SemiColon) {
                        Ok(()) => Ok(ParseStep::Import(imported_file)),
                        Err(e) => Err(e),
                    };
                },
                Token::ColorRef(color_name) => {
                    match self.read_color_def(color_name) {
                        Ok(()) => {},
                        Err(e) => return Err(e),
                    }
                    proof {
                        lemma_color_def_bounds(text, file, idx1, calls1, color_name@, defs0);
                    }
                },
                _ => {
                    let rule = match self.stream.read_rule(token, &self.color_defs) {
                        Ok(r) => r,
                        Err(e) => return Err(e),
                    };
                    proof {
                        lemma_rule_loop_bounds(text, file, idx1, calls1, token@, self.defs(), Seq::empty());
                    }
                    let ghost rv = rule@;
                    self.rules.push(rule);
                    assert(self.rules_read() =~= rules0.push(rv));
                },
            }
        }
    }

    /// Adds the rules and the color definitions of an imported stylesheet: the rules come
    /// after those read so far, and the definitions replace those of the same names.
    pub fn add_imported(&mut self, rules: Vec<Rule>, color_defs: &ColorDefs)
        requires
            old(self).wf(),
        ensures
            final(self).wf(),
            final(self).text() == old(self).text(),
            final(self).file() == old(self).file(),
            final(self).index() == old(self).index(),
            final(self).requests() == old(self).requests(),
            final(self).rules_read() == old(self).rules_read() + rules_view(rules@),
            final(self).defs() == old(self).defs().union_prefer_right(color_defs@),
    {
        let mut rules = rules;
        let ghost added = rules_view(rules@);
        self.rules.append(&mut rules);
        assert(self.rules_read() =~= old(self).rules_read() + added);
        self.color_defs.extend(color_defs);
    }

    /// A copy of the color definitions known so far, for the parser of an imported file.
    pub fn color_defs(&self) -> (res: ColorDefs)
        ensures
            res@ == self.defs(),
    {
        self.color_defs.clone_defs()
    }

    /// The rules read so far and the color definitions.
    pub fn into_parts(self) -> (res: (Vec<Rule>, ColorDefs))
        ensures
            rules_view(res.0@) == self.rules_read(),
            res.1@ == self.defs(),
    {
        (self.rules, self.color_defs)
    }
}

} // verus!
