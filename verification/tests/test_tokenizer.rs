use renderer::mapcss::color::Color;
use renderer::mapcss::number::{number_to_string, Number};
use renderer::mapcss::token::{Token, Tokenizer};

fn tokenize(s: &str) -> Vec<(Token, usize, usize)> {
    let mut tokenizer = Tokenizer::new(s);
    let mut result = Vec::new();
    while let Some(item) = tokenizer.next() {
        let t = item.expect("Unexpected lexer error");
        result.push((t.token, t.position.line, t.position.character));
    }
    result
}

fn unindent(s: &str) -> String {
    let lines = s.trim_matches('\n').split('\n').collect::<Vec<_>>();
    let space_count = lines[0].chars().take_while(|x| *x == ' ').count();
    lines.iter().map(|x| &x[space_count..]).collect::<Vec<_>>().join("\n")
}

fn tok(s: &str, expected: Vec<(Token, usize, usize)>) {
    let actual = tokenize(&unindent(s));
    assert_eq!(actual.len(), expected.len(), "{:?}", actual);
    for (a, e) in actual.iter().zip(expected.iter()) {
        assert!(a.0 == e.0 && a.1 == e.1 && a.2 == e.2, "got {:?}, expected {:?}", a, e);
    }
}

fn ident(s: &str) -> Token {
    Token::Identifier(s.to_string())
}

fn num(negative: bool, mantissa: u64, scale: usize) -> Token {
    Token::Number(Number { negative, mantissa, scale, exponent: 0 })
}

#[test]
fn test1() {
    tok(
        r#"
            /* this is a comment */
            way|z14-[highway=byway][bridge?],
            *::* {
                color: @black;
                dashes: 3,4;
                linejoin: round; // this is a comment, too
                width: 1.5;
                y-index: 4;
                z-index: -999;
            }
            @import("include.mapcss");
            @black: #ffcc00;
            "#,
        vec![
            (ident("way"), 2, 1),
            (Token::ZoomRange { min_zoom: Some(14), max_zoom: None }, 2, 4),
            (Token::LeftBracket, 2, 9),
            (ident("highway"), 2, 10),
            (Token::Equal, 2, 17),
            (ident("byway"), 2, 18),
            (Token::RightBracket, 2, 23),
            (Token::LeftBracket, 2, 24),
            (ident("bridge"), 2, 25),
            (Token::QuestionMark, 2, 31),
            (Token::RightBracket, 2, 32),
            (Token::Comma, 2, 33),
            (ident("*"), 3, 1),
            (Token::DoubleColon, 3, 2),
            (ident("*"), 3, 4),
            (Token::LeftBrace, 3, 6),
            (ident("color"), 4, 5),
            (Token::Colon, 4, 10),
            (Token::ColorRef("black".to_string()), 4, 12),
            (Token::SemiColon, 4, 18),
            (ident("dashes"), 5, 5),
            (Token::Colon, 5, 11),
            (num(false, 3, 0), 5, 13),
            (Token::Comma, 5, 14),
            (num(false, 4, 0), 5, 15),
            (Token::SemiColon, 5, 16),
            (ident("linejoin"), 6, 5),
            (Token::Colon, 6, 13),
            (ident("round"), 6, 15),
            (Token::SemiColon, 6, 20),
            (ident("width"), 7, 5),
            (Token::Colon, 7, 10),
            (num(false, 15, 1), 7, 12),
            (Token::SemiColon, 7, 15),
            (ident("y-index"), 8, 5),
            (Token::Colon, 8, 12),
            (num(false, 4, 0), 8, 14),
            (Token::SemiColon, 8, 15),
            (ident("z-index"), 9, 5),
            (Token::Colon, 9, 12),
            (num(true, 999, 0), 9, 14),
            (Token::SemiColon, 9, 18),
            (Token::RightBrace, 10, 1),
            (Token::Import("include.mapcss".to_string()), 11, 1),
            (Token::SemiColon, 11, 26),
            (Token::ColorRef("black".to_string()), 12, 1),
            (Token::Colon, 12, 7),
            (Token::Color(Color { r: 255, g: 204, b: 0 }), 12, 9),
            (Token::SemiColon, 12, 16),
        ],
    );
}

#[test]
fn test2() {
    tok(
        r#"
            line|z12-14[piste:lift=j-bar],
            line|z12-14[piste:lift=magic_carpet],
            line|z19-[power=line],
            way|z-16[highway=secondary]
            {width: 2.5;opacity: 0.6;dashes: 0.9,18;}
            "#,
        vec![
            (ident("line"), 1, 1),
            (Token::ZoomRange { min_zoom: Some(12), max_zoom: Some(14) }, 1, 5),
            (Token::LeftBracket, 1, 12),
            (ident("piste"), 1, 13),
            (Token::Colon, 1, 18),
            (ident("lift"), 1, 19),
            (Token::Equal, 1, 23),
            (ident("j-bar"), 1, 24),
            (Token::RightBracket, 1, 29),
            (Token::Comma, 1, 30),
            (ident("line"), 2, 1),
            (Token::ZoomRange { min_zoom: Some(12), max_zoom: Some(14) }, 2, 5),
            (Token::LeftBracket, 2, 12),
            (ident("piste"), 2, 13),
            (Token::Colon, 2, 18),
            (ident("lift"), 2, 19),
            (Token::Equal, 2, 23),
            (ident("magic_carpet"), 2, 24),
            (Token::RightBracket, 2, 36),
            (Token::Comma, 2, 37),
            (ident("line"), 3, 1),
            (Token::ZoomRange { min_zoom: Some(19), max_zoom: None }, 3, 5),
            (Token::LeftBracket, 3, 10),
            (ident("power"), 3, 11),
            (Token::Equal, 3, 16),
            (ident("line"), 3, 17),
            (Token::RightBracket, 3, 21),
            (Token::Comma, 3, 22),
            (ident("way"), 4, 1),
            (Token::ZoomRange { min_zoom: None, max_zoom: Some(16) }, 4, 4),
            (Token::LeftBracket, 4, 9),
            (ident("highway"), 4, 10),
            (Token::Equal, 4, 17),
            (ident("secondary"), 4, 18),
            (Token::RightBracket, 4, 27),
            (Token::LeftBrace, 5, 1),
            (ident("width"), 5, 2),
            (Token::Colon, 5, 7),
            (num(false, 25, 1), 5, 9),
            (Token::SemiColon, 5, 12),
            (ident("opacity"), 5, 13),
            (Token::Colon, 5, 20),
            (num(false, 6, 1), 5, 22),
            (Token::SemiColon, 5, 25),
            (ident("dashes"), 5, 26),
            (Token::Colon, 5, 32),
            (num(false, 9, 1), 5, 34),
            (Token::Comma, 5, 37),
            (num(false, 18, 0), 5, 38),
            (Token::SemiColon, 5, 40),
            (Token::RightBrace, 5, 41),
        ],
    );
}

#[test]
fn test3() {
    tok(
        r#"
            node|z14-[railway=signal]["railway:signal:direction"]["railway:signal:speed_limit_distant:deactivated"=yes]::deactivatedcross
            {
                icon-image: "icons/light-signal-deactivated-18.png";
                text-allow-overlap: true;
            }
            "#,
        vec![
            (ident("node"), 1, 1),
            (Token::ZoomRange { min_zoom: Some(14), max_zoom: None }, 1, 5),
            (Token::LeftBracket, 1, 10),
            (ident("railway"), 1, 11),
            (Token::Equal, 1, 18),
            (ident("signal"), 1, 19),
            (Token::RightBracket, 1, 25),
            (Token::LeftBracket, 1, 26),
            (Token::String("railway:signal:direction".to_string()), 1, 27),
            (Token::RightBracket, 1, 53),
            (Token::LeftBracket, 1, 54),
            (Token::String("railway:signal:speed_limit_distant:deactivated".to_string()), 1, 55),
            (Token::Equal, 1, 103),
            (ident("yes"), 1, 104),
            (Token::RightBracket, 1, 107),
            (Token::DoubleColon, 1, 108),
            (ident("deactivatedcross"), 1, 110),
            (Token::LeftBrace, 2, 1),
            (ident("icon-image"), 3, 5),
            (Token::Colon, 3, 15),
            (Token::String("icons/light-signal-deactivated-18.png".to_string()), 3, 17),
            (Token::SemiColon, 3, 56),
            (ident("text-allow-overlap"), 4, 5),
            (Token::Colon, 4, 23),
            (ident("true"), 4, 25),
            (Token::SemiColon, 4, 29),
            (Token::RightBrace, 5, 1),
        ],
    )
}

#[test]
fn test_errors() {
    let malformed_strings = ["/*abc", "-", "123.", "\"abc", "|z-", "#", "&", "+"];
    for s in &malformed_strings {
        let mut tokenizer = Tokenizer::new(s);
        let mut errors = Vec::new();
        while let Some(item) = tokenizer.next() {
            errors.push(item);
        }
        assert_eq!(1, errors.len(), "Expected exactly one error for {}", s);
        assert!(errors[0].is_err(), "Expected to have an error for {}", s);
    }
}

#[test]
fn test_long_decimals() {
    // Digits after the dot beyond what a 64-bit mantissa holds are read and dropped.
    let tokens = tokenize("0.12345678901234567890123 -2.50");
    assert_eq!(tokens.len(), 2);
    assert!(tokens[0].0 == num(false, 12345678901234567890, 20));
    assert!(tokens[1].0 == num(true, 250, 2));
}

#[test]
fn test_long_integers() {
    // Digits before the dot beyond what a 64-bit mantissa holds are dropped but still count as
    // powers of ten; what follows the dot is then dropped too.
    let tokens = tokenize("123456789012345678901234.5 18446744073709551615.5");
    assert_eq!(tokens.len(), 2);
    let big = Number { negative: false, mantissa: 12345678901234567890, scale: 0, exponent: 4 };
    assert!(tokens[0].0 == Token::Number(big));
    assert_eq!(number_to_string(big), "123456789012345678900000");
    assert!(tokens[1].0 == num(false, 18446744073709551615, 0));
}
