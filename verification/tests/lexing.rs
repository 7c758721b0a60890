use pma::lex::lex;
use pma::lex::lex_string;
use pma::tokens::Token;

fn collect(mut toks: pma::tokens::Tokens) -> Vec<(Token, u64, u64)> {
    let mut out = Vec::new();
    while let Some(t) = toks.pop() {
        out.push(t);
    }
    out
}

#[test]
fn test_lex_string() {
    let src = r#"string" symbol"#;
    let lineno = 1;
    let col = 1;
    match lex_string(src, 0, lineno, col, col, false, String::new(), String::new()) {
        Ok((s, _, _, _)) => {
            println!("result: {}", s);
            assert_eq!("string", s);
        }
        Err(e) => panic!("error: {:?}", e),
    };
}

#[test]
fn test_lex_string_escaped() {
    let src = r#"\"string\"" symbol"#;
    let lineno = 1;
    let col = 1;
    match lex_string(src, 0, lineno, col, col, false, String::new(), String::new()) {
        Ok((s, _, _, _)) => {
            println!("result: {}", s);
            assert_eq!(r#""string""#, s);
        }
        Err(e) => panic!("error: {:?}", e),
    };
}

#[test]
fn test_lex_list() {
    let src = r#"(id-one id-two "str")"#;
    let res = match lex(src) {
        Ok(r) => r,
        Err(e) => panic!("error: {:?}", e),
    };
    println!("{:?}", res);
    assert_eq!(5, res.len());

    let toks = collect(res);

    assert_eq!(Token::LParen, toks[0].0);
    assert_eq!(Token::Id("id-one".to_string()), toks[1].0);
    assert_eq!(Token::Id("id-two".to_string()), toks[2].0);
    assert_eq!(Token::Str("str".to_string()), toks[3].0);
    assert_eq!(Token::RParen, toks[4].0);
}

#[test]
fn test_lex_comment() {
    let src = "# This is a comment.\n(one two)";

    let res = match lex(src) {
        Ok(r) => r,
        Err(e) => panic!("error: {:?}", e),
    };

    let toks = collect(res);

    assert_eq!(Token::LParen, toks[0].0);
    assert_eq!(Token::Id("one".to_string()), toks[1].0);
    assert_eq!(Token::Id("two".to_string()), toks[2].0);
    assert_eq!(Token::RParen, toks[3].0);
}

#[test]
fn test_lex_unterminated_string() {
    let src = "(\"never closed";
    match lex(src) {
        Ok(t) => panic!("expected an error, got {:?}", t),
        Err(e) => assert_eq!("unterminated string", e.message()),
    }
}

#[test]
fn test_lex_unexpected_character() {
    match lex("(one %)") {
        Ok(t) => panic!("expected an error, got {:?}", t),
        Err(e) => {
            assert_eq!("unexpected character", e.message());
            assert_eq!(1, e.line());
            assert_eq!(6, e.column());
        }
    }
}

#[test]
fn test_lex_positions() {
    let res = lex("(a\nbc)").unwrap();
    let toks = collect(res);
    // (line, col) of each token start, columns counted from one.
    assert_eq!((1, 1), (toks[0].1, toks[0].2));
    assert_eq!((1, 2), (toks[1].1, toks[1].2));
    assert_eq!((2, 1), (toks[2].1, toks[2].2));
    assert_eq!((2, 3), (toks[3].1, toks[3].2));
}
