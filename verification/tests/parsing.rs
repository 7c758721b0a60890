use pma::parse::parse;
use pma::sexpr::SExpr;
use pma::tokens::Token;
use pma::tokens::Tokens;

#[test]
fn test_parse_basic() {
    let mut toks = Tokens::new();
    toks.push(Token::LParen, 0, 0);
    toks.push(Token::Id("id".to_string()), 0, 0);
    toks.push(Token::RParen, 0, 0);
    let mut sexprs = parse(toks).unwrap();
    assert_eq!(1, sexprs.len());
    assert_eq!(
        SExpr::List(vec![SExpr::Id("id".to_string())]),
        sexprs.pop_front().unwrap()
    );
}

#[test]
fn test_parse_two_exprs() {
    let mut toks = Tokens::new();
    toks.push(Token::LParen, 0, 0);
    toks.push(Token::Id("one".to_string()), 0, 0);
    toks.push(Token::RParen, 0, 0);
    toks.push(Token::LParen, 0, 0);
    toks.push(Token::Id("two".to_string()), 0, 0);
    toks.push(Token::RParen, 0, 0);
    let mut sexprs = parse(toks).unwrap();
    assert_eq!(2, sexprs.len());
    assert_eq!(
        SExpr::List(vec![SExpr::Id("one".to_string())]),
        sexprs.pop_front().unwrap()
    );
    assert_eq!(
        SExpr::List(vec![SExpr::Id("two".to_string())]),
        sexprs.pop_front().unwrap()
    );
}

#[test]
fn test_parse_nested() {
    let mut toks = Tokens::new();
    toks.push(Token::LParen, 0, 0);
    toks.push(Token::Id("id".to_string()), 0, 0);
    toks.push(Token::LParen, 0, 0);
    toks.push(Token::Str("string".to_string()), 0, 0);
    toks.push(Token::RParen, 0, 0);
    toks.push(Token::RParen, 0, 0);
    let mut sexprs = parse(toks).unwrap();
    assert_eq!(1, sexprs.len());
    assert_eq!(
        SExpr::List(vec![
            SExpr::Id("id".to_string()),
            SExpr::List(vec![SExpr::Str("string".to_string())])
        ]),
        sexprs.pop_front().unwrap()
    );
}

#[test]
fn test_parse_expecting_paren() {
    let mut toks = Tokens::new();
    toks.push(Token::Id("loose".to_string()), 1, 1);
    match parse(toks) {
        Ok(es) => panic!("expected an error, got {:?}", es),
        Err(e) => assert_eq!("expecting '('", e.message()),
    }
}

#[test]
fn test_parse_abrupt_end() {
    let mut toks = Tokens::new();
    toks.push(Token::LParen, 1, 1);
    toks.push(Token::Id("one".to_string()), 1, 2);
    match parse(toks) {
        Ok(es) => panic!("expected an error, got {:?}", es),
        Err(e) => assert_eq!("abrupt end of list", e.message()),
    }
}
