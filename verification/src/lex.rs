//! The tokenizer: turns source text into a stream of parentheses,
//! identifiers and quoted strings, tracking line and column numbers and
//! skipping `#` comments to the end of the line.
//!
//! The whole tokenization is modelled by [`lex_from`], a recursive spec
//! function over the character sequence; the executable functions mirror
//! it step for step.

use vstd::prelude::*;
use vstd::string::StrSliceExecFns;
use vstd::string::StringExecFns;
use crate::tokens::Token;
use crate::tokens::TokenView;
use crate::tokens::Tokens;

verus! {

/// A character that may appear in an identifier.
pub open spec fn is_id_char(c: char) -> bool {
    c == '-' || ('a' <= c && c <= 'z') || ('A' <= c && c <= 'Z')
}

/// The position, line and column after skipping a comment: characters are
/// consumed up to and including the next newline.
pub open spec fn skip_comment(s: Seq<char>, i: int, line: int, col: int) -> (int, int, int)
    decreases s.len() - i when 0 <= i <= s.len()
{
    if i >= s.len() {
        (i, line, col)
    } else if s[i] == '\n' {
        (i + 1, line + 1, col + 1)
    } else {
        skip_comment(s, i + 1, line, col + 1)
    }
}

proof fn lemma_skip_comment_range(s: Seq<char>, i: int, line: int, col: int)
    requires
        0 <= i <= s.len(),
    ensures
        i <= skip_comment(s, i, line, col).0 <= s.len(),
    decreases s.len() - i,
{
    if i < s.len() && s[i] != '\n' {
        lemma_skip_comment_range(s, i + 1, line, col + 1);
    }
}

/// The end of the identifier run starting at `j`.
pub open spec fn id_end(s: Seq<char>, j: int) -> int
    decreases s.len() - j when 0 <= j <= s.len()
{
    if j >= s.len() {
        j
    } else if is_id_char(s[j]) {
        id_end(s, j + 1)
    } else {
        j
    }
}

proof fn lemma_id_end_range(s: Seq<char>, j: int)
    requires
        0 <= j <= s.len(),
    ensures
        j <= id_end(s, j) <= s.len(),
    decreases s.len() - j,
{
    if j < s.len() && is_id_char(s[j]) {
        lemma_id_end_range(s, j + 1);
    }
}

/// One step of string lexing, after the opening quote.  `start` is the
/// column of the opening quote (reported on an unterminated string), `bs`
/// whether the previous backslash is still pending, `acc` the content so
/// far.  A backslash is kept in the content and toggles `bs`; a quote ends
/// the string unless `bs` is set, in which case the preceding character is
/// replaced by a literal quote.
pub open spec fn lex_str_from(
    s: Seq<char>,
    i: int,
    line: int,
    col: int,
    start: int,
    bs: bool,
    acc: Seq<char>,
) -> Result<(Seq<char>, int, int, int), (Seq<char>, int, int)>
    decreases s.len() - i when 0 <= i <= s.len()
{
    if i >= s.len() {
        Err(("unterminated string"@, line, start))
    } else {
        let c = s[i];
        let col2 = col + 1;
        if c == '\\' {
            lex_str_from(s, i + 1, line, col2, start, !bs, acc.push('\\'))
        } else if c == '"' {
            if !bs {
                Ok((acc, i + 1, line, col2))
            } else {
                lex_str_from(s, i + 1, line, col2, start, false, acc.drop_last().push('"'))
            }
        } else if c == '\n' {
            lex_str_from(s, i + 1, line + 1, 1, start, bs, acc.push(c))
        } else {
            lex_str_from(s, i + 1, line, col2, start, bs, acc.push(c))
        }
    }
}

proof fn lemma_lex_str_range(
    s: Seq<char>,
    i: int,
    line: int,
    col: int,
    start: int,
    bs: bool,
    acc: Seq<char>,
)
    requires
        0 <= i <= s.len(),
    ensures
        lex_str_from(s, i, line, col, start, bs, acc) matches Ok(k) ==> i < k.1 <= s.len(),
    decreases s.len() - i,
{
    if i < s.len() {
        let c = s[i];
        if c == '\\' {
            lemma_lex_str_range(s, i + 1, line, col + 1, start, !bs, acc.push('\\'));
        } else if c == '"' {
            if bs {
                lemma_lex_str_range(
                    s,
                    i + 1,
                    line,
                    col + 1,
                    start,
                    false,
                    acc.drop_last().push('"'),
                );
            }
        } else if c == '\n' {
            lemma_lex_str_range(s, i + 1, line + 1, 1, start, bs, acc.push(c));
        } else {
            lemma_lex_str_range(s, i + 1, line, col + 1, start, bs, acc.push(c));
        }
    }
}

/// The tokens from position `i` on, with the line and column each one
/// starts at, or the first lexical error.
pub open spec fn lex_from(s: Seq<char>, i: int, line: int, col: int) -> Result<
    Seq<(TokenView, int, int)>,
    (Seq<char>, int, int),
>
    decreases s.len() - i when 0 <= i <= s.len()
    via lex_from_decreases
{
    if i >= s.len() {
        Ok(Seq::empty())
    } else {
        let c = s[i];
        let col2 = col + 1;
        if c == '(' {
            match lex_from(s, i + 1, line, col2) {
                Ok(rest) => Ok(seq![(TokenView::LParen, line, col2)] + rest),
                Err(e) => Err(e),
            }
        } else if c == ')' {
            match lex_from(s, i + 1, line, col2) {
                Ok(rest) => Ok(seq![(TokenView::RParen, line, col2)] + rest),
                Err(e) => Err(e),
            }
        } else if c == '\n' {
            lex_from(s, i + 1, line + 1, 0)
        } else if c == ' ' || c == '\t' {
            lex_from(s, i + 1, line, col2)
        } else if c == '#' {
            let k = skip_comment(s, i + 1, line, col2);
            lex_from(s, k.0, k.1, k.2)
        } else if is_id_char(c) {
            let end = id_end(s, i + 1);
            match lex_from(s, end, line, col + (end - i)) {
                Ok(rest) => Ok(seq![(TokenView::Id(s.subrange(i, end)), line, col2)] + rest),
                Err(e) => Err(e),
            }
        } else if c == '"' {
            match lex_str_from(s, i + 1, line, col2, col2, false, Seq::empty()) {
                Err(e) => Err(e),
                Ok(k) => match lex_from(s, k.1, k.2, k.3) {
                    Ok(rest) => Ok(seq![(TokenView::Str(k.0), k.2, col2)] + rest),
                    Err(e) => Err(e),
                },
            }
        } else {
            Err(("unexpected character"@, line, col2))
        }
    }
}

#[via_fn]
proof fn lex_from_decreases(s: Seq<char>, i: int, line: int, col: int) {
    if 0 <= i < s.len() {
        lemma_skip_comment_range(s, i + 1, line, col + 1);
        lemma_id_end_range(s, i + 1);
        lemma_lex_str_range(s, i + 1, line, col + 1, col + 1, false, Seq::empty());
    }
}

/// A lexical error: what went wrong and where.
#[derive(Debug, Clone)]
pub struct LexError {
    msg: String,
    lineno: u64,
    col: u64,
}

impl LexError {
    /// The message and position as mathematical values.
    pub closed spec fn model(self) -> (Seq<char>, int, int) {
        (self.msg@, self.lineno as int, self.col as int)
    }

    pub fn new(msg: &str, lineno: u64, col: u64) -> (r: LexError)
        ensures
            r.model() == (msg@, lineno as int, col as int),
    {
        LexError { msg: msg.to_owned(), lineno, col }
    }

    /// The stored message, for reporting.
    pub fn message(&self) -> (r: &str)
        ensures
            r@ == self.model().0,
    {
        self.msg.as_str()
    }

    pub fn line(&self) -> (r: u64)
        ensures
            r as int == self.model().1,
    {
        self.lineno
    }

    pub fn column(&self) -> (r: u64)
        ensures
            r as int == self.model().2,
    {
        self.col
    }
}

/// Mirrors [`skip_comment`].
fn skip_comment_exec(src: &str, i: usize, line: u64, col: u64) -> (r: (usize, u64, u64))
    requires
        src@.len() + 3 <= u64::MAX,
        i <= src@.len(),
        line <= 1 + i,
        col <= 1 + i,
    ensures
        (r.0 as int, r.1 as int, r.2 as int) == skip_comment(src@, i as int, line as int, col as int),
        i <= r.0 <= src@.len(),
        r.1 <= 1 + r.0,
        r.2 <= 1 + r.0,
    decreases src@.len() - i,
{
    if i >= src.unicode_len() {
        return (i, line, col);
    }
    let c = src.get_char(i);
    if c == '\n' {
        (i + 1, line + 1, col + 1)
    } else {
        skip_comment_exec(src, i + 1, line, col + 1)
    }
}

fn is_id_char_exec(c: char) -> (r: bool)
    ensures
        r == is_id_char(c),
{
    c == '-' || ('a' <= c && c <= 'z') || ('A' <= c && c <= 'Z')
}

/// Mirrors [`id_end`].
fn id_end_exec(src: &str, j: usize) -> (r: usize)
    requires
        j <= src@.len(),
    ensures
        r as int == id_end(src@, j as int),
        j <= r <= src@.len(),
    decreases src@.len() - j,
{
    if j >= src.unicode_len() {
        return j;
    }
    if is_id_char_exec(src.get_char(j)) {
        id_end_exec(src, j + 1)
    } else {
        j
    }
}

/// Mirrors [`lex_str_from`]; `prev` is `acc` without its last character,
/// kept so an escaped quote can replace that character.
pub fn lex_string(
    src: &str,
    i: usize,
    line: u64,
    col: u64,
    start: u64,
    bs: bool,
    acc: String,
    prev: String,
) -> (r: Result<(String, usize, u64, u64), LexError>)
    requires
        src@.len() + 3 <= u64::MAX,
        i <= src@.len(),
        line <= 1 + i,
        col <= 1 + i,
        start <= u64::MAX - 1,
        acc@.len() > 0 ==> acc@.drop_last() == prev@,
        bs ==> acc@.len() > 0,
    ensures
        match r {
            Ok(k) => {
                &&& lex_str_from(
                    src@,
                    i as int,
                    line as int,
                    col as int,
                    start as int,
                    bs,
                    acc@,
                ) == Ok::<(Seq<char>, int, int, int), (Seq<char>, int, int)>(
                    (k.0@, k.1 as int, k.2 as int, k.3 as int),
                )
                &&& i < k.1 <= src@.len()
                &&& k.2 <= 1 + k.1
                &&& k.3 <= 1 + k.1
            },
            Err(e) => lex_str_from(src@, i as int, line as int, col as int, start as int, bs, acc@)
                == Err::<(Seq<char>, int, int, int), (Seq<char>, int, int)>(e.model()),
        },
    decreases src@.len() - i,
{
    if i >= src.unicode_len() {
        return Err(LexError::new("unterminated string", line, start));
    }
    let c = src.get_char(i);
    let col2 = col + 1;
    if c == '\\' {
        let p2 = acc.clone();
        let mut a2 = acc;
        a2.append("\\");
        proof {
            reveal_strlit("\\");
            assert("\\"@ =~= seq!['\\']);
            assert(a2@ == p2@.push('\\'));
            assert(a2@.drop_last() =~= p2@);
        }
        lex_string(src, i + 1, line, col2, start, !bs, a2, p2)
    } else if c == '"' {
        if !bs {
            Ok((acc, i + 1, line, col2))
        } else {
            let p2 = prev.clone();
            let mut a2 = prev;
            a2.append("\"");
            proof {
                reveal_strlit("\"");
                assert("\""@ =~= seq!['"']);
                assert(a2@ == acc@.drop_last().push('"'));
                assert(a2@.drop_last() =~= p2@);
            }
            lex_string(src, i + 1, line, col2, start, false, a2, p2)
        }
    } else {
        let piece = src.substring_char(i, i + 1);
        proof {
            assert(piece@ =~= seq![src@[i as int]]);
        }
        let p2 = acc.clone();
        let mut a2 = acc;
        a2.append(piece);
        proof {
            assert(a2@ == p2@.push(src@[i as int]));
            assert(a2@.drop_last() =~= p2@);
        }
        if c == '\n' {
            lex_string(src, i + 1, line + 1, 1, start, bs, a2, p2)
        } else {
            lex_string(src, i + 1, line, col2, start, bs, a2, p2)
        }
    }
}

/// Mirrors [`lex_from`], appending the tokens found to `toks`.
fn lex_at(src: &str, i: usize, line: u64, col: u64, toks: &mut Tokens) -> (r: Result<
    (),
    LexError,
>)
    requires
        src@.len() + 3 <= u64::MAX,
        i <= src@.len(),
        line <= 1 + i,
        col <= 1 + i,
        old(toks).wf(),
    ensures
        final(toks).wf(),
        final(toks).cur() == old(toks).cur(),
        match r {
            Ok(_) => {
                &&& lex_from(src@, i as int, line as int, col as int) is Ok
                &&& final(toks).items_view() == old(toks).items_view() + lex_from(
                    src@,
                    i as int,
                    line as int,
                    col as int,
                )->Ok_0
            },
            Err(e) => lex_from(src@, i as int, line as int, col as int) == Err::<
                Seq<(TokenView, int, int)>,
                (Seq<char>, int, int),
            >(e.model()),
        },
    decreases src@.len() - i,
{
    if i >= src.unicode_len() {
        proof {
            assert(final(toks).items_view() =~= old(toks).items_view() + Seq::<
                (TokenView, int, int),
            >::empty());
        }
        return Ok(());
    }
    let c = src.get_char(i);
    let col2 = col + 1;
    if c == '(' {
        toks.push(Token::LParen, line, col2);
        let ghost mid = toks.items_view();
        let r = lex_at(src, i + 1, line, col2, toks);
        proof {
            assert(mid =~= old(toks).items_view().push(
                (TokenView::LParen, line as int, col2 as int),
            ));
            if r is Ok {
                assert(toks.items_view() =~= old(toks).items_view() + (seq![
                    (TokenView::LParen, line as int, col2 as int),
                ] + lex_from(src@, i + 1, line as int, col2 as int)->Ok_0));
            }
        }
        r
    } else if c == ')' {
        toks.push(Token::RParen, line, col2);
        let ghost mid = toks.items_view();
        let r = lex_at(src, i + 1, line, col2, toks);
        proof {
            assert(mid =~= old(toks).items_view().push(
                (TokenView::RParen, line as int, col2 as int),
            ));
            if r is Ok {
                assert(toks.items_view() =~= old(toks).items_view() + (seq![
                    (TokenView::RParen, line as int, col2 as int),
                ] + lex_from(src@, i + 1, line as int, col2 as int)->Ok_0));
            }
        }
        r
    } else if c == '\n' {
        lex_at(src, i + 1, line + 1, 0, toks)
    } else if c == ' ' || c == '\t' {
        lex_at(src, i + 1, line, col2, toks)
    } else if c == '#' {
        let k = skip_comment_exec(src, i + 1, line, col2);
        lex_at(src, k.0, k.1, k.2, toks)
    } else if is_id_char_exec(c) {
        let end = id_end_exec(src, i + 1);
        let text = src.substring_char(i, end).to_owned();
        toks.push(Token::Id(text), line, col2);
        let ghost mid = toks.items_view();
        let ghost idv = TokenView::Id(src@.subrange(i as int, end as int));
        let r = lex_at(src, end, line, col + (end - i) as u64, toks);
        proof {
            assert(mid =~= old(toks).items_view().push((idv, line as int, col2 as int)));
            if r is Ok {
                assert(toks.items_view() =~= old(toks).items_view() + (seq![
                    (idv, line as int, col2 as int),
                ] + lex_from(src@, end as int, line as int, col as int + (end - i))->Ok_0));
            }
        }
        r
    } else if c == '"' {
        let sres = lex_string(src, i + 1, line, col2, col2, false, String::new(), String::new());
        match sres {
            Err(e) => Err(e),
            Ok(k) => {
                toks.push(Token::Str(k.0), k.2, col2);
                let ghost mid = toks.items_view();
                let ghost sv = lex_str_from(
                    src@,
                    i + 1,
                    line as int,
                    col2 as int,
                    col2 as int,
                    false,
                    Seq::empty(),
                )->Ok_0;
                let r = lex_at(src, k.1, k.2, k.3, toks);
                proof {
                    assert(mid =~= old(toks).items_view().push(
                        (TokenView::Str(sv.0), k.2 as int, col2 as int),
                    ));
                    if r is Ok {
                        assert(toks.items_view() =~= old(toks).items_view() + (seq![
                            (TokenView::Str(sv.0), k.2 as int, col2 as int),
                        ] + lex_from(src@, k.1 as int, k.2 as int, k.3 as int)->Ok_0));
                    }
                }
                r
            },
        }
    } else {
        Err(LexError::new("unexpected character", line, col2))
    }
}

/// Tokenizes `src`; the result is exactly what the model [`lex_from`]
/// yields from the start of the text.
pub fn lex(src: &str) -> (r: Result<Tokens, LexError>)
    requires
        src@.len() + 3 <= u64::MAX,
    ensures
        match r {
            Ok(t) => {
                &&& t.wf()
                &&& lex_from(src@, 0, 1, 0) == Ok::<
                    Seq<(TokenView, int, int)>,
                    (Seq<char>, int, int),
                >(t.items_view())
            },
            Err(e) => lex_from(src@, 0, 1, 0) == Err::<
                Seq<(TokenView, int, int)>,
                (Seq<char>, int, int),
            >(e.model()),
        },
{
    let mut toks = Tokens::new();
    proof {
        assert(toks.items_view() =~= Seq::<(TokenView, int, int)>::empty());
    }
    match lex_at(src, 0, 1, 0, &mut toks) {
        Ok(_) => {
            proof {
                assert(Seq::<(TokenView, int, int)>::empty() + lex_from(src@, 0, 1, 0)->Ok_0
                    =~= lex_from(src@, 0, 1, 0)->Ok_0);
            }
            Ok(toks)
        },
        Err(e) => Err(e),
    }
}

} // verus!
