//! Fixed-point textual substitution of `$name` references.
//!
//! A template is scanned for the first `$name` occurrence that is not the
//! second half of a `$$` escape; the reference is resolved (an override
//! table takes precedence over the global table), the value is spliced in,
//! and scanning restarts from the beginning of the mutated string.  When no
//! occurrence remains, every `$$` pair collapses into a literal `$`.
//!
//! The whole process is modelled by [`expand_n`], a step-indexed spec
//! function: `expand_n(g, ov, s, n)` is the outcome after at most `n`
//! substitutions (`More` when `n` substitutions were not enough).  The
//! executable [`expand_tables`] runs the same algorithm with a large fuel
//! bound and relates its result to `expand_n`.

use vstd::prelude::*;
use vstd::string::StrSliceExecFns;
use vstd::string::StringExecFns;

verus! {

/// Substitutions performed before the executable expander gives up on a
/// template that never reaches a fixed point.
pub const EXPAND_LIMIT: u64 = 0xFFFF_FFFF;

/// The characters that may make up a variable name after the `$`.
pub open spec fn is_name_char(c: char) -> bool {
    c == '_' || ('a' <= c && c <= 'z') || ('A' <= c && c <= 'Z') || c == ')'
}

/// A variable reference begins at `i`: a `$` followed by at least one name
/// character, where the `$` is not itself preceded by a `$` (that pair is
/// the `$$` escape).
pub open spec fn ref_at(s: Seq<char>, i: int) -> bool {
    &&& 0 <= i
    &&& i + 1 < s.len()
    &&& s[i] == '$'
    &&& is_name_char(s[i + 1])
    &&& (i == 0 || s[i - 1] != '$')
}

/// The position of the first variable reference at or after `i`.
pub open spec fn first_ref_from(s: Seq<char>, i: int) -> Option<int>
    decreases s.len() - i when 0 <= i <= s.len()
{
    if i >= s.len() {
        None
    } else if ref_at(s, i) {
        Some(i)
    } else {
        first_ref_from(s, i + 1)
    }
}

/// The end of the maximal run of name characters starting at `j`.
pub open spec fn name_end_from(s: Seq<char>, j: int) -> int
    decreases s.len() - j when 0 <= j <= s.len()
{
    if j >= s.len() {
        j
    } else if is_name_char(s[j]) {
        name_end_from(s, j + 1)
    } else {
        j
    }
}

/// An association table as its mathematical value: name/value pairs of
/// character sequences.
pub open spec fn table_view(t: Seq<(String, String)>) -> Seq<(Seq<char>, Seq<char>)> {
    t.map_values(|p: (String, String)| (p.0@, p.1@))
}

/// First-match lookup in an association table.
pub open spec fn table_lookup(t: Seq<(Seq<char>, Seq<char>)>, name: Seq<char>) -> Option<Seq<char>>
    decreases t.len()
{
    if t.len() == 0 {
        None
    } else if t[0].0 == name {
        Some(t[0].1)
    } else {
        table_lookup(t.drop_first(), name)
    }
}

/// Resolution of a name: an override value takes precedence over a global.
pub open spec fn resolve(
    globals: Seq<(Seq<char>, Seq<char>)>,
    overrides: Seq<(Seq<char>, Seq<char>)>,
    name: Seq<char>,
) -> Option<Seq<char>> {
    match table_lookup(overrides, name) {
        Some(v) => Some(v),
        None => table_lookup(globals, name),
    }
}

/// Left-to-right, non-overlapping collapse of every `$$` pair into `$`.
pub open spec fn collapse(s: Seq<char>) -> Seq<char>
    decreases s.len(),
{
    if s.len() >= 2 && s[0] == '$' && s[1] == '$' {
        seq!['$'] + collapse(s.skip(2))
    } else if s.len() >= 1 {
        seq![s[0]] + collapse(s.skip(1))
    } else {
        Seq::empty()
    }
}

/// `s` with the reference `[i, end)` replaced by `value`.
pub open spec fn splice(s: Seq<char>, i: int, end: int, value: Seq<char>) -> Seq<char> {
    s.subrange(0, i) + value + s.subrange(end, s.len() as int)
}

/// What one expansion run can end in.
pub enum ExpandOutcome {
    /// No reference remained; the collapsed fixed point.
    Done(Seq<char>),
    /// The first reference named an unknown variable.
    Fail(Seq<char>),
    /// More than `n` substitutions would be needed.
    More,
}

/// The outcome of expanding `s` with at most `n` substitutions.
pub open spec fn expand_n(
    globals: Seq<(Seq<char>, Seq<char>)>,
    overrides: Seq<(Seq<char>, Seq<char>)>,
    s: Seq<char>,
    n: nat,
) -> ExpandOutcome
    decreases n,
{
    match first_ref_from(s, 0) {
        None => ExpandOutcome::Done(collapse(s)),
        Some(i) => {
            let end = name_end_from(s, i + 1);
            let name = s.subrange(i + 1, end);
            match resolve(globals, overrides, name) {
                None => ExpandOutcome::Fail(name),
                Some(v) => if n == 0 {
                    ExpandOutcome::More
                } else {
                    expand_n(globals, overrides, splice(s, i, end, v), (n - 1) as nat)
                },
            }
        },
    }
}

/// Once an expansion has settled (anything but `More`), giving it more fuel
/// cannot change the outcome: the algorithm is deterministic.
pub proof fn lemma_expand_determined(
    globals: Seq<(Seq<char>, Seq<char>)>,
    overrides: Seq<(Seq<char>, Seq<char>)>,
    s: Seq<char>,
    m: nat,
    n: nat,
)
    requires
        m <= n,
        expand_n(globals, overrides, s, m) != ExpandOutcome::More,
    ensures
        expand_n(globals, overrides, s, n) == expand_n(globals, overrides, s, m),
    decreases m,
{
    match first_ref_from(s, 0) {
        None => {},
        Some(i) => {
            let end = name_end_from(s, i + 1);
            let name = s.subrange(i + 1, end);
            match resolve(globals, overrides, name) {
                None => {},
                Some(v) => {
                    lemma_expand_determined(
                        globals,
                        overrides,
                        splice(s, i, end, v),
                        (m - 1) as nat,
                        (n - 1) as nat,
                    );
                },
            }
        },
    }
}

/// The error message for a reference to an unknown name.
pub open spec fn unknown_msg(name: Seq<char>) -> Seq<char> {
    "Unrecognized parameter in expansion: "@ + name
}

/// The error message for an expansion that did not settle within
/// [`EXPAND_LIMIT`] substitutions.
pub open spec fn limit_msg() -> Seq<char> {
    "Expansion did not reach a fixed point"@
}

/// The table an `Option`al override argument stands for.
pub open spec fn opt_table(o: Option<&Vec<(String, String)>>) -> Seq<(Seq<char>, Seq<char>)> {
    match o {
        Some(t) => table_view(t@),
        None => Seq::empty(),
    }
}

/// Character-for-character string comparison.
pub fn str_eq(a: &str, b: &str) -> (r: bool)
    ensures
        r == (a@ == b@),
{
    let an = a.unicode_len();
    let bn = b.unicode_len();
    if an != bn {
        return false;
    }
    let mut i: usize = 0;
    while i < an
        invariant
            i <= an,
            an == a@.len(),
            an == b@.len(),
            forall|j: int| 0 <= j < i ==> a@[j] == b@[j],
        decreases an - i,
    {
        if a.get_char(i) != b.get_char(i) {
            return false;
        }
        i += 1;
    }
    proof {
        assert(a@ =~= b@);
    }
    true
}

fn is_name_char_exec(c: char) -> (r: bool)
    ensures
        r == is_name_char(c),
{
    c == '_' || ('a' <= c && c <= 'z') || ('A' <= c && c <= 'Z') || c == ')'
}

/// Finds the first variable reference: `Some((start, end))` where `start`
/// points at the `$` and `[start + 1, end)` is the name.
fn find_ref(s: &str) -> (r: Option<(usize, usize)>)
    ensures
        match r {
            Some(p) => {
                &&& first_ref_from(s@, 0) == Some(p.0 as int)
                &&& p.1 == name_end_from(s@, p.0 + 1)
                &&& p.0 + 1 < s@.len()
                &&& p.0 + 1 <= p.1 <= s@.len()
            },
            None => first_ref_from(s@, 0) is None,
        },
{
    let n = s.unicode_len();
    let mut i: usize = 0;
    while i < n
        invariant
            i <= n,
            n == s@.len(),
            first_ref_from(s@, 0) == first_ref_from(s@, i as int),
        decreases n - i,
    {
        let here = s.get_char(i) == '$' && i + 1 < n && is_name_char_exec(s.get_char(i + 1)) && (i
            == 0 || s.get_char(i - 1) != '$');
        if here {
            assert(ref_at(s@, i as int));
            let mut j: usize = i + 1;
            while j < n && is_name_char_exec(s.get_char(j))
                invariant
                    i + 1 <= j <= n,
                    n == s@.len(),
                    name_end_from(s@, i + 1) == name_end_from(s@, j as int),
                decreases n - j,
            {
                j += 1;
            }
            return Some((i, j));
        }
        assert(!ref_at(s@, i as int));
        i += 1;
    }
    None
}

/// Collapses every `$$` pair in `s` into a single `$`.
fn collapse_exec(s: &str) -> (r: String)
    ensures
        r@ == collapse(s@),
{
    let n = s.unicode_len();
    let mut out = String::new();
    let mut i: usize = 0;
    proof {
        reveal_strlit("$");
        assert(s@.skip(0) =~= s@);
        assert(out@ + collapse(s@) =~= collapse(s@));
    }
    while i < n
        invariant
            i <= n,
            n == s@.len(),
            "$"@ =~= seq!['$'],
            collapse(s@) == out@ + collapse(s@.skip(i as int)),
        decreases n - i,
    {
        let ghost rest = s@.skip(i as int);
        if i + 1 < n && s.get_char(i) == '$' && s.get_char(i + 1) == '$' {
            out.append("$");
            proof {
                assert(rest.len() >= 2 && rest[0] == '$' && rest[1] == '$');
                assert(collapse(rest) == seq!['$'] + collapse(rest.skip(2)));
                assert(rest.skip(2) =~= s@.skip(i + 2));
            }
            i += 2;
        } else {
            let piece = s.substring_char(i, i + 1);
            out.append(piece);
            proof {
                assert(rest.len() >= 1 && rest[0] == s@[i as int]);
                assert(collapse(rest) == seq![s@[i as int]] + collapse(rest.skip(1)));
                assert(rest.skip(1) =~= s@.skip(i + 1));
                assert(piece@ =~= seq![s@[i as int]]);
            }
            i += 1;
        }
    }
    proof {
        assert(s@.skip(n as int) =~= Seq::<char>::empty());
        assert(collapse(Seq::<char>::empty()) =~= Seq::<char>::empty());
        assert(out@ =~= collapse(s@));
    }
    out
}

/// First-match lookup of `name` in `t`.
pub fn table_get<'a>(t: &'a Vec<(String, String)>, name: &str) -> (r: Option<&'a String>)
    ensures
        match r {
            Some(v) => table_lookup(table_view(t@), name@) == Some(v@),
            None => table_lookup(table_view(t@), name@) is None,
        },
{
    let n = t.len();
    let mut i: usize = 0;
    let ghost w = table_view(t@);
    proof {
        assert(w.skip(0) =~= w);
    }
    while i < n
        invariant
            i <= n,
            n == t@.len(),
            w == table_view(t@),
            w.len() == n,
            table_lookup(w, name@) == table_lookup(w.skip(i as int), name@),
        decreases n - i,
    {
        let ghost rest = w.skip(i as int);
        proof {
            assert(rest[0] == w[i as int]);
            assert(w[i as int] == (t@[i as int].0@, t@[i as int].1@));
            assert(rest.drop_first() =~= w.skip(i + 1));
        }
        if str_eq(t[i].0.as_str(), name) {
            return Some(&t[i].1);
        }
        i += 1;
    }
    proof {
        assert(w.skip(n as int) =~= Seq::<(Seq<char>, Seq<char>)>::empty());
    }
    None
}

/// Expands `msg` against `globals`, with `overrides` taking precedence.
///
/// The result is exactly what the step-indexed model [`expand_n`] settles
/// on: `Ok(out)` when some number of substitutions reaches a reference-free
/// string that collapses to `out`; `Err` carrying [`unknown_msg`] when the
/// first remaining reference cannot be resolved, and [`limit_msg`] when
/// [`EXPAND_LIMIT`] substitutions were not enough.
pub fn expand_tables(
    globals: &Vec<(String, String)>,
    overrides: Option<&Vec<(String, String)>>,
    msg: &str,
) -> (r: Result<String, String>)
    ensures
        ({
            let g = table_view(globals@);
            let ov = opt_table(overrides);
            match r {
                Ok(out) => exists|n: nat|
                    n <= EXPAND_LIMIT && #[trigger] expand_n(g, ov, msg@, n)
                        == ExpandOutcome::Done(out@),
                Err(e) => {
                    ||| exists|n: nat|
                        {
                            &&& #[trigger] expand_n(g, ov, msg@, n) is Fail
                            &&& e@ == unknown_msg(expand_n(g, ov, msg@, n)->Fail_0)
                        }
                    ||| {
                        &&& expand_n(g, ov, msg@, EXPAND_LIMIT as nat) == ExpandOutcome::More
                        &&& e@ == limit_msg()
                    }
                },
            }
        }),
{
    let ghost g = table_view(globals@);
    let ghost ov = opt_table(overrides);
    let mut cur: String = msg.to_owned();
    let mut fuel: u64 = EXPAND_LIMIT;
    loop
        invariant
            g == table_view(globals@),
            ov == opt_table(overrides),
            fuel <= EXPAND_LIMIT,
            forall|n: nat| #[trigger]
                expand_n(g, ov, cur@, n) == expand_n(
                    g,
                    ov,
                    msg@,
                    (n + EXPAND_LIMIT - fuel) as nat,
                ),
        decreases fuel,
    {
        let ghost steps = (EXPAND_LIMIT - fuel) as nat;
        match find_ref(cur.as_str()) {
            None => {
                let out = collapse_exec(cur.as_str());
                proof {
                    assert(expand_n(g, ov, cur@, 0) == ExpandOutcome::Done(collapse(cur@)));
                    assert(expand_n(g, ov, msg@, steps) == ExpandOutcome::Done(out@));
                }
                return Ok(out);
            },
            Some((start, end)) => {
                let name = cur.as_str().substring_char(start + 1, end);
                let ghost name_v = cur@.subrange(start + 1, end as int);
                assert(name@ =~= name_v);
                let over_hit: Option<&String> = match overrides {
                    Some(o) => table_get(o, name),
                    None => None,
                };
                let rep: &String = match over_hit {
                    Some(v) => v,
                    None => {
                        match table_get(globals, name) {
                            Some(v) => v,
                            None => {
                                let em = String::from_str(
                                    "Unrecognized parameter in expansion: ",
                                ).concat(name);
                                proof {
                                    if overrides is None {
                                        assert(ov =~= Seq::<(Seq<char>, Seq<char>)>::empty());
                                    }
                                    assert(table_lookup(ov, name_v) is None);
                                    assert(resolve(g, ov, name_v) is None);
                                    assert(expand_n(g, ov, cur@, 0) == ExpandOutcome::Fail(name_v));
                                    assert(expand_n(g, ov, msg@, steps) == ExpandOutcome::Fail(
                                        name_v,
                                    ));
                                    assert(em@ == unknown_msg(name_v));
                                }
                                return Err(em);
                            },
                        }
                    },
                };
                proof {
                    assert(resolve(g, ov, name_v) == Some(rep@));
                }
                if fuel == 0 {
                    proof {
                        assert(expand_n(g, ov, cur@, 0) == ExpandOutcome::More);
                        assert(expand_n(g, ov, msg@, EXPAND_LIMIT as nat) == ExpandOutcome::More);
                    }
                    return Err(String::from_str("Expansion did not reach a fixed point"));
                }
                let next = cur.as_str().substring_char(0, start).to_owned().concat(
                    rep.as_str(),
                ).concat(cur.as_str().substring_char(end, cur.as_str().unicode_len()));
                proof {
                    assert(next@ =~= splice(cur@, start as int, end as int, rep@));
                    assert forall|n: nat| #[trigger] expand_n(g, ov, next@, n) == expand_n(
                        g,
                        ov,
                        msg@,
                        (n + EXPAND_LIMIT - (fuel - 1)) as nat,
                    ) by {
                        assert(expand_n(g, ov, cur@, n + 1) == expand_n(g, ov, next@, n));
                        assert(expand_n(g, ov, cur@, n + 1) == expand_n(
                            g,
                            ov,
                            msg@,
                            (n + 1) + steps,
                        ));
                    }
                }
                cur = next;
                fuel = fuel - 1;
            },
        }
    }
}

} // verus!
