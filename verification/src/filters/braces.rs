//! Brace expansion of patterns: `{a,b}` alternatives and `{1..5}` /
//! `{a..e}` ranges, bounded in number.

use vstd::prelude::*;

use super::error::ParseError;
use super::numbers::{format_padded, format_padded_exec, parse_i64, parse_i64_exec, parse_u32, parse_u32_exec};
use super::text::{chars_of, find_char_from, find_from, lemma_find_from, push_chars, slice_chars, string_of, views_of};
use super::util::strings_view;

verus! {

/// The most strings one pattern may expand to.
pub const MAX_BRACE_EXPANSIONS: usize = 10_000;

/// The index of the `}` that closes the brace group scanned from `i` with
/// `depth` groups open, if any.
pub open spec fn group_close(p: Seq<char>, i: nat, depth: int) -> Option<nat>
    decreases p.len() - i,
{
    if i >= p.len() {
        None
    } else {
        let c = p[i as int];
        let d = if c == '{' {
            depth + 1
        } else if c == '}' {
            depth - 1
        } else {
            depth
        };
        if c == '}' && d == 0 {
            Some(i)
        } else {
            group_close(p, i + 1, d)
        }
    }
}

pub proof fn lemma_group_close(p: Seq<char>, i: nat, depth: int)
    ensures
        group_close(p, i, depth) matches Some(e) ==> i <= e < p.len(),
    decreases p.len() - i,
{
    if i < p.len() {
        let c = p[i as int];
        let d = if c == '{' {
            depth + 1
        } else if c == '}' {
            depth - 1
        } else {
            depth
        };
        if !(c == '}' && d == 0) {
            lemma_group_close(p, i + 1, d);
        }
    }
}

/// The state of splitting a brace body at top-level commas.
pub struct TopSplit {
    pub parts: Seq<Seq<char>>,
    pub part: Seq<char>,
    pub depth: int,
}

pub open spec fn top_split_scan(body: Seq<char>, n: nat) -> TopSplit
    decreases n,
{
    if n == 0 {
        TopSplit { parts: Seq::empty(), part: Seq::empty(), depth: 0 }
    } else {
        let st = top_split_scan(body, (n - 1) as nat);
        let c = body[n - 1];
        if c == '{' {
            TopSplit { part: st.part.push(c), depth: st.depth + 1, ..st }
        } else if c == '}' {
            TopSplit { part: st.part.push(c), depth: st.depth - 1, ..st }
        } else if c == ',' && st.depth == 0 {
            TopSplit { parts: st.parts.push(st.part), part: Seq::empty(), ..st }
        } else {
            TopSplit { part: st.part.push(c), ..st }
        }
    }
}

/// The alternatives of a brace body: its parts between commas that are not
/// inside a nested group.
pub open spec fn split_top(body: Seq<char>) -> Seq<Seq<char>> {
    let st = top_split_scan(body, body.len());
    st.parts.push(st.part)
}

/// The parts of `s` between `..` separators from `start` on, as
/// `str::split("..")` gives them.
pub open spec fn split_dots_from(s: Seq<char>, start: nat) -> Seq<Seq<char>>
    decreases s.len() + 1 - start,
{
    if start > s.len() {
        Seq::empty()
    } else {
        match dots_at(s, start) {
            Some(i) => {
                proof {
                    lemma_dots_at(s, start);
                }
                seq![s.subrange(start as int, i as int)] + split_dots_from(s, i + 2)
            },
            None => seq![s.subrange(start as int, s.len() as int)],
        }
    }
}

/// The first `..` at or after `i`.
pub open spec fn dots_at(s: Seq<char>, i: nat) -> Option<nat>
    decreases s.len() - i,
{
    if i + 1 >= s.len() {
        None
    } else if s[i as int] == '.' && s[(i + 1) as int] == '.' {
        Some(i)
    } else {
        dots_at(s, i + 1)
    }
}

pub proof fn lemma_dots_at(s: Seq<char>, i: nat)
    ensures
        dots_at(s, i) matches Some(k) ==> i <= k && k + 1 < s.len(),
    decreases s.len() - i,
{
    if i + 1 < s.len() && !(s[i as int] == '.' && s[(i + 1) as int] == '.') {
        lemma_dots_at(s, i + 1);
    }
}

/// The values from `i` on, `s` apart, that stay on `i`'s side of `b`, each
/// printed zero-padded to `w`.
pub open spec fn number_run(i: int, b: int, s: int, w: nat) -> Seq<Seq<char>>
    decreases (if s > 0 {
        b - i + s
    } else {
        i - b - s
    }),
{
    if s == 0 || (s > 0 && i > b) || (s < 0 && i < b) {
        Seq::empty()
    } else {
        seq![format_padded(i, w)] + number_run(i + s, b, s, w)
    }
}

/// The characters with codes from `i` up to `b`, `s` apart.
pub open spec fn char_run(i: int, b: int, s: int) -> Seq<Seq<char>>
    decreases b - i + s,
{
    if s <= 0 || i > b {
        Seq::empty()
    } else {
        seq![seq![(i as u8) as char]] + char_run(i + s, b, s)
    }
}

/// What a brace alternative expands to as a range: `Ok(None)` when it is
/// no range, `Err(())` when the range has more than the allowed number of
/// values. Numeric ranges `a..b[..s]` are zero-padded to the wider bound;
/// single ASCII characters give a character range.
pub open spec fn range_of(part: Seq<char>) -> Result<Option<Seq<Seq<char>>>, ()> {
    let ps = split_dots_from(part, 0);
    if ps.len() < 2 || ps.len() > 3 {
        Ok(None)
    } else {
        let start = ps[0];
        let end = ps[1];
        let step = if ps.len() == 3 {
            ps[2]
        } else {
            seq!['1']
        };
        match (parse_i64(start), parse_i64(end), parse_i64(step)) {
            (Some(a), Some(b), Some(s)) => {
                if s == 0 {
                    Ok(None)
                } else if (a <= b && s > 0) || (a >= b && s < 0) {
                    let w: nat = if start.len() >= end.len() {
                        start.len()
                    } else {
                        end.len()
                    };
                    let r = number_run(a, b, s, w);
                    if r.len() > MAX_BRACE_EXPANSIONS {
                        Err(())
                    } else {
                        Ok(Some(r))
                    }
                } else {
                    Ok(None)
                }
            },
            _ => {
                // A letter range needs both ends one byte long in UTF-8, so
                // only ASCII ends make one; `{α..γ}` is no range.
                if start.len() == 1 && end.len() == 1 && (start[0] as u32) < 128 && (end[0] as u32)
                    < 128 {
                    let a = start[0] as u32 as int;
                    let b = end[0] as u32 as int;
                    let s = if ps.len() == 3 {
                        match parse_u32(ps[2]) {
                            Some(v) => v,
                            None => 1,
                        }
                    } else {
                        1
                    };
                    if a <= b && s > 0 {
                        let r = char_run(a, b, s);
                        if r.len() > MAX_BRACE_EXPANSIONS {
                            Err(())
                        } else {
                            Ok(Some(r))
                        }
                    } else {
                        Ok(None)
                    }
                } else {
                    Ok(None)
                }
            },
        }
    }
}

/// The alternatives of a group after ranges are expanded, or `None` when a
/// range has too many values.
pub open spec fn parts_expand(ps: Seq<Seq<char>>) -> Option<Seq<Seq<char>>>
    decreases ps.len(),
{
    if ps.len() == 0 {
        Some(Seq::empty())
    } else {
        match parts_expand(ps.drop_last()) {
            None => None,
            Some(acc) => match range_of(ps.last()) {
                Err(()) => None,
                Ok(Some(r)) => Some(acc + r),
                Ok(None) => Some(acc.push(ps.last())),
            },
        }
    }
}

/// `prefix` put before each of `xs`.
pub open spec fn prefixed(prefix: Seq<char>, xs: Seq<Seq<char>>) -> Seq<Seq<char>> {
    xs.map_values(|t: Seq<char>| prefix + t)
}

/// Each alternative of `ps`, after `pre`, followed by each of `tails`.
pub open spec fn cross(pre: Seq<char>, ps: Seq<Seq<char>>, tails: Seq<Seq<char>>) -> Seq<
    Seq<char>,
>
    decreases ps.len(),
{
    if ps.len() == 0 {
        Seq::empty()
    } else {
        cross(pre, ps.drop_last(), tails) + prefixed(pre + ps.last(), tails)
    }
}

/// The strings a pattern expands to, or `None` when some range in it has
/// too many values: the first brace group with a matching `}` is replaced
/// by each of its alternatives in turn, and the rest is expanded likewise;
/// a pattern without such a group stands for itself.
pub open spec fn brace_expansion(p: Seq<char>) -> Option<Seq<Seq<char>>>
    decreases p.len(),
{
    let start = find_from(p, '{', 0);
    if start >= p.len() {
        Some(seq![p])
    } else {
        match group_close(p, start, 0) {
            None => Some(seq![p]),
            Some(end) => {
                proof {
                    lemma_group_close(p, start, 0);
                }
                let pre = p.take(start as int);
                let body = p.subrange((start + 1) as int, end as int);
                let suffix = p.skip((end + 1) as int);
                match parts_expand(split_top(body)) {
                    None => None,
                    Some(ps) => match brace_expansion(suffix) {
                        None => None,
                        Some(tails) => Some(cross(pre, ps, tails)),
                    },
                }
            },
        }
    }
}

fn group_close_exec(p: &[char], start: usize) -> (r: Option<usize>)
    requires
        start <= p@.len(),
    ensures
        match r {
            Some(e) => group_close(p@, start as nat, 0) == Some(e as nat),
            None => group_close(p@, start as nat, 0) is None,
        },
{
    let mut depth: i128 = 0;
    let mut i = start;
    while i < p.len()
        invariant
            start <= i <= p@.len(),
            -(i as int) <= depth <= i,
            group_close(p@, i as nat, depth as int) == group_close(p@, start as nat, 0),
        decreases p@.len() - i,
    {
        let c = p[i];
        if c == '{' {
            depth = depth + 1;
        } else if c == '}' {
            depth = depth - 1;
            if depth == 0 {
                return Some(i);
            }
        }
        i = i + 1;
    }
    None
}

fn split_top_exec(body: &[char]) -> (r: Vec<Vec<char>>)
    ensures
        views_of(r@) == split_top(body@),
{
    let mut parts: Vec<Vec<char>> = Vec::new();
    let mut part: Vec<char> = Vec::new();
    let mut depth: i128 = 0;
    let mut i: usize = 0;
    while i < body.len()
        invariant
            i <= body@.len(),
            -(i as int) <= depth <= i,
            ({
                let st = top_split_scan(body@, i as nat);
                &&& st.parts == views_of(parts@)
                &&& st.part == part@
                &&& st.depth == depth as int
            }),
        decreases body@.len() - i,
    {
        let c = body[i];
        if c == '{' {
            depth = depth + 1;
            part.push(c);
        } else if c == '}' {
            depth = depth - 1;
            part.push(c);
        } else if c == ',' && depth == 0 {
            let ghost before = views_of(parts@);
            let done = part;
            part = Vec::new();
            parts.push(done);
            proof {
                assert(views_of(parts@) =~= before.push(done@));
            }
        } else {
            part.push(c);
        }
        i = i + 1;
    }
    let ghost before = views_of(parts@);
    let last = part;
    parts.push(last);
    proof {
        assert(views_of(parts@) =~= before.push(last@));
    }
    parts
}

fn dots_at_exec(s: &[char], i: usize) -> (r: Option<usize>)
    ensures
        match r {
            Some(k) => dots_at(s@, i as nat) == Some(k as nat),
            None => dots_at(s@, i as nat) is None,
        },
{
    let mut k = i;
    while k < s.len() && s.len() - k >= 2
        invariant
            i <= k,
            dots_at(s@, k as nat) == dots_at(s@, i as nat),
        decreases s@.len() - k,
    {
        if s[k] == '.' && s[k + 1] == '.' {
            return Some(k);
        }
        k = k + 1;
    }
    None
}

fn split_dots_exec(s: &[char]) -> (r: Vec<Vec<char>>)
    ensures
        views_of(r@) == split_dots_from(s@, 0),
{
    let mut r: Vec<Vec<char>> = Vec::new();
    let mut start: usize = 0;
    loop
        invariant
            start <= s@.len(),
            views_of(r@) + split_dots_from(s@, start as nat) == split_dots_from(s@, 0),
        decreases s@.len() - start,
    {
        let ghost before = views_of(r@);
        let ghost rest = split_dots_from(s@, start as nat);
        match dots_at_exec(s, start) {
            Some(i) => {
                proof {
                    lemma_dots_at(s@, start as nat);
                }
                assert(start <= i && i + 2 <= s.len());
                let part = slice_chars(s, start, i);
                r.push(part);
                proof {
                    assert(views_of(r@) =~= before.push(part@));
                    assert(before + rest =~= views_of(r@) + split_dots_from(s@, (i + 2) as nat));
                }
                start = i + 2;
            },
            None => {
                let part = slice_chars(s, start, s.len());
                r.push(part);
                proof {
                    assert(views_of(r@) =~= before.push(part@));
                    assert(rest =~= seq![part@]);
                }
                assert(views_of(r@) =~= split_dots_from(s@, 0));
                return r;
            },
        }
    }
}

/// The numeric range from `a` to `b` in steps of `s`, or `None` when it has
/// more than the allowed number of values.
fn number_run_exec(a: i64, b: i64, s: i64, w: usize) -> (r: Option<Vec<Vec<char>>>)
    requires
        s != 0,
        s > 0 ==> a <= b,
        s < 0 ==> a >= b,
    ensures
        match r {
            Some(v) => views_of(v@) == number_run(a as int, b as int, s as int, w as nat)
                && v@.len() <= MAX_BRACE_EXPANSIONS,
            None => number_run(a as int, b as int, s as int, w as nat).len() > MAX_BRACE_EXPANSIONS,
        },
{
    let mut out: Vec<Vec<char>> = Vec::new();
    let mut i: i128 = a as i128;
    while (s > 0 && i <= b as i128) || (s < 0 && i >= b as i128)
        invariant
            s != 0,
            out@.len() <= MAX_BRACE_EXPANSIONS,
            views_of(out@) + number_run(i as int, b as int, s as int, w as nat) == number_run(
                a as int,
                b as int,
                s as int,
                w as nat,
            ),
            (s > 0 ==> a <= i <= b as int + s as int),
            (s < 0 ==> b as int + s as int <= i <= a),
        decreases (if s > 0 {
            b - i + s
        } else {
            i - b - s
        }),
    {
        let v = format_padded_exec(i as i64, w);
        let ghost before = views_of(out@);
        out.push(v);
        proof {
            assert(views_of(out@) =~= before.push(v@));
            assert(views_of(out@) + number_run(i + s, b as int, s as int, w as nat) =~= before
                + number_run(i as int, b as int, s as int, w as nat));
        }
        i = i + s as i128;
        if out.len() > MAX_BRACE_EXPANSIONS {
            proof {
                assert((views_of(out@) + number_run(i as int, b as int, s as int, w as nat)).len()
                    >= out@.len());
            }
            return None;
        }
    }
    assert(number_run(i as int, b as int, s as int, w as nat) =~= Seq::<Seq<char>>::empty());
    assert(views_of(out@) + Seq::<Seq<char>>::empty() =~= views_of(out@));
    Some(out)
}

/// The character range from code `a` to code `b` in steps of `s`, or
/// `None` when it has more than the allowed number of values.
fn char_run_exec(a: u32, b: u32, s: u32) -> (r: Option<Vec<Vec<char>>>)
    requires
        s > 0,
        a <= b,
        b < 128,
    ensures
        match r {
            Some(v) => views_of(v@) == char_run(a as int, b as int, s as int) && v@.len()
                <= MAX_BRACE_EXPANSIONS,
            None => char_run(a as int, b as int, s as int).len() > MAX_BRACE_EXPANSIONS,
        },
{
    let mut out: Vec<Vec<char>> = Vec::new();
    let mut i: u64 = a as u64;
    while i <= b as u64
        invariant
            s > 0,
            b < 128,
            i <= b as int + s as int,
            out@.len() <= MAX_BRACE_EXPANSIONS,
            views_of(out@) + char_run(i as int, b as int, s as int) == char_run(
                a as int,
                b as int,
                s as int,
            ),
        decreases b - i + s,
    {
        let mut one: Vec<char> = Vec::new();
        one.push((i as u8) as char);
        let ghost before = views_of(out@);
        out.push(one);
        proof {
            assert(views_of(out@) =~= before.push(seq![(i as u8) as char]));
            assert(views_of(out@) + char_run(i + s, b as int, s as int) =~= before + char_run(
                i as int,
                b as int,
                s as int,
            ));
        }
        i = i + s as u64;
        if out.len() > MAX_BRACE_EXPANSIONS {
            proof {
                assert((views_of(out@) + char_run(i as int, b as int, s as int)).len()
                    >= out@.len());
            }
            return None;
        }
    }
    assert(char_run(i as int, b as int, s as int) =~= Seq::<Seq<char>>::empty());
    assert(views_of(out@) + Seq::<Seq<char>>::empty() =~= views_of(out@));
    Some(out)
}

fn range_of_exec(part: &[char]) -> (r: Result<Option<Vec<Vec<char>>>, ()>)
    ensures
        match r {
            Ok(Some(v)) => range_of(part@) == Ok::<Option<Seq<Seq<char>>>, ()>(Some(views_of(v@))),
            Ok(None) => range_of(part@) == Ok::<Option<Seq<Seq<char>>>, ()>(None),
            Err(()) => range_of(part@) == Err::<Option<Seq<Seq<char>>>, ()>(()),
        },
{
    let ps = split_dots_exec(part);
    let ghost psv = views_of(ps@);
    if ps.len() < 2 || ps.len() > 3 {
        return Ok(None);
    }
    let start = &ps[0];
    let end = &ps[1];
    let mut one: Vec<char> = Vec::new();
    one.push('1');
    let step: &Vec<char> = if ps.len() == 3 {
        &ps[2]
    } else {
        &one
    };
    proof {
        assert(psv[0] == start@);
        assert(psv[1] == end@);
        if ps@.len() == 3 {
            assert(psv[2] == step@);
        } else {
            assert(step@ =~= seq!['1']);
        }
    }
    let pa = parse_i64_exec(start.as_slice());
    let pb = parse_i64_exec(end.as_slice());
    let pstep = parse_i64_exec(step.as_slice());
    match (pa, pb, pstep) {
        (Some(a), Some(b), Some(s)) => {
            if s == 0 {
                return Ok(None);
            }
            if (a <= b && s > 0) || (a >= b && s < 0) {
                let w = if start.len() >= end.len() {
                    start.len()
                } else {
                    end.len()
                };
                match number_run_exec(a, b, s, w) {
                    Some(v) => Ok(Some(v)),
                    None => Err(()),
                }
            } else {
                Ok(None)
            }
        },
        _ => {
            if start.len() == 1 && end.len() == 1 && (start[0] as u32) < 128 && (end[0] as u32)
                < 128 {
                let a = start[0] as u32;
                let b = end[0] as u32;
                let s: u32 = if ps.len() == 3 {
                    match parse_u32_exec(ps[2].as_slice()) {
                        Some(v) => v,
                        None => 1,
                    }
                } else {
                    1
                };
                if a <= b && s > 0 {
                    match char_run_exec(a, b, s) {
                        Some(v) => Ok(Some(v)),
                        None => Err(()),
                    }
                } else {
                    Ok(None)
                }
            } else {
                Ok(None)
            }
        },
    }
}

fn copy_chars(v: &Vec<char>) -> (r: Vec<char>)
    ensures
        r@ == v@,
{
    let r = slice_chars(v.as_slice(), 0, v.len());
    assert(v@.subrange(0, v@.len() as int) =~= v@);
    r
}

fn parts_expand_exec(ps: &Vec<Vec<char>>) -> (r: Result<Vec<Vec<char>>, ()>)
    ensures
        match r {
            Ok(v) => parts_expand(views_of(ps@)) == Some(views_of(v@)),
            Err(()) => parts_expand(views_of(ps@)) is None,
        },
{
    let ghost psv = views_of(ps@);
    let mut acc: Vec<Vec<char>> = Vec::new();
    let mut k: usize = 0;
    while k < ps.len()
        invariant
            k <= ps@.len(),
            psv == views_of(ps@),
            parts_expand(psv.take(k as int)) == Some(views_of(acc@)),
        decreases ps@.len() - k,
    {
        proof {
            assert(psv.take(k + 1).drop_last() =~= psv.take(k as int));
            assert(psv.take(k + 1).last() == ps@[k as int]@);
        }
        let ghost before = views_of(acc@);
        match range_of_exec(ps[k].as_slice()) {
            Err(()) => {
                proof {
                    lemma_parts_expand_none_stays(psv, (k + 1) as nat);
                    assert(psv.take(psv.len() as int) =~= psv);
                }
                return Err(());
            },
            Ok(Some(r)) => {
                let mut j: usize = 0;
                while j < r.len()
                    invariant
                        j <= r@.len(),
                        views_of(acc@) == before + views_of(r@).take(j as int),
                    decreases r@.len() - j,
                {
                    let c = copy_chars(&r[j]);
                    let ghost mid = views_of(acc@);
                    acc.push(c);
                    proof {
                        assert(views_of(acc@) =~= mid.push(c@));
                        assert(views_of(r@).take(j + 1) =~= views_of(r@).take(j as int).push(
                            r@[j as int]@,
                        ));
                    }
                    j = j + 1;
                }
                proof {
                    assert(views_of(r@).take(r@.len() as int) =~= views_of(r@));
                }
            },
            Ok(None) => {
                let c = copy_chars(&ps[k]);
                acc.push(c);
                proof {
                    assert(views_of(acc@) =~= before.push(ps@[k as int]@));
                }
            },
        }
        k = k + 1;
    }
    proof {
        assert(psv.take(ps@.len() as int) =~= psv);
    }
    Ok(acc)
}

proof fn lemma_parts_expand_none_stays(ps: Seq<Seq<char>>, n: nat)
    requires
        n <= ps.len(),
        parts_expand(ps.take(n as int)) is None,
    ensures
        parts_expand(ps) is None,
    decreases ps.len() - n,
{
    if n < ps.len() {
        assert(ps.take((n + 1) as int).drop_last() =~= ps.take(n as int));
        lemma_parts_expand_none_stays(ps, n + 1);
    } else {
        assert(ps.take(n as int) =~= ps);
    }
}

proof fn lemma_cross_step(pre: Seq<char>, ps: Seq<Seq<char>>, tails: Seq<Seq<char>>, j: int)
    requires
        0 <= j < ps.len(),
    ensures
        cross(pre, ps, tails.take(tails.len() as int)) == cross(pre, ps, tails),
        cross(pre, ps.take(j + 1), tails) == cross(pre, ps.take(j), tails) + prefixed(
            pre + ps[j],
            tails,
        ),
{
    assert(tails.take(tails.len() as int) =~= tails);
    assert(ps.take(j + 1).drop_last() =~= ps.take(j));
}

proof fn lemma_cross_len_mono(pre: Seq<char>, ps: Seq<Seq<char>>, tails: Seq<Seq<char>>, j: nat)
    requires
        j <= ps.len(),
    ensures
        cross(pre, ps.take(j as int), tails).len() <= cross(pre, ps, tails).len(),
    decreases ps.len() - j,
{
    if j < ps.len() {
        lemma_cross_step(pre, ps, tails, j as int);
        lemma_cross_len_mono(pre, ps, tails, j + 1);
    } else {
        assert(ps.take(j as int) =~= ps);
    }
}

/// Expands `pattern` after `prefix` into `out`, counting the strings in
/// `count`; fails once more than the allowed number were produced or a
/// range is too large.
fn expand_into(prefix: &Vec<char>, pattern: &Vec<char>, out: &mut Vec<Vec<char>>, count: &mut usize) -> (r: Result<(), ()>)
    requires
        *old(count) <= MAX_BRACE_EXPANSIONS,
    ensures
        match brace_expansion(pattern@) {
            None => r is Err,
            Some(xs) => if *old(count) + xs.len() > MAX_BRACE_EXPANSIONS {
                r is Err
            } else {
                &&& r is Ok
                &&& *final(count) == *old(count) + xs.len()
                &&& views_of(final(out)@) == views_of(old(out)@) + prefixed(prefix@, xs)
            },
        },
    decreases pattern@.len(),
{
    let p = pattern.as_slice();
    let start = find_char_from(p, '{', 0);
    let close = if start < p.len() {
        group_close_exec(p, start)
    } else {
        None
    };
    match close {
        None => {
            let mut full = copy_chars(prefix);
            push_chars(&mut full, p);
            let ghost before = views_of(out@);
            out.push(full);
            *count = *count + 1;
            proof {
                assert(views_of(out@) =~= before + prefixed(prefix@, seq![pattern@]));
            }
            if *count > MAX_BRACE_EXPANSIONS {
                return Err(());
            }
            Ok(())
        },
        Some(end) => {
            proof {
                lemma_find_from(p@, '{', 0);
                assert(p@[start as int] == '{');
                assert(group_close(p@, start as nat, 0) == group_close(p@, (start + 1) as nat, 1));
                lemma_group_close(p@, (start + 1) as nat, 1);
            }
            let pre = slice_chars(p, 0, start);
            let body = slice_chars(p, start + 1, end);
            let suffix = slice_chars(p, end + 1, p.len());
            proof {
                assert(pre@ =~= p@.take(start as int));
                assert(suffix@ =~= p@.skip(end + 1));
                assert(body@ =~= p@.subrange(start + 1, end as int));
            }
            let tops = split_top_exec(&body);
            let parts = match parts_expand_exec(&tops) {
                Ok(v) => v,
                Err(()) => {
                    return Err(());
                },
            };
            let ghost ps = views_of(parts@);
            let ghost tails_opt = brace_expansion(suffix@);
            let ghost whole = match tails_opt {
                None => None::<Seq<Seq<char>>>,
                Some(tails) => Some(cross(pre@, ps, tails)),
            };
            assert(brace_expansion(pattern@) == whole);
            let ghost old_count = *old(count);
            let ghost old_out = views_of(old(out)@);
            let mut j: usize = 0;
            while j < parts.len()
                invariant
                    j <= parts@.len(),
                    ps == views_of(parts@),
                    pre@ == p@.take(start as int),
                    tails_opt == brace_expansion(suffix@),
                    brace_expansion(pattern@) == whole,
                    old_count == *old(count),
                    old_out == views_of(old(out)@),
                    whole == (match tails_opt {
                        None => None::<Seq<Seq<char>>>,
                        Some(tails) => Some(cross(pre@, ps, tails)),
                    }),
                    suffix@.len() < pattern@.len(),
                    old_count <= MAX_BRACE_EXPANSIONS,
                    *count <= MAX_BRACE_EXPANSIONS,
                    j > 0 ==> tails_opt is Some,
                    tails_opt matches Some(tails) ==> {
                        &&& *count == old_count + cross(pre@, ps.take(j as int), tails).len()
                        &&& views_of(out@) == old_out + prefixed(
                            prefix@,
                            cross(pre@, ps.take(j as int), tails),
                        )
                    },
                    j == 0 ==> *count == old_count && views_of(out@) == old_out,
                decreases parts@.len() - j,
            {
                let mut np = copy_chars(prefix);
                push_chars(&mut np, &pre);
                push_chars(&mut np, &parts[j]);
                let ghost before_out = views_of(out@);
                let ghost before_count = *count;
                let res = expand_into(&np, &suffix, out, count);
                proof {
                    assert(ps[j as int] == parts@[j as int]@);
                    match tails_opt {
                        None => {},
                        Some(tails) => {
                            lemma_cross_step(pre@, ps, tails, j as int);
                            lemma_cross_len_mono(pre@, ps, tails, (j + 1) as nat);
                            if j == 0 {
                                assert(ps.take(0) =~= Seq::<Seq<char>>::empty());
                            }
                        },
                    }
                }
                match res {
                    Err(()) => {
                        proof {
                            if let Some(tails) = tails_opt {
                                let pj = ps[j as int];
                                assert(prefixed(pre@ + pj, tails).len() == tails.len());
                                assert(before_count == old_count + cross(
                                    pre@,
                                    ps.take(j as int),
                                    tails,
                                ).len());
                                assert(before_count + tails.len() > MAX_BRACE_EXPANSIONS);
                                assert(cross(pre@, ps.take(j + 1), tails).len() == cross(
                                    pre@,
                                    ps.take(j as int),
                                    tails,
                                ).len() + tails.len());
                                assert(old_count + cross(pre@, ps, tails).len()
                                    > MAX_BRACE_EXPANSIONS);
                                assert(whole == Some(cross(pre@, ps, tails)));
                            }
                        }
                        return Err(());
                    },
                    Ok(()) => {},
                }
                proof {
                    let tails = tails_opt.unwrap();
                    let c0 = cross(pre@, ps.take(j as int), tails);
                    let pj = ps[j as int];
                    assert(np@ =~= prefix@ + (pre@ + pj));
                    assert(prefixed(prefix@, c0 + prefixed(pre@ + pj, tails)) =~= prefixed(
                        prefix@,
                        c0,
                    ) + prefixed(np@, tails)) by {
                        assert forall|t: int| 0 <= t < tails.len() implies prefix@ + ((pre@ + pj)
                            + tails[t]) =~= np@ + tails[t] by {}
                    }
                }
                if *count > MAX_BRACE_EXPANSIONS {
                    return Err(());
                }
                j = j + 1;
            }
            proof {
                assert(ps.take(parts@.len() as int) =~= ps);
                assert(body@ =~= p@.subrange(start + 1, end as int));
                if parts@.len() == 0 {
                    assert(split_top(body@).len() >= 1);
                }
            }
            Ok(())
        },
    }
}

/// The strings `pat` expands to (see `brace_expansion`); more than the
/// allowed number, or a range with more, is an error.
pub fn expand_braces(pat: &str) -> (r: Result<Vec<String>, ParseError>)
    ensures
        match r {
            Ok(v) => brace_expansion(pat@) == Some(strings_view(v@)) && v@.len()
                <= MAX_BRACE_EXPANSIONS,
            Err(e) => e is TooManyExpansions && match brace_expansion(pat@) {
                None => true,
                Some(xs) => xs.len() > MAX_BRACE_EXPANSIONS,
            },
        },
{
    let p = chars_of(pat);
    let prefix: Vec<char> = Vec::new();
    let mut out: Vec<Vec<char>> = Vec::new();
    let mut count: usize = 0;
    match expand_into(&prefix, &p, &mut out, &mut count) {
        Err(()) => Err(ParseError::TooManyExpansions),
        Ok(()) => {
            let ghost xs = brace_expansion(p@);
            proof {
                assert(prefixed(prefix@, xs.unwrap()) =~= xs.unwrap()) by {
                    assert forall|t: int| 0 <= t < xs.unwrap().len() implies prefix@ + xs.unwrap()[t]
                        =~= xs.unwrap()[t] by {}
                }
                assert(views_of(out@) =~= xs.unwrap());
            }
            let mut strs: Vec<String> = Vec::new();
            let mut k: usize = 0;
            while k < out.len()
                invariant
                    k <= out@.len(),
                    strings_view(strs@) == views_of(out@).take(k as int),
                decreases out@.len() - k,
            {
                let s = string_of(out[k].as_slice());
                let ghost mid = strings_view(strs@);
                strs.push(s);
                proof {
                    assert(strings_view(strs@) =~= mid.push(s@));
                    assert(views_of(out@).take(k + 1) =~= views_of(out@).take(k as int).push(
                        out@[k as int]@,
                    ));
                }
                k = k + 1;
            }
            proof {
                assert(views_of(out@).take(out@.len() as int) =~= views_of(out@));
            }
            Ok(strs)
        },
    }
}

/// A pattern without a `{` expands to itself alone.
pub proof fn lemma_no_brace_expands_to_itself(p: Seq<char>)
    requires
        !p.contains('{'),
    ensures
        brace_expansion(p) == Some(seq![p]),
{
    lemma_find_from(p, '{', 0);
    if find_from(p, '{', 0) < p.len() {
        assert(p[find_from(p, '{', 0) as int] == '{');
    }
}

/// How deeply the end of `s` sits inside braces: each `{` opens a level and
/// each `}` closes one.
pub open spec fn nesting(s: Seq<char>) -> int
    decreases s.len(),
{
    if s.len() == 0 {
        0
    } else if s.last() == '{' {
        nesting(s.drop_last()) + 1
    } else if s.last() == '}' {
        nesting(s.drop_last()) - 1
    } else {
        nesting(s.drop_last())
    }
}

/// The number of commas of `s` outside any nested brace group.
pub open spec fn top_commas(s: Seq<char>) -> nat
    decreases s.len(),
{
    if s.len() == 0 {
        0
    } else if s.last() == ',' && nesting(s.drop_last()) == 0 {
        top_commas(s.drop_last()) + 1
    } else {
        top_commas(s.drop_last())
    }
}

/// The texts `ps` joined with a comma between each two.
pub open spec fn join_commas(ps: Seq<Seq<char>>) -> Seq<char>
    decreases ps.len(),
{
    if ps.len() == 0 {
        Seq::empty()
    } else if ps.len() == 1 {
        ps[0]
    } else {
        join_commas(ps.drop_last()) + seq![','] + ps.last()
    }
}

proof fn lemma_join_push_char(ps: Seq<Seq<char>>, p: Seq<char>, c: char)
    ensures
        join_commas(ps.push(p.push(c))) == join_commas(ps.push(p)) + seq![c],
{
    assert(ps.push(p.push(c)).drop_last() =~= ps);
    assert(ps.push(p).drop_last() =~= ps);
    if ps.len() == 0 {
        assert(p.push(c) =~= p + seq![c]);
    } else {
        assert(join_commas(ps) + seq![','] + p.push(c) =~= join_commas(ps) + seq![','] + p + seq![c]);
    }
}

proof fn lemma_top_split_scan(body: Seq<char>, n: nat)
    requires
        n <= body.len(),
    ensures
        top_split_scan(body, n).depth == nesting(body.take(n as int)),
        top_split_scan(body, n).parts.len() == top_commas(body.take(n as int)),
        join_commas(top_split_scan(body, n).parts.push(top_split_scan(body, n).part)) == body.take(
            n as int,
        ),
    decreases n,
{
    if n == 0 {
        assert(body.take(0) =~= Seq::<char>::empty());
        assert(Seq::<Seq<char>>::empty().push(Seq::<char>::empty()).len() == 1);
    } else {
        lemma_top_split_scan(body, (n - 1) as nat);
        let st = top_split_scan(body, (n - 1) as nat);
        let c = body[n - 1];
        let t = body.take(n as int);
        assert(t.drop_last() =~= body.take(n - 1));
        assert(t.last() == c);
        assert(t =~= body.take(n - 1).push(c));
        if c == ',' && st.depth == 0 {
            let ps = st.parts.push(st.part);
            assert(ps.push(Seq::<char>::empty()).drop_last() =~= ps);
            assert(join_commas(ps) + seq![','] + Seq::<char>::empty() =~= join_commas(ps) + seq![',']);
        } else {
            lemma_join_push_char(st.parts, st.part, c);
        }
    }
}

/// A brace body splits into one alternative more than it has commas outside
/// nested groups, empty alternatives included, and the alternatives joined
/// again with commas give the body back.
pub proof fn lemma_split_top_alternatives(body: Seq<char>)
    ensures
        split_top(body).len() == top_commas(body) + 1,
        join_commas(split_top(body)) == body,
{
    lemma_top_split_scan(body, body.len());
    assert(body.take(body.len() as int) =~= body);
}

} // verus!
