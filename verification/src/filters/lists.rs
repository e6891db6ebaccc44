//! Rule files and pattern lists as bytes: NUL-separated or line text, plain
//! rule files, and include/exclude lists whose included paths keep their
//! parent directories walkable.

use vstd::prelude::*;

use super::error::{ErrV, ParseError};
use super::matching::{has_double_star, strip_leading_slashes, strip_trailing_slashes};
use super::paths::split_on;
use super::pattern::{
    all_build, data_for, first_glob_err, glob_rules, lemma_first_glob_err, opt_view, push_glob_rules,
    then_rules, views,
};
use super::rule::{no_flags, Rule, RuleData, RuleFlags, RuleV, rules_view};
use super::scan::{
    empty_scan, err_scan, finish_rules, lemma_scan_then_assoc, lemma_scan_then_empty, result_scan,
    scan_text, scan_then, set_error, text_scan, LineScan, ScanV, ItemV,
};
use super::glob::{compile_glob, glob_ok, glob_of};
use super::text::{chars_of, push_chars, slice_chars, string_of, views_of};
use super::token::{contains_char, RuleKind};
use super::util::{decode_text, parse_list, parse_list_spec, strings_view, lossy_text};

verus! {

/// What the NUL-separated items give, each read as one rule line.
pub open spec fn nul_scan(items: Seq<Seq<char>>, depth: nat, source: Option<Seq<char>>) -> ScanV
    decreases items.len(),
{
    if items.len() == 0 {
        empty_scan()
    } else {
        scan_then(nul_item_scan(items[0], depth, source), nul_scan(items.drop_first(), depth, source))
    }
}

/// What the rule bytes `input` give: with `from0` each NUL-separated item
/// is one rule; else the bytes are read as text.
pub open spec fn bytes_scan(input: Seq<u8>, from0: bool, depth: nat, source: Option<Seq<char>>) -> ScanV {
    if from0 {
        nul_scan(parse_list_spec(input, true), depth, source)
    } else {
        text_scan(lossy_text(input), false, depth, source)
    }
}

fn new_scan() -> (r: LineScan)
    ensures
        r@ == empty_scan(),
{
    let r = LineScan { items: Vec::new(), error: None };
    assert(r@.items =~= Seq::<ItemV>::empty());
    r
}

/// What one NUL-separated item gives.
#[verifier::opaque]
pub open spec fn nul_item_scan(item: Seq<char>, depth: nat, source: Option<Seq<char>>) -> ScanV {
    if item.len() == 0 {
        empty_scan()
    } else {
        text_scan(item.push('\n'), true, depth, source)
    }
}

proof fn lemma_nul_scan_step(iv: Seq<Seq<char>>, k: int, depth: nat, source: Option<Seq<char>>)
    requires
        0 <= k < iv.len(),
    ensures
        nul_scan(iv.skip(k), depth, source) == scan_then(
            nul_item_scan(iv[k], depth, source),
            nul_scan(iv.skip(k + 1), depth, source),
        ),
{
    assert(iv.skip(k)[0] == iv[k]);
    assert(iv.skip(k).drop_first() =~= iv.skip(k + 1));
}

fn scan_nul_item(item: &str, depth: usize, source: &Option<String>, out: &mut LineScan)
    requires
        old(out)@.error is None,
    ensures
        final(out)@ == scan_then(old(out)@, nul_item_scan(item@, depth as nat, opt_view(*source))),
{
    reveal(nul_item_scan);
    let line = chars_of(item);
    if line.len() > 0 {
        let mut t = line;
        t.push('\n');
        scan_text(&t, true, depth, source, out);
    } else {
        let ghost before = out@;
        assert(before.items + Seq::<ItemV>::empty() =~= before.items);
    }
}

/// The rules of the rule bytes `input` (see `bytes_scan`), read at nesting
/// `depth` with `source` as the file they came from.
pub fn parse_from_bytes(input: &[u8], from0: bool, depth: usize, source: &Option<String>) -> (r:
    LineScan)
    ensures
        r@ == bytes_scan(input@, from0, depth as nat, opt_view(*source)),
{
    let ghost src = opt_view(*source);
    let mut out = new_scan();
    if from0 {
        let items = parse_list(input, true);
        let ghost iv = strings_view(items@);
        proof {
            assert(iv.skip(0) =~= iv);
            lemma_scan_then_empty(nul_scan(iv, depth as nat, src));
            assert(scan_then(empty_scan(), nul_scan(iv, depth as nat, src)) =~= nul_scan(iv, depth as nat, src)) by {
                let x = nul_scan(iv, depth as nat, src);
                assert(Seq::<ItemV>::empty() + x.items =~= x.items);
            }
        }
        let mut k: usize = 0;
        while k < items.len()
            invariant
                k <= items@.len(),
                iv == strings_view(items@),
                iv == parse_list_spec(input@, true),
                from0,
                src == opt_view(*source),
                out@.error is None,
                scan_then(out@, nul_scan(iv.skip(k as int), depth as nat, src)) == nul_scan(
                    iv,
                    depth as nat,
                    src,
                ),
            decreases items@.len() - k,
        {
            proof {
                assert(iv[k as int] == items@[k as int]@);
                lemma_nul_scan_step(iv, k as int, depth as nat, src);
            }
            let ghost before = out@;
            scan_nul_item(items[k].as_str(), depth, source, &mut out);
            proof {
                lemma_scan_then_assoc(
                    before,
                    nul_item_scan(iv[k as int], depth as nat, src),
                    nul_scan(iv.skip(k + 1), depth as nat, src),
                );
            }
            if out.error.is_some() {
                return out;
            }
            k = k + 1;
        }
        proof {
            assert(iv.skip(items@.len() as int) =~= Seq::<Seq<char>>::empty());
            lemma_scan_then_empty(out@);
        }
        out
    } else {
        let text = decode_text(input);
        scan_text(&text, false, depth, source, &mut out);
        proof {
            let x = text_scan(text@, false, depth as nat, src);
            assert(Seq::<ItemV>::empty() + x.items =~= x.items);
        }
        out
    }
}

/// Whether `path` names the standard input.
pub open spec fn is_stdin_name(path: Seq<char>) -> bool {
    path == seq!['-']
}

/// The rules of a rule file read from `path`: the standard input (`-`) is
/// read as NUL-separated and names no source.
pub open spec fn file_scan(data: Seq<u8>, path: Seq<char>, from0: bool, depth: nat) -> ScanV {
    bytes_scan(
        data,
        from0 || is_stdin_name(path),
        depth,
        if is_stdin_name(path) {
            None
        } else {
            Some(path)
        },
    )
}

/// The rules of the rule file `path`, read as `data` (see `file_scan`).
pub fn parse_file_data(data: &[u8], path: &str, from0: bool, depth: usize) -> (r: LineScan)
    ensures
        r@ == file_scan(data@, path@, from0, depth as nat),
{
    let pc = chars_of(path);
    let stdin = pc.len() == 1 && pc[0] == '-';
    proof {
        if pc@.len() == 1 && pc@[0] == '-' {
            assert(pc@ =~= seq!['-']);
        }
    }
    let source = if stdin {
        None
    } else {
        Some(path.to_string())
    };
    parse_from_bytes(data, from0 || stdin, depth, &source)
}

/// The state of walking the parts of a listed path.
pub struct RpState {
    pub base: Seq<char>,
    pub dirs: Seq<Seq<char>>,
    pub finished: bool,
}

pub open spec fn has_glob_meta(s: Seq<char>) -> bool {
    s.contains('*') || s.contains('?') || s.contains('[') || s.contains(']')
}

/// Walks the parts from the `i`th: each part extends the path and gives a
/// directory, until a `**` part or a part with a glob character.
pub open spec fn rp_walk(parts: Seq<Seq<char>>, i: nat, st: RpState) -> RpState
    decreases parts.len() - i,
{
    if i >= parts.len() {
        st
    } else {
        let part = parts[i as int];
        if part == seq!['*', '*'] {
            RpState { finished: false, ..st }
        } else {
            let base = if st.base.len() == 0 {
                part
            } else {
                st.base + seq!['/'] + part
            };
            let dirs = st.dirs.push(base + seq!['/']);
            if has_glob_meta(part) {
                RpState { base, dirs, finished: false }
            } else {
                rp_walk(parts, i + 1, RpState { base, dirs, finished: st.finished })
            }
        }
    }
}

/// A listed path without its leading `/`, and the directories above it
/// that must stay walkable: each proper prefix of it up to a `**` part or
/// a part with a glob character (then that part's prefix too).
pub open spec fn rooted_and_parents_spec(pat: Seq<char>) -> (Seq<char>, Seq<Seq<char>>) {
    let rooted = strip_leading_slashes(pat);
    let trimmed = strip_trailing_slashes(rooted);
    let st = rp_walk(
        split_on(trimmed, '/'),
        0,
        RpState { base: Seq::empty(), dirs: Seq::empty(), finished: true },
    );
    let dirs = if !trimmed.contains('/') {
        Seq::empty()
    } else if st.finished && st.dirs.len() > 0 {
        st.dirs.drop_last()
    } else {
        st.dirs
    };
    (rooted, dirs)
}

fn has_glob_meta_exec(s: &[char]) -> (r: bool)
    ensures
        r == has_glob_meta(s@),
{
    contains_char(s, '*') || contains_char(s, '?') || contains_char(s, '[') || contains_char(s, ']')
}

/// The path of `pat` without its leading `/`, and the directories above
/// it that must stay walkable (see `rooted_and_parents_spec`), each with a
/// trailing `/`.
pub fn rooted_and_parents(pat: &str) -> (r: (String, Vec<String>))
    ensures
        r.0@ == rooted_and_parents_spec(pat@).0,
        strings_view(r.1@) == rooted_and_parents_spec(pat@).1,
{
    let pc = chars_of(pat);
    let a = super::matching::strip_leading_slashes_at(&pc, 0);
    let rooted = slice_chars(&pc, a, pc.len());
    proof {
        assert(pc@.skip(0) =~= pc@);
        assert(rooted@ =~= pc@.skip(a as int));
    }
    let e = super::matching::strip_trailing_slashes_to(&rooted, 0, rooted.len());
    proof {
        assert(rooted@.subrange(0, rooted@.len() as int) =~= rooted@);
    }
    let trimmed = slice_chars(&rooted, 0, e);
    let parts = super::paths::split_chars(&trimmed, '/');
    let ghost pv = views_of(parts@);
    let ghost init = RpState { base: Seq::empty(), dirs: Seq::empty(), finished: true };
    let mut base: Vec<char> = Vec::new();
    let mut dirs: Vec<Vec<char>> = Vec::new();
    let mut finished = true;
    let mut done = false;
    let mut i: usize = 0;
    assert(views(dirs@) =~= Seq::<Seq<char>>::empty());
    while i < parts.len() && !done
        invariant
            i <= parts@.len(),
            pv == views_of(parts@),
            !done ==> rp_walk(pv, i as nat, RpState { base: base@, dirs: views(dirs@), finished })
                == rp_walk(pv, 0, init),
            done ==> (RpState { base: base@, dirs: views(dirs@), finished }) == rp_walk(pv, 0, init),
        decreases parts@.len() - i + (if done {
            0int
        } else {
            1int
        }),
    {
        let part = &parts[i];
        proof {
            assert(pv[i as int] == part@);
        }
        if part.len() == 2 && part[0] == '*' && part[1] == '*' {
            proof {
                assert(part@ =~= seq!['*', '*']);
            }
            finished = false;
            done = true;
        } else {
            proof {
                if part@ == seq!['*', '*'] {
                    assert(part@.len() == 2 && part@[0] == '*' && part@[1] == '*');
                }
            }
            let ghost old_base = base@;
            if base.len() > 0 {
                base.push('/');
            }
            push_chars(&mut base, part.as_slice());
            proof {
                if old_base.len() == 0 {
                    assert(base@ =~= part@);
                } else {
                    assert(base@ =~= old_base + seq!['/'] + part@);
                }
            }
            let mut d = slice_chars(&base, 0, base.len());
            d.push('/');
            let ghost dv = d@;
            proof {
                assert(base@.subrange(0, base@.len() as int) =~= base@);
                assert(dv =~= base@ + seq!['/']);
            }
            let ghost before = views(dirs@);
            dirs.push(d);
            proof {
                assert(views(dirs@) =~= before.push(dv));
            }
            if has_glob_meta_exec(part.as_slice()) {
                finished = false;
                done = true;
            } else {
                i = i + 1;
            }
        }
    }
    let has_slash = contains_char(&trimmed, '/');
    if !has_slash {
        dirs = Vec::new();
    } else if finished && dirs.len() > 0 {
        let ghost before = views(dirs@);
        dirs.pop();
        assert(views(dirs@) =~= before.drop_last());
    }
    let mut out: Vec<String> = Vec::new();
    let mut k: usize = 0;
    while k < dirs.len()
        invariant
            k <= dirs@.len(),
            strings_view(out@) == views(dirs@).take(k as int),
        decreases dirs@.len() - k,
    {
        let s = string_of(dirs[k].as_slice());
        let ghost before = strings_view(out@);
        out.push(s);
        proof {
            assert(strings_view(out@) =~= before.push(s@));
            assert(views(dirs@).take(k + 1) =~= views(dirs@).take(k as int).push(dirs@[k as int]@));
        }
        k = k + 1;
    }
    proof {
        assert(views(dirs@).take(dirs@.len() as int) =~= views(dirs@));
        if !has_slash {
            assert(views(dirs@) =~= Seq::<Seq<char>>::empty());
        }
    }
    (string_of(&rooted), out)
}

/// One implied-parent rule per pattern of `xs`, or a glob error when one
/// does not build.
pub open spec fn implied_rules(xs: Seq<Seq<char>>, source: Option<Seq<char>>) -> Result<
    Seq<RuleV>,
    ErrV,
> {
    if all_build(xs) {
        Ok(xs.map_values(|x: Seq<char>| RuleV::ImpliedDir(data_for(x, false, no_flags(), source, false))))
    } else {
        Err(first_glob_err(xs))
    }
}

/// The rooted patterns of the parent directories.
pub open spec fn parent_globs(parents: Seq<Seq<char>>) -> Seq<Seq<char>> {
    parents.map_values(|d: Seq<char>| seq!['/'] + strip_trailing_slashes(d))
}

/// The patterns for what else lies in each parent directory.
pub open spec fn parent_excludes(parents: Seq<Seq<char>>) -> Seq<Seq<char>> {
    parents.map_values(|d: Seq<char>| seq!['/'] + d + seq!['*'])
}

pub open spec fn all_stars(s: Seq<char>) -> bool {
    forall|i: int| 0 <= i < s.len() ==> s[i] == '*'
}

/// What one listed pattern gives. In an include list a plain path is
/// included from the root, its parent directories stay walkable, and,
/// unless its last part is all stars or it holds `**`, everything else in
/// those parents is excluded. Other patterns become one rule of the list's
/// sign.
#[verifier::opaque]
pub open spec fn list_pat_scan(
    pat: Seq<char>,
    from0: bool,
    sign: char,
    depth: nat,
    source: Option<Seq<char>>,
) -> ScanV {
    if pat.len() == 0 {
        empty_scan()
    } else if sign == '+' && !(pat[0] == '+' || pat[0] == '-' || pat[0] == ':') {
        let (rooted, parents) = rooted_and_parents_spec(pat);
        let line = if from0 {
            seq!['+', '.', '/'] + rooted + seq!['\n']
        } else {
            seq!['+', ' ', '.', '/'] + rooted + seq!['\n']
        };
        let skip = all_stars(split_on(rooted, '/').last());
        let excl = if !skip && !has_double_star(rooted) {
            glob_rules(parent_excludes(parents), RuleKind::Exclude, false, no_flags(), source, false)
        } else {
            Ok(Seq::empty())
        };
        scan_then(
            text_scan(line, from0, depth, source),
            result_scan(then_rules(implied_rules(parent_globs(parents), source), excl)),
        )
    } else {
        let line = if from0 {
            seq![sign] + pat + seq!['\n']
        } else {
            seq![sign, ' '] + pat + seq!['\n']
        };
        text_scan(line, from0, depth, source)
    }
}

pub open spec fn list_scan(
    pats: Seq<Seq<char>>,
    from0: bool,
    sign: char,
    depth: nat,
    source: Option<Seq<char>>,
) -> ScanV
    decreases pats.len(),
{
    if pats.len() == 0 {
        empty_scan()
    } else {
        scan_then(
            list_pat_scan(pats[0], from0, sign, depth, source),
            list_scan(pats.drop_first(), from0, sign, depth, source),
        )
    }
}

/// What an include (`sign` is `+`) or exclude (`-`) list gives.
pub open spec fn rule_list_scan(
    input: Seq<u8>,
    from0: bool,
    sign: char,
    depth: nat,
    source: Option<Seq<char>>,
) -> ScanV {
    list_scan(parse_list_spec(input, from0), from0, sign, depth, source)
}

fn push_implied_rules(xs: &Vec<Vec<char>>, source: &Option<String>, out: &mut Vec<Rule>) -> (r:
    Result<(), ParseError>)
    ensures
        match implied_rules(views(xs@), opt_view(*source)) {
            Ok(rs) => r is Ok && rules_view(final(out)@) == rules_view(old(out)@) + rs,
            Err(e) => r matches Err(x) && x@ == e,
        },
{
    let ghost xv = views(xs@);
    let ghost mk = |x: Seq<char>|
        RuleV::ImpliedDir(data_for(x, false, no_flags(), opt_view(*source), false));
    let ghost start = rules_view(out@);
    let mut k: usize = 0;
    while k < xs.len()
        invariant
            k <= xs@.len(),
            xv == views(xs@),
            forall|j: int| 0 <= j < k ==> glob_ok(#[trigger] glob_of(xv[j])),
            rules_view(out@) == start + xv.take(k as int).map_values(mk),
            mk == (|x: Seq<char>|
                RuleV::ImpliedDir(data_for(x, false, no_flags(), opt_view(*source), false))),
        decreases xs@.len() - k,
    {
        let pat = string_of(xs[k].as_slice());
        let g = match compile_glob(pat.as_str()) {
            Ok(g) => g,
            Err(e) => {
                proof {
                    assert(xv[k as int] == xs@[k as int]@);
                    lemma_first_glob_err(xv, k as int);
                }
                return Err(e);
            },
        };
        let has_slash = contains_char(xs[k].as_slice(), '/');
        let d = RuleData::new(
            g,
            false,
            RuleFlags::none(),
            super::pattern::clone_source(source),
            false,
            has_slash,
            string_of(xs[k].as_slice()),
        );
        let rule = Rule::ImpliedDir(d);
        let ghost before = rules_view(out@);
        out.push(rule);
        proof {
            assert(xv[k as int] == xs@[k as int]@);
            assert(rule@ == mk(xv[k as int]));
            assert(rules_view(out@) =~= before.push(rule@));
            assert(xv.take(k + 1).map_values(mk) =~= xv.take(k as int).map_values(mk).push(
                mk(xv[k as int]),
            ));
        }
        k = k + 1;
    }
    proof {
        assert(xv.take(xs@.len() as int) =~= xv);
    }
    Ok(())
}

fn parent_globs_exec(parents: &Vec<String>) -> (r: Vec<Vec<char>>)
    ensures
        views(r@) == parent_globs(strings_view(parents@)),
{
    let ghost pv = strings_view(parents@);
    let mut out: Vec<Vec<char>> = Vec::new();
    let mut k: usize = 0;
    while k < parents.len()
        invariant
            k <= parents@.len(),
            pv == strings_view(parents@),
            views(out@) == parent_globs(pv).take(k as int),
        decreases parents@.len() - k,
    {
        let d = chars_of(parents[k].as_str());
        let e = super::matching::strip_trailing_slashes_to(&d, 0, d.len());
        proof {
            assert(d@.subrange(0, d@.len() as int) =~= d@);
        }
        let mut g: Vec<char> = Vec::new();
        g.push('/');
        let t = slice_chars(&d, 0, e);
        push_chars(&mut g, &t);
        let ghost before = views(out@);
        let ghost gv = g@;
        proof {
            assert(pv[k as int] == d@);
            assert(gv =~= seq!['/'] + strip_trailing_slashes(pv[k as int]));
        }
        out.push(g);
        proof {
            assert(views(out@) =~= before.push(gv));
            assert(parent_globs(pv).take(k + 1) =~= parent_globs(pv).take(k as int).push(gv));
        }
        k = k + 1;
    }
    proof {
        assert(parent_globs(pv).take(parents@.len() as int) =~= parent_globs(pv));
    }
    out
}

fn parent_excludes_exec(parents: &Vec<String>) -> (r: Vec<Vec<char>>)
    ensures
        views(r@) == parent_excludes(strings_view(parents@)),
{
    let ghost pv = strings_view(parents@);
    let mut out: Vec<Vec<char>> = Vec::new();
    let mut k: usize = 0;
    while k < parents.len()
        invariant
            k <= parents@.len(),
            pv == strings_view(parents@),
            views(out@) == parent_excludes(pv).take(k as int),
        decreases parents@.len() - k,
    {
        let d = chars_of(parents[k].as_str());
        let mut g: Vec<char> = Vec::new();
        g.push('/');
        push_chars(&mut g, &d);
        g.push('*');
        let ghost before = views(out@);
        let ghost gv = g@;
        proof {
            assert(pv[k as int] == d@);
            assert(gv =~= seq!['/'] + pv[k as int] + seq!['*']);
        }
        out.push(g);
        proof {
            assert(views(out@) =~= before.push(gv));
            assert(parent_excludes(pv).take(k + 1) =~= parent_excludes(pv).take(k as int).push(gv));
        }
        k = k + 1;
    }
    proof {
        assert(parent_excludes(pv).take(parents@.len() as int) =~= parent_excludes(pv));
    }
    out
}

fn all_stars_exec(s: &[char]) -> (r: bool)
    ensures
        r == all_stars(s@),
{
    let mut i: usize = 0;
    while i < s.len()
        invariant
            i <= s@.len(),
            forall|j: int| 0 <= j < i ==> s@[j] == '*',
        decreases s@.len() - i,
    {
        if s[i] != '*' {
            return false;
        }
        i = i + 1;
    }
    true
}

#[verifier::spinoff_prover]
#[verifier::rlimit(50)]
fn scan_list_pat(
    pat: &str,
    from0: bool,
    sign: char,
    depth: usize,
    source: &Option<String>,
    out: &mut LineScan,
)
    requires
        old(out)@.error is None,
    ensures
        final(out)@ == scan_then(
            old(out)@,
            list_pat_scan(pat@, from0, sign, depth as nat, opt_view(*source)),
        ),
{
    reveal(list_pat_scan);
    let ghost src = opt_view(*source);
    let pc = chars_of(pat);
    if pc.len() == 0 {
        let ghost before = out@;
        assert(before.items + Seq::<ItemV>::empty() =~= before.items);
        return;
    }
    if sign == '+' && !(pc[0] == '+' || pc[0] == '-' || pc[0] == ':') {
        let (rooted, parents) = rooted_and_parents(pat);
        let rc = chars_of(rooted.as_str());
        let mut line: Vec<char> = Vec::new();
        line.push('+');
        if !from0 {
            line.push(' ');
        }
        line.push('.');
        line.push('/');
        push_chars(&mut line, &rc);
        line.push('\n');
        proof {
            if from0 {
                assert(line@ =~= seq!['+', '.', '/'] + rc@ + seq!['\n']);
            } else {
                assert(line@ =~= seq!['+', ' ', '.', '/'] + rc@ + seq!['\n']);
            }
        }
        let ghost before = out@;
        scan_text(&line, from0, depth, source, out);
        if out.error.is_some() {
            return;
        }
        let ghost mid = out@;
        let segs = super::paths::split_chars(&rc, '/');
        let last = &segs[segs.len() - 1];
        proof {
            assert(views_of(segs@).last() == last@);
        }
        let skip = all_stars_exec(last.as_slice());
        let globstar = super::matching::has_double_star_exec(&rc);
        let mut rules: Vec<Rule> = Vec::new();
        let gl = parent_globs_exec(&parents);
        let r1 = push_implied_rules(&gl, source, &mut rules);
        proof {
            assert(rules_view(Seq::<Rule>::empty()) =~= Seq::<RuleV>::empty());
        }
        match r1 {
            Err(e) => {
                set_error(out, e);
                proof {
                    lemma_scan_then_assoc(before, text_scan(line@, from0, depth as nat, src), err_scan(ErrV::Glob));
                }
                return;
            },
            Ok(()) => {},
        }
        let ghost after_implied = rules_view(rules@);
        if !skip && !globstar {
            let ex = parent_excludes_exec(&parents);
            let r2 = push_glob_rules(&ex, RuleKind::Exclude, false, RuleFlags::none(), source, false, &mut rules);
            proof {
                lemma_scan_then_assoc(
                    before,
                    text_scan(line@, from0, depth as nat, src),
                    result_scan(then_rules(implied_rules(parent_globs(strings_view(parents@)), src), glob_rules(parent_excludes(strings_view(parents@)), RuleKind::Exclude, false, no_flags(), src, false))),
                );
            }
            finish_rules(out, r2, rules);
        } else {
            proof {
                assert(after_implied + Seq::<RuleV>::empty() =~= after_implied);
                lemma_scan_then_assoc(
                    before,
                    text_scan(line@, from0, depth as nat, src),
                    result_scan(then_rules(implied_rules(parent_globs(strings_view(parents@)), src), Ok(Seq::<RuleV>::empty()))),
                );
            }
            finish_rules(out, Ok(()), rules);
        }
    } else {
        let mut line: Vec<char> = Vec::new();
        line.push(sign);
        if !from0 {
            line.push(' ');
        }
        push_chars(&mut line, &pc);
        line.push('\n');
        proof {
            if from0 {
                assert(line@ =~= seq![sign] + pc@ + seq!['\n']);
            } else {
                assert(line@ =~= seq![sign, ' '] + pc@ + seq!['\n']);
            }
        }
        scan_text(&line, from0, depth, source, out);
    }
}

/// The rules of an include (`sign` is `+`) or exclude (`-`) list read as
/// `input` (see `rule_list_scan`).
pub fn parse_rule_list_from_bytes(
    input: &[u8],
    from0: bool,
    sign: char,
    depth: usize,
    source: &Option<String>,
) -> (r: LineScan)
    ensures
        r@ == rule_list_scan(input@, from0, sign, depth as nat, opt_view(*source)),
{
    let ghost src = opt_view(*source);
    let pats = parse_list(input, from0);
    let ghost pv = strings_view(pats@);
    let mut out = new_scan();
    proof {
        assert(pv.skip(0) =~= pv);
        let x = list_scan(pv, from0, sign, depth as nat, src);
        assert(Seq::<ItemV>::empty() + x.items =~= x.items);
    }
    let mut k: usize = 0;
    while k < pats.len()
        invariant
            k <= pats@.len(),
            pv == strings_view(pats@),
            pv == parse_list_spec(input@, from0),
            src == opt_view(*source),
            out@.error is None,
            scan_then(out@, list_scan(pv.skip(k as int), from0, sign, depth as nat, src))
                == list_scan(pv, from0, sign, depth as nat, src),
        decreases pats@.len() - k,
    {
        proof {
            assert(pv[k as int] == pats@[k as int]@);
            assert(pv.skip(k as int)[0] == pv[k as int]);
            assert(pv.skip(k as int).drop_first() =~= pv.skip(k + 1));
        }
        let ghost before = out@;
        scan_list_pat(pats[k].as_str(), from0, sign, depth, source, &mut out);
        proof {
            lemma_scan_then_assoc(
                before,
                list_pat_scan(pv[k as int], from0, sign, depth as nat, src),
                list_scan(pv.skip(k + 1), from0, sign, depth as nat, src),
            );
        }
        if out.error.is_some() {
            return out;
        }
        k = k + 1;
    }
    proof {
        assert(pv.skip(pats@.len() as int) =~= Seq::<Seq<char>>::empty());
        lemma_scan_then_empty(out@);
    }
    out
}

/// `/` and each part in turn.
pub open spec fn rooted_join(ps: Seq<Seq<char>>) -> Seq<char>
    decreases ps.len(),
{
    if ps.len() == 0 {
        Seq::empty()
    } else {
        rooted_join(ps.drop_last()) + seq!['/'] + ps.last()
    }
}

/// The rooted path of a listed path and of each directory above it, from
/// the top down.
pub open spec fn ff_ancestors(pat: Seq<char>) -> Seq<Seq<char>> {
    let anchored = if pat.len() > 0 && pat[0] == '/' {
        pat
    } else {
        seq!['/'] + pat
    };
    let parts = super::matching::nonempty_parts(split_on(strip_trailing_slashes(anchored), '/'));
    Seq::new(parts.len(), |i: int| rooted_join(parts.take(i + 1)))
}

/// `dirs` with each of `xs` it lacks added in turn.
pub open spec fn add_unique(dirs: Seq<Seq<char>>, xs: Seq<Seq<char>>) -> Seq<Seq<char>>
    decreases xs.len(),
{
    if xs.len() == 0 {
        dirs
    } else {
        let d = add_unique(dirs, xs.drop_last());
        if d.contains(xs.last()) {
            d
        } else {
            d.push(xs.last())
        }
    }
}

/// One implied-parent directory rule per pattern of `xs`.
pub open spec fn implied_dir_rules(xs: Seq<Seq<char>>, source: Option<Seq<char>>) -> Result<
    Seq<RuleV>,
    ErrV,
> {
    if all_build(xs) {
        Ok(xs.map_values(|x: Seq<char>| RuleV::ImpliedDir(data_for(x, false, no_flags(), source, true))))
    } else {
        Err(first_glob_err(xs))
    }
}

/// What a listed path gives, and the directories listed so far after it:
/// its parents become implied directories; a directory is included with
/// all below it; a file becomes an include rule.
#[verifier::opaque]
pub open spec fn ff_pat(
    pat: Seq<char>,
    hint: bool,
    dirs: Seq<Seq<char>>,
    path: Seq<char>,
    from0: bool,
    depth: nat,
) -> (ScanV, Seq<Seq<char>>) {
    let ancs = ff_ancestors(pat);
    let n = ancs.len();
    let dc: int = if n > 0 {
        n - 1
    } else {
        0
    };
    let implied = implied_dir_rules(ancs.take(dc), Some(path));
    let dirs1 = add_unique(dirs, ancs.take(dc));
    if n == 0 {
        (result_scan(implied), dirs1)
    } else {
        let last = ancs.last();
        if (pat.len() > 0 && pat.last() == '/') || hint {
            let below = last + seq!['/', '*', '*'];
            let rules2 = then_rules(
                glob_rules(seq![below], RuleKind::Include, false, no_flags(), Some(path), false),
                glob_rules(seq![last], RuleKind::Include, false, no_flags(), Some(path), true),
            );
            (result_scan(then_rules(implied, rules2)), add_unique(dirs1, seq![last]))
        } else {
            let line = if from0 {
                seq!['+'] + last + seq!['\n']
            } else {
                seq!['+', ' '] + last + seq!['\n']
            };
            (scan_then(result_scan(implied), text_scan(line, from0, depth + 1, Some(path))), dirs1)
        }
    }
}

pub open spec fn ff_pats(
    pats: Seq<Seq<char>>,
    hints: Seq<bool>,
    i: nat,
    dirs: Seq<Seq<char>>,
    path: Seq<char>,
    from0: bool,
    depth: nat,
) -> (ScanV, Seq<Seq<char>>)
    decreases pats.len() - i,
{
    if i >= pats.len() {
        (empty_scan(), dirs)
    } else {
        let (s1, d1) = ff_pat(pats[i as int], hints[i as int], dirs, path, from0, depth);
        if s1.error is Some {
            (s1, d1)
        } else {
            let (s2, d2) = ff_pats(pats, hints, i + 1, d1, path, from0, depth);
            (scan_then(s1, s2), d2)
        }
    }
}

/// The rule excluding what else lies in a listed directory.
pub open spec fn dir_rest_line(d: Seq<char>, from0: bool) -> Seq<char> {
    if from0 {
        seq!['-'] + d + seq!['/', '*', '\n']
    } else {
        seq!['-', ' '] + d + seq!['/', '*', '\n']
    }
}

/// What the rule excluding what else lies in the listed directory `d`
/// gives.
#[verifier::opaque]
pub open spec fn dir_rest_scan(d: Seq<char>, path: Seq<char>, from0: bool, depth: nat) -> ScanV {
    text_scan(dir_rest_line(d, from0), from0, depth + 1, Some(path))
}

/// What the final rule excluding everything else gives.
#[verifier::opaque]
pub open spec fn all_rest_scan(path: Seq<char>, from0: bool, depth: nat) -> ScanV {
    text_scan(seq!['-', ' ', '/', '*', '*', '\n'], from0, depth + 1, Some(path))
}

pub open spec fn dirs_scan(ds: Seq<Seq<char>>, path: Seq<char>, from0: bool, depth: nat) -> ScanV
    decreases ds.len(),
{
    if ds.len() == 0 {
        empty_scan()
    } else {
        scan_then(dir_rest_scan(ds[0], path, from0, depth), dirs_scan(ds.drop_first(), path, from0, depth))
    }
}

fn scan_dir_rest(d: &[char], path: &str, from0: bool, depth: usize, out: &mut LineScan)
    requires
        old(out)@.error is None,
        depth < usize::MAX,
    ensures
        final(out)@ == scan_then(old(out)@, dir_rest_scan(d@, path@, from0, depth as nat)),
{
    reveal(dir_rest_scan);
    let source = Some(path.to_string());
    let mut line: Vec<char> = Vec::new();
    line.push('-');
    if !from0 {
        line.push(' ');
    }
    push_chars(&mut line, d);
    line.push('/');
    line.push('*');
    line.push('\n');
    proof {
        if from0 {
            assert(line@ =~= seq!['-'] + d@ + seq!['/', '*', '\n']);
        } else {
            assert(line@ =~= seq!['-', ' '] + d@ + seq!['/', '*', '\n']);
        }
    }
    scan_text(&line, from0, depth + 1, &source, out);
}

fn scan_all_rest(path: &str, from0: bool, depth: usize, out: &mut LineScan)
    requires
        old(out)@.error is None,
        depth < usize::MAX,
    ensures
        final(out)@ == scan_then(old(out)@, all_rest_scan(path@, from0, depth as nat)),
{
    reveal(all_rest_scan);
    let source = Some(path.to_string());
    let mut last: Vec<char> = Vec::new();
    last.push('-');
    last.push(' ');
    last.push('/');
    last.push('*');
    last.push('*');
    last.push('\n');
    assert(last@ =~= seq!['-', ' ', '/', '*', '*', '\n']);
    scan_text(&last, from0, depth + 1, &source, out);
}

/// What a `files-from` list of `pats` read from `path` gives, `hints`
/// saying of each whether it names a directory on disk: the rules of each
/// path, then for each listed directory a rule excluding what else lies in
/// it, then a rule excluding everything else.
pub open spec fn files_from_spec(
    pats: Seq<Seq<char>>,
    hints: Seq<bool>,
    path: Seq<char>,
    from0: bool,
    depth: nat,
) -> ScanV {
    let (s, dirs) = ff_pats(pats, hints, 0, Seq::empty(), path, from0, depth);
    scan_then(s, scan_then(dirs_scan(dirs, path, from0, depth), all_rest_scan(path, from0, depth)))
}

fn push_dir_rules(
    xs: &Vec<Vec<char>>,
    dir_only: bool,
    kind_implied: bool,
    source: &Option<String>,
    out: &mut Vec<Rule>,
) -> (r: Result<(), ParseError>)
    ensures
        kind_implied ==> match implied_dir_rules(views(xs@), opt_view(*source)) {
            Ok(rs) => dir_only ==> r is Ok && rules_view(final(out)@) == rules_view(old(out)@) + rs,
            Err(e) => r matches Err(x) && x@ == e,
        },
        !kind_implied ==> match glob_rules(views(xs@), RuleKind::Include, false, no_flags(), opt_view(*source), dir_only) {
            Ok(rs) => r is Ok && rules_view(final(out)@) == rules_view(old(out)@) + rs,
            Err(e) => r matches Err(x) && x@ == e,
        },
{
    if !kind_implied {
        return push_glob_rules(xs, RuleKind::Include, false, RuleFlags::none(), source, dir_only, out);
    }
    let ghost xv = views(xs@);
    let ghost mk = |x: Seq<char>|
        RuleV::ImpliedDir(data_for(x, false, no_flags(), opt_view(*source), dir_only));
    let ghost start = rules_view(out@);
    let mut k: usize = 0;
    while k < xs.len()
        invariant
            k <= xs@.len(),
            xv == views(xs@),
            forall|j: int| 0 <= j < k ==> glob_ok(#[trigger] glob_of(xv[j])),
            rules_view(out@) == start + xv.take(k as int).map_values(mk),
            mk == (|x: Seq<char>|
                RuleV::ImpliedDir(data_for(x, false, no_flags(), opt_view(*source), dir_only))),
        decreases xs@.len() - k,
    {
        let pat = string_of(xs[k].as_slice());
        let g = match compile_glob(pat.as_str()) {
            Ok(g) => g,
            Err(e) => {
                proof {
                    assert(xv[k as int] == xs@[k as int]@);
                    lemma_first_glob_err(xv, k as int);
                }
                return Err(e);
            },
        };
        let has_slash = contains_char(xs[k].as_slice(), '/');
        let d = RuleData::new(
            g,
            false,
            RuleFlags::none(),
            super::pattern::clone_source(source),
            dir_only,
            has_slash,
            string_of(xs[k].as_slice()),
        );
        let rule = Rule::ImpliedDir(d);
        let ghost before = rules_view(out@);
        out.push(rule);
        proof {
            assert(xv[k as int] == xs@[k as int]@);
            assert(rule@ == mk(xv[k as int]));
            assert(rules_view(out@) =~= before.push(rule@));
            assert(xv.take(k + 1).map_values(mk) =~= xv.take(k as int).map_values(mk).push(
                mk(xv[k as int]),
            ));
        }
        k = k + 1;
    }
    proof {
        assert(xv.take(xs@.len() as int) =~= xv);
    }
    Ok(())
}

fn ff_ancestors_exec(pat: &[char]) -> (r: Vec<Vec<char>>)
    ensures
        views(r@) == ff_ancestors(pat@),
{
    let mut anchored: Vec<char> = Vec::new();
    if !(pat.len() > 0 && pat[0] == '/') {
        anchored.push('/');
    }
    push_chars(&mut anchored, pat);
    proof {
        if pat@.len() > 0 && pat@[0] == '/' {
            assert(anchored@ =~= pat@);
        } else {
            assert(anchored@ =~= seq!['/'] + pat@);
        }
    }
    let e = super::matching::strip_trailing_slashes_to(&anchored, 0, anchored.len());
    proof {
        assert(anchored@.subrange(0, anchored@.len() as int) =~= anchored@);
    }
    let trimmed = slice_chars(&anchored, 0, e);
    let all = super::paths::split_chars(&trimmed, '/');
    let ghost allv = views_of(all@);
    let ghost parts = super::matching::nonempty_parts(allv);
    let mut out: Vec<Vec<char>> = Vec::new();
    let mut prefix: Vec<char> = Vec::new();
    let mut k: usize = 0;
    let ghost np: Seq<Seq<char>> = Seq::empty();
    assert(views(out@) =~= Seq::<Seq<char>>::empty());
    while k < all.len()
        invariant
            k <= all@.len(),
            allv == views_of(all@),
            np == super::matching::nonempty_parts(allv.take(k as int)),
            prefix@ == rooted_join(np),
            views(out@) == Seq::new(np.len(), |i: int| rooted_join(np.take(i + 1))),
        decreases all@.len() - k,
    {
        proof {
            assert(allv.take(k + 1).drop_last() =~= allv.take(k as int));
            assert(allv.take(k + 1).last() == all@[k as int]@);
        }
        if all[k].len() > 0 {
            let ghost old_prefix = prefix@;
            prefix.push('/');
            push_chars(&mut prefix, all[k].as_slice());
            let copy = slice_chars(&prefix, 0, prefix.len());
            let ghost before = views(out@);
            let ghost np2 = np.push(all@[k as int]@);
            proof {
                assert(np2.drop_last() =~= np);
                assert(np2.last() == all@[k as int]@);
                assert(prefix@ =~= old_prefix + seq!['/'] + all@[k as int]@);
                assert(prefix@ == rooted_join(np2));
                assert(prefix@.subrange(0, prefix@.len() as int) =~= prefix@);
                assert(super::matching::nonempty_parts(allv.take(k + 1)) == np2);
            }
            let ghost cv = copy@;
            out.push(copy);
            proof {
                assert(views(out@) =~= before.push(cv));
                assert(views(out@) =~= Seq::new(np2.len(), |i: int| rooted_join(np2.take(i + 1)))) by {
                    assert forall|i: int| 0 <= i < np2.len() implies #[trigger] views(out@)[i] == rooted_join(np2.take(i + 1)) by {
                        if i < np.len() {
                            assert(np2.take(i + 1) =~= np.take(i + 1));
                        } else {
                            assert(np2.take(i + 1) =~= np2);
                        }
                    }
                }
                np = np2;
            }
        } else {
            proof {
                assert(super::matching::nonempty_parts(allv.take(k + 1)) == np);
            }
        }
        k = k + 1;
    }
    proof {
        assert(allv.take(all@.len() as int) =~= allv);
    }
    out
}

fn add_unique_exec(dirs: &mut Vec<Vec<char>>, xs: &Vec<Vec<char>>, upto: usize)
    requires
        upto <= xs@.len(),
    ensures
        views(final(dirs)@) == add_unique(views(old(dirs)@), views(xs@).take(upto as int)),
{
    let ghost start = views(dirs@);
    let ghost xv = views(xs@);
    let mut k: usize = 0;
    while k < upto
        invariant
            k <= upto <= xs@.len(),
            xv == views(xs@),
            views(dirs@) == add_unique(start, xv.take(k as int)),
        decreases upto - k,
    {
        proof {
            assert(xv.take(k + 1).drop_last() =~= xv.take(k as int));
            assert(xv.take(k + 1).last() == xs@[k as int]@);
        }
        let mut found = false;
        let mut j: usize = 0;
        while j < dirs.len()
            invariant
                j <= dirs@.len(),
                k < xs@.len(),
                !found ==> forall|t: int| 0 <= t < j ==> views(dirs@)[t] != xs@[k as int]@,
                found ==> views(dirs@).contains(xs@[k as int]@),
            decreases dirs@.len() - j,
        {
            if super::text::chars_eq(dirs[j].as_slice(), xs[k].as_slice()) {
                assert(views(dirs@)[j as int] == xs@[k as int]@);
                found = true;
            }
            j = j + 1;
        }
        if !found {
            let c = slice_chars(xs[k].as_slice(), 0, xs[k].len());
            assert(xs@[k as int]@.subrange(0, xs@[k as int]@.len() as int) =~= xs@[k as int]@);
            let ghost before = views(dirs@);
            dirs.push(c);
            assert(views(dirs@) =~= before.push(xs@[k as int]@));
        }
        k = k + 1;
    }
}

#[verifier::spinoff_prover]
#[verifier::rlimit(50)]
fn ff_pat_exec(
    pat: &str,
    hint: bool,
    dirs: &mut Vec<Vec<char>>,
    path: &str,
    from0: bool,
    depth: usize,
    out: &mut LineScan,
)
    requires
        old(out)@.error is None,
        depth < usize::MAX,
    ensures
        final(out)@ == scan_then(old(out)@, ff_pat(pat@, hint, views(old(dirs)@), path@, from0, depth as nat).0),
        final(out)@.error is None ==> views(final(dirs)@) == ff_pat(
            pat@,
            hint,
            views(old(dirs)@),
            path@,
            from0,
            depth as nat,
        ).1,
{
    reveal(ff_pat);
    let pc = chars_of(pat);
    let ancs = ff_ancestors_exec(&pc);
    let ghost av = views(ancs@);
    let n = ancs.len();
    let dc = if n > 0 {
        n - 1
    } else {
        0
    };
    let source = Some(path.to_string());
    let ghost src = Some(path@);
    proof {
        assert(opt_view(source) == src);
    }
    let mut anc_list: Vec<Vec<char>> = Vec::new();
    let mut q: usize = 0;
    while q < dc
        invariant
            q <= dc <= ancs@.len(),
            views(anc_list@) == views(ancs@).take(q as int),
        decreases dc - q,
    {
        let c = slice_chars(ancs[q].as_slice(), 0, ancs[q].len());
        assert(ancs@[q as int]@.subrange(0, ancs@[q as int]@.len() as int) =~= ancs@[q as int]@);
        let ghost before = views(anc_list@);
        anc_list.push(c);
        assert(views(anc_list@) =~= before.push(ancs@[q as int]@));
        assert(views(ancs@).take(q + 1) =~= views(ancs@).take(q as int).push(ancs@[q as int]@));
        q = q + 1;
    }
    let mut rules: Vec<Rule> = Vec::new();
    let ghost old_dirs = views(dirs@);
    let r1 = push_dir_rules(&anc_list, true, true, &source, &mut rules);
    proof {
        assert(rules_view(Seq::<Rule>::empty()) =~= Seq::<RuleV>::empty());
        assert(Seq::<RuleV>::empty() + rules_view(rules@) =~= rules_view(rules@));
    }
    match r1 {
        Err(e) => {
            set_error(out, e);
            return;
        },
        Ok(()) => {},
    }
    add_unique_exec(dirs, &ancs, dc);
    if n == 0 {
        finish_rules(out, Ok(()), rules);
        return;
    }
    let last = &ancs[n - 1];
    proof {
        assert(av.last() == last@);
    }
    if (pc.len() > 0 && pc[pc.len() - 1] == '/') || hint {
        let mut below = slice_chars(last.as_slice(), 0, last.len());
        below.push('/');
        below.push('*');
        below.push('*');
        assert(last@.subrange(0, last@.len() as int) =~= last@);
        assert(below@ =~= last@ + seq!['/', '*', '*']);
        let mut xs1: Vec<Vec<char>> = Vec::new();
        xs1.push(below);
        assert(views(xs1@) =~= seq![last@ + seq!['/', '*', '*']]);
        let ghost mid = rules_view(rules@);
        let r2 = push_dir_rules(&xs1, false, false, &source, &mut rules);
        match r2 {
            Err(e) => {
                set_error(out, e);
                return;
            },
            Ok(()) => {},
        }
        let mut xs2: Vec<Vec<char>> = Vec::new();
        xs2.push(slice_chars(last.as_slice(), 0, last.len()));
        assert(views(xs2@) =~= seq![last@]);
        let ghost mid2 = rules_view(rules@);
        let r3 = push_dir_rules(&xs2, true, false, &source, &mut rules);
        add_one_dir(dirs, last);
        proof {
            if let Ok(a) = implied_dir_rules(av.take(dc as int), src) {
                if let Ok(b) = glob_rules(seq![last@ + seq!['/', '*', '*']], RuleKind::Include, false, no_flags(), src, false) {
                    if let Ok(c) = glob_rules(seq![last@], RuleKind::Include, false, no_flags(), src, true) {
                        assert(rules_view(rules@) =~= a + (b + c));
                    }
                }
            }
        }
        finish_rules(out, r3, rules);
    } else {
        let mut line: Vec<char> = Vec::new();
        line.push('+');
        if !from0 {
            line.push(' ');
        }
        push_chars(&mut line, last.as_slice());
        line.push('\n');
        proof {
            if from0 {
                assert(line@ =~= seq!['+'] + last@ + seq!['\n']);
            } else {
                assert(line@ =~= seq!['+', ' '] + last@ + seq!['\n']);
            }
        }
        let ghost before = out@;
        finish_rules(out, Ok(()), rules);
        scan_text(&line, from0, depth + 1, &source, out);
        proof {
            lemma_scan_then_assoc(before, result_scan(Ok(rules_view(rules@))), text_scan(line@, from0, (depth + 1) as nat, src));
        }
    }
}

fn add_one_dir(dirs: &mut Vec<Vec<char>>, d: &Vec<char>)
    ensures
        views(final(dirs)@) == add_unique(views(old(dirs)@), seq![d@]),
{
    let mut xs: Vec<Vec<char>> = Vec::new();
    xs.push(slice_chars(d.as_slice(), 0, d.len()));
    assert(d@.subrange(0, d@.len() as int) =~= d@);
    assert(views(xs@) =~= seq![d@]);
    assert(views(xs@).take(1) =~= seq![d@]);
    add_unique_exec(dirs, &xs, 1);
}

/// The rules of a `files-from` list (see `files_from_spec`): `pats` are
/// the listed paths read from `path`, `hints` whether each names a
/// directory on disk.
pub fn files_from_rules(
    pats: &Vec<String>,
    hints: &Vec<bool>,
    path: &str,
    from0: bool,
    depth: usize,
) -> (r: LineScan)
    requires
        hints@.len() == pats@.len(),
        depth < usize::MAX,
    ensures
        r@ == files_from_spec(strings_view(pats@), hints@, path@, from0, depth as nat),
{
    let ghost pv = strings_view(pats@);
    let ghost hv = hints@;
    let ghost total = ff_pats(pv, hv, 0, Seq::empty(), path@, from0, depth as nat);
    let mut out = new_scan();
    let mut dirs: Vec<Vec<char>> = Vec::new();
    let mut k: usize = 0;
    proof {
        assert(views(dirs@) =~= Seq::<Seq<char>>::empty());
        assert(Seq::<ItemV>::empty() + total.0.items =~= total.0.items);
    }
    while k < pats.len()
        invariant
            k <= pats@.len(),
            hv.len() == pv.len(),
            pv == strings_view(pats@),
            hv == hints@,
            depth < usize::MAX,
            total == ff_pats(pv, hv, 0, Seq::empty(), path@, from0, depth as nat),
            out@.error is None,
            scan_then(out@, ff_pats(pv, hv, k as nat, views(dirs@), path@, from0, depth as nat).0)
                == total.0,
            ff_pats(pv, hv, k as nat, views(dirs@), path@, from0, depth as nat).1 == total.1,
        decreases pats@.len() - k,
    {
        let ghost before = out@;
        let ghost dv = views(dirs@);
        proof {
            assert(pv[k as int] == pats@[k as int]@);
        }
        ff_pat_exec(pats[k].as_str(), hints[k], &mut dirs, path, from0, depth, &mut out);
        proof {
            let (s1, d1) = ff_pat(pv[k as int], hv[k as int], dv, path@, from0, depth as nat);
            let (s2, d2) = ff_pats(pv, hv, (k + 1) as nat, d1, path@, from0, depth as nat);
            lemma_scan_then_assoc(before, s1, s2);
        }
        if out.error.is_some() {
            return out;
        }
        k = k + 1;
    }
    proof {
        lemma_scan_then_empty(out@);
    }
    let ghost dirs_final = views(dirs@);
    let ghost rest = scan_then(
        dirs_scan(dirs_final, path@, from0, depth as nat),
        all_rest_scan(path@, from0, depth as nat),
    );
    let mut q: usize = 0;
    proof {
        assert(dirs_final.skip(0) =~= dirs_final);
        assert(files_from_spec(pv, hv, path@, from0, depth as nat) == scan_then(total.0, rest));
    }
    while q < dirs.len()
        invariant
            q <= dirs@.len(),
            dirs_final == views(dirs@),
            dirs_final == total.1,
            total == ff_pats(pv, hv, 0, Seq::empty(), path@, from0, depth as nat),
            files_from_spec(pv, hv, path@, from0, depth as nat) == scan_then(total.0, rest),
            pv == strings_view(pats@),
            hv == hints@,
            depth < usize::MAX,
            out@.error is None,
            scan_then(
                out@,
                scan_then(
                    dirs_scan(dirs_final.skip(q as int), path@, from0, depth as nat),
                    all_rest_scan(path@, from0, depth as nat),
                ),
            ) == scan_then(total.0, rest),
        decreases dirs@.len() - q,
    {
        proof {
            assert(dirs_final[q as int] == dirs@[q as int]@);
            assert(dirs_final.skip(q as int)[0] == dirs_final[q as int]);
            assert(dirs_final.skip(q as int).drop_first() =~= dirs_final.skip(q + 1));
        }
        let ghost before = out@;
        scan_dir_rest(dirs[q].as_slice(), path, from0, depth, &mut out);
        proof {
            let t = dir_rest_scan(dirs_final[q as int], path@, from0, depth as nat);
            let d2 = dirs_scan(dirs_final.skip(q + 1), path@, from0, depth as nat);
            let z = all_rest_scan(path@, from0, depth as nat);
            lemma_scan_then_assoc(t, d2, z);
            lemma_scan_then_assoc(before, t, scan_then(d2, z));
        }
        if out.error.is_some() {
            return out;
        }
        q = q + 1;
    }
    proof {
        assert(dirs_final.skip(dirs@.len() as int) =~= Seq::<Seq<char>>::empty());
        let z = all_rest_scan(path@, from0, depth as nat);
        assert(scan_then(empty_scan(), z) =~= z) by {
            assert(Seq::<ItemV>::empty() + z.items =~= z.items);
        }
    }
    scan_all_rest(path, from0, depth, &mut out);
    out
}

} // verus!
