//! Per-directory merge files: the text a merge file's contents become
//! before parsing (CVS ignore words rooted at the directory, words split
//! one per line, a default sign for unsigned rules, patterns rooted at the
//! directory the file sits in), and the early check that skips a nested
//! merge file in an excluded directory.

use vstd::prelude::*;

use super::error::{ErrV, ParseError};
use super::matching::{may_descend, rule_hits, strip_leading_slashes, strip_leading_slashes_at};
use super::merges::{rule_with_flags, word_lines, words, words_of};
use super::paths::split_on;
use super::pattern::views;
use super::rule::{flags_union, DataV, PerDir, PerDirV, Rule, RuleFlags, RuleV};
use super::text::{
    chars_eq_str, chars_of, lines, lines_of, push_chars, skip_ws, slice_chars, string_of, trim,
    trim_chars, trim_start, views_of,
};
use super::token::{contains_char, lemma_mods_end, mods_end};

verus! {

/// The non-empty NUL-separated tokens of `s`, one per line.
pub open spec fn nul_word_lines(parts: Seq<Seq<char>>) -> Seq<char>
    decreases parts.len(),
{
    if parts.len() == 0 {
        Seq::empty()
    } else {
        let rest = nul_word_lines(parts.drop_last());
        if parts.last().len() == 0 {
            rest
        } else {
            rest + parts.last() + seq!['\n']
        }
    }
}

/// `pat` rooted at the directory `rel`.
pub open spec fn under_rel(rel: Seq<char>, pat: Seq<char>) -> Seq<char> {
    if pat.len() > 0 && pat[0] == '/' {
        seq!['/'] + rel + seq!['/'] + strip_leading_slashes(pat)
    } else {
        rel + seq!['/'] + pat
    }
}

/// The rule lines of CVS ignore words, rooted at `rel`; a word that starts
/// with `!` is refused.
pub open spec fn cvs_merge_text(ws: Seq<Seq<char>>, rel: Seq<char>) -> Result<Seq<char>, ErrV>
    decreases ws.len(),
{
    if ws.len() == 0 {
        Ok(Seq::empty())
    } else {
        let t = ws[0];
        let rest = cvs_merge_text(ws.drop_first(), rel);
        if t.len() == 0 || t[0] == '#' {
            rest
        } else if t[0] == '!' {
            Err(ErrV::InvalidRule(t))
        } else {
            let tok = strip_leading_slashes(t);
            let pat = if rel.len() == 0 {
                seq!['/'] + tok
            } else {
                seq!['/'] + rel + seq!['/'] + tok
            };
            match rest {
                Ok(x) => Ok(seq!['-', ' '] + pat + seq!['\n'] + x),
                Err(e) => Err(e),
            }
        }
    }
}

pub open spec fn merge_mod_set() -> Seq<char> {
    seq!['/', '!', 'C', 's', 'r', 'p', 'x']
}

/// The modifiers and pattern of a rule body in a merge file with a
/// default sign: leading whitespace, an optional `,`, a run of modifier
/// characters, then the pattern without its leading whitespace.
pub open spec fn merge_split_mods(s: Seq<char>) -> (Seq<char>, Seq<char>) {
    let t = trim_start(s);
    let start: nat = if t.len() > 0 && t[0] == ',' {
        1
    } else {
        0
    };
    let idx = mods_end(t, merge_mod_set(), start);
    (t.take(idx as int), trim_start(t.skip(idx as int)))
}

pub open spec fn is_sign_letter(c: char) -> bool {
    c == '+' || c == '-' || c == 'P' || c == 'p' || c == 'S' || c == 'H' || c == 'R'
}

/// The line a rule of a merge file with default sign `ch` becomes.
pub open spec fn signed_unit(raw: Seq<char>, ch: char, rel: Option<Seq<char>>) -> Seq<char> {
    let line = trim(raw);
    if line.len() == 0 || line[0] == '#' {
        Seq::empty()
    } else if line == seq!['!'] {
        seq!['!', '\n']
    } else {
        let prefixed = is_sign_letter(line[0]);
        let rest = if prefixed {
            line.skip(1)
        } else {
            line
        };
        let (mods, pat) = merge_split_mods(rest);
        let new_pat = match rel {
            Some(r) => under_rel(r, pat),
            None => pat,
        };
        seq![
            if prefixed {
                line[0]
            } else {
                ch
            },
        ] + mods + seq![' '] + new_pat + seq!['\n']
    }
}

/// The sign a rule of a merge file under a subdirectory starts with, and
/// the rest of it.
pub open spec fn rel_kind(line: Seq<char>) -> Option<(Seq<char>, Seq<char>)> {
    if line.len() == 0 {
        None
    } else if line[0] == '+' || line[0] == '-' || line[0] == 'S' || line[0] == 'H' || line[0]
        == 'R' {
        Some((seq![line[0]], trim_start(line.skip(1))))
    } else if line[0] == 'P' || line[0] == 'p' {
        Some((seq!['P'], trim_start(line.skip(1))))
    } else if line.len() >= 2 && line[0] == 'E' && (line[1] == '+' || line[1] == '-') {
        Some((seq!['E', line[1]], trim_start(line.skip(2))))
    } else {
        None
    }
}

/// The line a rule of a merge file in the subdirectory `rel` becomes: its
/// pattern rooted there; a line of another kind stays as it is.
pub open spec fn rel_unit(raw: Seq<char>, rel: Seq<char>) -> Seq<char> {
    let line = trim(raw);
    if line.len() == 0 || line[0] == '#' {
        Seq::empty()
    } else if line == seq!['!'] {
        seq!['!', '\n']
    } else {
        match rel_kind(line) {
            Some((kind, pat)) => kind + seq![' '] + under_rel(rel, pat) + seq!['\n'],
            None => raw + seq!['\n'],
        }
    }
}

pub open spec fn signed_units(us: Seq<Seq<char>>, ch: char, rel: Option<Seq<char>>) -> Seq<char>
    decreases us.len(),
{
    if us.len() == 0 {
        Seq::empty()
    } else {
        signed_units(us.drop_last(), ch, rel) + signed_unit(us.last(), ch, rel)
    }
}

pub open spec fn rel_units(us: Seq<Seq<char>>, rel: Seq<char>) -> Seq<char>
    decreases us.len(),
{
    if us.len() == 0 {
        Seq::empty()
    } else {
        rel_units(us.drop_last(), rel) + rel_unit(us.last(), rel)
    }
}

/// The units of merge-file text: NUL-separated with `from0`, else lines.
pub open spec fn units(c: Seq<char>, from0: bool) -> Seq<Seq<char>> {
    if from0 {
        split_on(c, '\0')
    } else {
        lines(c)
    }
}

/// The text a per-directory merge file's `content` is parsed as. With
/// `cvs`, its words become exclude rules rooted at the directory `rel`;
/// else `word_split` puts each word on a line of its own, and then a
/// default `sign` is given to unsigned rules, or rules are rooted at the
/// subdirectory `rel`.
pub open spec fn merge_text(
    content: Seq<char>,
    cvs: bool,
    word_split: bool,
    sign: Option<char>,
    rel: Option<Seq<char>>,
    from0: bool,
) -> Result<Seq<char>, ErrV> {
    if cvs {
        cvs_merge_text(
            words(content, false),
            match rel {
                Some(r) => r,
                None => Seq::empty(),
            },
        )
    } else {
        let c1 = if word_split {
            if from0 {
                nul_word_lines(split_on(content, '\0'))
            } else {
                word_lines(words(content, false))
            }
        } else {
            content
        };
        match sign {
            Some(ch) => Ok(signed_units(units(c1, from0), ch, rel)),
            None => match rel {
                Some(r) => Ok(rel_units(units(c1, from0), r)),
                None => Ok(c1),
            },
        }
    }
}

fn under_rel_exec(rel: &[char], pat: &[char], out: &mut Vec<char>)
    ensures
        final(out)@ == old(out)@ + under_rel(rel@, pat@),
{
    let ghost start = out@;
    if pat.len() > 0 && pat[0] == '/' {
        out.push('/');
        push_chars(out, rel);
        out.push('/');
        let a = strip_leading_slashes_at(pat, 0);
        let t = slice_chars(pat, a, pat.len());
        proof {
            assert(pat@.skip(0) =~= pat@);
            assert(t@ =~= pat@.skip(a as int));
        }
        push_chars(out, &t);
        assert(out@ =~= start + (seq!['/'] + rel@ + seq!['/'] + strip_leading_slashes(pat@)));
    } else {
        push_chars(out, rel);
        out.push('/');
        push_chars(out, pat);
        assert(out@ =~= start + (rel@ + seq!['/'] + pat@));
    }
}

fn cvs_merge_exec(ws: &Vec<Vec<char>>, rel: &[char]) -> (r: Result<Vec<char>, ParseError>)
    ensures
        match cvs_merge_text(views(ws@), rel@) {
            Ok(t) => r matches Ok(v) && v@ == t,
            Err(e) => r matches Err(x) && x@ == e,
        },
{
    let ghost wv = views(ws@);
    let mut out: Vec<char> = Vec::new();
    let mut k: usize = 0;
    proof {
        assert(wv.skip(0) =~= wv);
    }
    while k < ws.len()
        invariant
            k <= ws@.len(),
            wv == views(ws@),
            cvs_merge_text(wv, rel@) == match cvs_merge_text(wv.skip(k as int), rel@) {
                Ok(x) => Ok(out@ + x),
                Err(e) => Err(e),
            },
        decreases ws@.len() - k,
    {
        let t = &ws[k];
        proof {
            assert(wv[k as int] == t@);
            assert(wv.skip(k as int)[0] == t@);
            assert(wv.skip(k as int).drop_first() =~= wv.skip(k + 1));
        }
        if t.len() == 0 || t[0] == '#' {
        } else if t[0] == '!' {
            return Err(ParseError::InvalidRule(string_of(t.as_slice())));
        } else {
            let ghost before = out@;
            let a = strip_leading_slashes_at(t.as_slice(), 0);
            let tok = slice_chars(t.as_slice(), a, t.len());
            proof {
                assert(t@.skip(0) =~= t@);
                assert(tok@ =~= t@.skip(a as int));
            }
            out.push('-');
            out.push(' ');
            out.push('/');
            if rel.len() > 0 {
                push_chars(&mut out, rel);
                out.push('/');
            }
            push_chars(&mut out, &tok);
            out.push('\n');
            proof {
                let pat = if rel@.len() == 0 {
                    seq!['/'] + tok@
                } else {
                    seq!['/'] + rel@ + seq!['/'] + tok@
                };
                assert(out@ =~= before + (seq!['-', ' '] + pat + seq!['\n']));
                match cvs_merge_text(wv.skip(k + 1), rel@) {
                    Ok(x) => {
                        assert(before + (seq!['-', ' '] + pat + seq!['\n'] + x) =~= out@ + x);
                    },
                    Err(e) => {},
                }
            }
        }
        k = k + 1;
    }
    proof {
        assert(wv.skip(ws@.len() as int) =~= Seq::<Seq<char>>::empty());
        assert(out@ + Seq::<char>::empty() =~= out@);
    }
    Ok(out)
}

fn merge_split_mods_exec(s: &[char]) -> (r: (Vec<char>, Vec<char>))
    ensures
        r.0@ == merge_split_mods(s@).0,
        r.1@ == merge_split_mods(s@).1,
{
    let a = skip_ws(s, 0);
    let t = slice_chars(s, a, s.len());
    proof {
        assert(s@.skip(0) =~= s@);
        assert(t@ =~= s@.skip(a as int));
    }
    let allowed = vec!['/', '!', 'C', 's', 'r', 'p', 'x'];
    assert(allowed@ =~= merge_mod_set());
    let mut idx: usize = if t.len() > 0 && t[0] == ',' {
        1
    } else {
        0
    };
    let ghost start = idx as nat;
    proof {
        lemma_mods_end(t@, allowed@, start);
    }
    while idx < t.len() && contains_char(&allowed, t[idx])
        invariant
            start <= idx <= t@.len(),
            mods_end(t@, allowed@, idx as nat) == mods_end(t@, allowed@, start),
        decreases t@.len() - idx,
    {
        idx = idx + 1;
    }
    let mods = slice_chars(&t, 0, idx);
    assert(mods@ =~= t@.take(idx as int));
    let b = skip_ws(&t, idx);
    let pat = slice_chars(&t, b, t.len());
    assert(pat@ =~= t@.skip(b as int));
    (mods, pat)
}

fn is_single_bang(l: &[char]) -> (r: bool)
    ensures
        r == (l@ == seq!['!']),
{
    let r = l.len() == 1 && l[0] == '!';
    proof {
        if l@.len() == 1 && l@[0] == '!' {
            assert(l@ =~= seq!['!']);
        }
    }
    r
}

fn signed_unit_exec(raw: &[char], ch: char, rel: &Option<Vec<char>>, out: &mut Vec<char>)
    ensures
        final(out)@ == old(out)@ + signed_unit(
            raw@,
            ch,
            match rel {
                Some(r) => Some(r@),
                None => None,
            },
        ),
{
    let ghost start = out@;
    let line = trim_chars(raw);
    if line.len() == 0 || line[0] == '#' {
        assert(start + Seq::<char>::empty() =~= start);
        return;
    }
    if is_single_bang(&line) {
        out.push('!');
        out.push('\n');
        assert(out@ =~= start + seq!['!', '\n']);
        return;
    }
    let c = line[0];
    let prefixed = c == '+' || c == '-' || c == 'P' || c == 'p' || c == 'S' || c == 'H' || c == 'R';
    let rest = if prefixed {
        slice_chars(&line, 1, line.len())
    } else {
        slice_chars(&line, 0, line.len())
    };
    proof {
        if prefixed {
            assert(rest@ =~= line@.skip(1));
        } else {
            assert(rest@ =~= line@);
        }
    }
    let (mods, pat) = merge_split_mods_exec(&rest);
    out.push(if prefixed {
        c
    } else {
        ch
    });
    push_chars(out, &mods);
    out.push(' ');
    let ghost mid = out@;
    match rel {
        Some(r) => {
            under_rel_exec(r.as_slice(), &pat, out);
        },
        None => {
            push_chars(out, &pat);
        },
    }
    let ghost mid2 = out@;
    out.push('\n');
    proof {
        let new_pat = match rel {
            Some(r) => under_rel(r@, pat@),
            None => pat@,
        };
        assert(mid2 =~= mid + new_pat);
        assert(out@ =~= start + (seq![
            if prefixed {
                c
            } else {
                ch
            },
        ] + mods@ + seq![' '] + new_pat + seq!['\n']));
    }
}

fn rel_unit_exec(raw: &[char], rel: &[char], out: &mut Vec<char>)
    ensures
        final(out)@ == old(out)@ + rel_unit(raw@, rel@),
{
    let ghost start = out@;
    let line = trim_chars(raw);
    if line.len() == 0 || line[0] == '#' {
        assert(start + Seq::<char>::empty() =~= start);
        return;
    }
    if is_single_bang(&line) {
        out.push('!');
        out.push('\n');
        assert(out@ =~= start + seq!['!', '\n']);
        return;
    }
    let c = line[0];
    let (klen, kind_p): (usize, bool) = if c == '+' || c == '-' || c == 'S' || c == 'H' || c == 'R' {
        (1, false)
    } else if c == 'P' || c == 'p' {
        (1, true)
    } else if line.len() >= 2 && c == 'E' && (line[1] == '+' || line[1] == '-') {
        (2, false)
    } else {
        (0, false)
    };
    if klen == 0 {
        push_chars(out, raw);
        out.push('\n');
        assert(rel_kind(line@) is None);
        assert(out@ =~= start + (raw@ + seq!['\n']));
        return;
    }
    let after = slice_chars(&line, klen, line.len());
    let a = skip_ws(&after, 0);
    let pat = slice_chars(&after, a, after.len());
    proof {
        assert(after@.skip(0) =~= after@);
        assert(pat@ =~= trim_start(line@.skip(klen as int)));
    }
    if kind_p {
        out.push('P');
    } else {
        out.push(c);
        if klen == 2 {
            out.push(line[1]);
        }
    }
    let ghost kv = if kind_p {
        seq!['P']
    } else if klen == 2 {
        seq![c, line@[1]]
    } else {
        seq![c]
    };
    proof {
        assert(rel_kind(line@) == Some((kv, pat@)));
    }
    out.push(' ');
    under_rel_exec(rel, &pat, out);
    out.push('\n');
    assert(out@ =~= start + (kv + seq![' '] + under_rel(rel@, pat@) + seq!['\n']));
}

fn units_of(c: &[char], from0: bool) -> (r: Vec<Vec<char>>)
    ensures
        views(r@) == units(c@, from0),
{
    if from0 {
        let r = super::paths::split_chars(c, '\0');
        assert(views(r@) == views_of(r@));
        r
    } else {
        let r = lines_of(c);
        assert(views(r@) == views_of(r@));
        r
    }
}

fn nul_word_lines_exec(c: &[char]) -> (r: Vec<char>)
    ensures
        r@ == nul_word_lines(split_on(c@, '\0')),
{
    let parts = super::paths::split_chars(c, '\0');
    let ghost pv = views_of(parts@);
    let mut out: Vec<char> = Vec::new();
    let mut k: usize = 0;
    while k < parts.len()
        invariant
            k <= parts@.len(),
            pv == views_of(parts@),
            out@ == nul_word_lines(pv.take(k as int)),
        decreases parts@.len() - k,
    {
        proof {
            assert(pv.take(k + 1).drop_last() =~= pv.take(k as int));
            assert(pv.take(k + 1).last() == parts@[k as int]@);
        }
        if parts[k].len() > 0 {
            push_chars(&mut out, parts[k].as_slice());
            out.push('\n');
        }
        k = k + 1;
    }
    proof {
        assert(pv.take(parts@.len() as int) =~= pv);
    }
    out
}

/// The text a per-directory merge file's `content` is parsed as (see
/// `merge_text`), or the error for a CVS word that starts with `!`.
pub fn adjust_merge_text(
    content: &str,
    cvs: bool,
    word_split: bool,
    sign: Option<char>,
    rel: Option<&str>,
    from0: bool,
) -> (r: Result<String, ParseError>)
    ensures
        match merge_text(
            content@,
            cvs,
            word_split,
            sign,
            match rel {
                Some(x) => Some(x@),
                None => None,
            },
            from0,
        ) {
            Ok(t) => r matches Ok(s) && s@ == t,
            Err(e) => r matches Err(x) && x@ == e,
        },
{
    let c = chars_of(content);
    let relv: Option<Vec<char>> = match rel {
        Some(x) => Some(chars_of(x)),
        None => None,
    };
    if cvs {
        let ws = words_of(&c, false);
        let rv = match &relv {
            Some(r) => slice_chars(r.as_slice(), 0, r.len()),
            None => Vec::new(),
        };
        proof {
            if let Some(r) = relv {
                assert(r@.subrange(0, r@.len() as int) =~= r@);
            } else {
                assert(rv@ =~= Seq::<char>::empty());
            }
        }
        return match cvs_merge_exec(&ws, &rv) {
            Ok(v) => Ok(string_of(&v)),
            Err(e) => Err(e),
        };
    }
    let c1 = if word_split {
        if from0 {
            nul_word_lines_exec(&c)
        } else {
            let ws = words_of(&c, false);
            super::merges::word_lines_exec(&ws)
        }
    } else {
        c
    };
    match sign {
        Some(ch) => {
            let us = units_of(&c1, from0);
            let ghost uv = views(us@);
            let mut out: Vec<char> = Vec::new();
            let mut k: usize = 0;
            while k < us.len()
                invariant
                    k <= us@.len(),
                    uv == views(us@),
                    out@ == signed_units(
                        uv.take(k as int),
                        ch,
                        match relv {
                            Some(r) => Some(r@),
                            None => None,
                        },
                    ),
                decreases us@.len() - k,
            {
                proof {
                    assert(uv.take(k + 1).drop_last() =~= uv.take(k as int));
                    assert(uv.take(k + 1).last() == us@[k as int]@);
                }
                signed_unit_exec(us[k].as_slice(), ch, &relv, &mut out);
                k = k + 1;
            }
            proof {
                assert(uv.take(us@.len() as int) =~= uv);
            }
            Ok(string_of(&out))
        },
        None => match &relv {
            Some(r) => {
                let us = units_of(&c1, from0);
                let ghost uv = views(us@);
                let mut out: Vec<char> = Vec::new();
                let mut k: usize = 0;
                while k < us.len()
                    invariant
                        k <= us@.len(),
                        uv == views(us@),
                        out@ == rel_units(uv.take(k as int), r@),
                    decreases us@.len() - k,
                {
                    proof {
                        assert(uv.take(k + 1).drop_last() =~= uv.take(k as int));
                        assert(uv.take(k + 1).last() == us@[k as int]@);
                    }
                    rel_unit_exec(us[k].as_slice(), r.as_slice(), &mut out);
                    k = k + 1;
                }
                proof {
                    assert(uv.take(us@.len() as int) =~= uv);
                }
                Ok(string_of(&out))
            },
            None => Ok(string_of(&c1)),
        },
    }
}

/// Whether a rule touches `path`: it matches (an inverted one when it does
/// not), or the path is a directory below which it may match.
pub open spec fn touches(d: DataV, path: Seq<char>, is_dir: bool) -> bool {
    (d.invert != rule_hits(d.pattern, d.glob, d.has_slash, path)) || (is_dir && may_descend(
        d.pattern,
        d.has_slash,
        path,
    ))
}

/// Whether the first rule from the `i`th on that touches `path` is an
/// exclude rule; a directory rule is passed over for a file.
pub open spec fn excluded_from(rs: Seq<(usize, RuleV)>, i: nat, path: Seq<char>, is_dir: bool) -> bool
    decreases rs.len() - i,
{
    if i >= rs.len() {
        false
    } else {
        match rs[i as int].1 {
            RuleV::Include(d) => if !(d.dir_only && !is_dir) && touches(d, path, is_dir) {
                false
            } else {
                excluded_from(rs, i + 1, path, is_dir)
            },
            RuleV::Protect(d) => if !(d.dir_only && !is_dir) && touches(d, path, is_dir) {
                false
            } else {
                excluded_from(rs, i + 1, path, is_dir)
            },
            RuleV::ImpliedDir(d) => if !(d.dir_only && !is_dir) && touches(d, path, is_dir) {
                false
            } else {
                excluded_from(rs, i + 1, path, is_dir)
            },
            RuleV::Exclude(d) => if !(d.dir_only && !is_dir) && touches(d, path, is_dir) {
                true
            } else {
                excluded_from(rs, i + 1, path, is_dir)
            },
            _ => excluded_from(rs, i + 1, path, is_dir),
        }
    }
}

pub open spec fn indexed_view(rs: Seq<(usize, Rule)>) -> Seq<(usize, RuleV)> {
    rs.map_values(|p: (usize, Rule)| (p.0, p.1@))
}

fn touches_exec(d: &super::rule::RuleData, path: &str, is_dir: bool) -> (r: bool)
    ensures
        r == touches(d@, path@, is_dir),
{
    (d.invert() != d.matches_path(path)) || (is_dir && d.may_match_descendant(path))
}

/// Whether the rules loaded so far from a merge file exclude `path`, a
/// directory when `is_dir` (see `excluded_from`).
pub fn is_excluded(rules: &Vec<(usize, Rule)>, path: &str, is_dir: bool) -> (r: bool)
    ensures
        r == excluded_from(indexed_view(rules@), 0, path@, is_dir),
{
    let ghost rv = indexed_view(rules@);
    let mut i: usize = 0;
    while i < rules.len()
        invariant
            i <= rules@.len(),
            rv == indexed_view(rules@),
            excluded_from(rv, i as nat, path@, is_dir) == excluded_from(rv, 0, path@, is_dir),
        decreases rules@.len() - i,
    {
        proof {
            assert(rv[i as int] == (rules@[i as int].0, rules@[i as int].1@));
        }
        match &rules[i].1 {
            Rule::Include(d) | Rule::Protect(d) | Rule::ImpliedDir(d) => {
                if !(d.dir_only() && !is_dir) && touches_exec(d, path, is_dir) {
                    return false;
                }
            },
            Rule::Exclude(d) => {
                if !(d.dir_only() && !is_dir) && touches_exec(d, path, is_dir) {
                    return true;
                }
            },
            _ => {},
        }
        i = i + 1;
    }
    false
}

/// A rule loaded from a merge file, with the merge rule's flags joined to
/// its own.
pub open spec fn loaded_with_flags(r: RuleV, f: RuleFlags) -> RuleV {
    match r {
        RuleV::DirMerge(pd) => RuleV::DirMerge(PerDirV { flags: flags_union(pd.flags, f), ..pd }),
        _ => rule_with_flags(r, f),
    }
}

/// The rules `rules`, loaded from a merge file whose merge rule carries
/// `flags`, each with those flags joined to its own.
pub fn with_merge_flags(rules: Vec<(usize, Rule)>, flags: RuleFlags) -> (r: Vec<(usize, Rule)>)
    ensures
        indexed_view(r@) == indexed_view(rules@).map_values(
            |p: (usize, RuleV)| (p.0, loaded_with_flags(p.1, flags)),
        ),
{
    let ghost orig = indexed_view(rules@);
    let ghost f = |p: (usize, RuleV)| (p.0, loaded_with_flags(p.1, flags));
    let mut rules = rules;
    let mut out: Vec<(usize, Rule)> = Vec::new();
    let mut k: usize = 0;
    assert(orig.len() == rules.len());
    assert(orig.skip(0) =~= orig);
    while rules.len() > 0
        invariant
            k + rules@.len() == orig.len(),
            orig.len() <= usize::MAX,
            indexed_view(rules@) == orig.skip(k as int),
            indexed_view(out@) == orig.take(k as int).map_values(f),
            f == (|p: (usize, RuleV)| (p.0, loaded_with_flags(p.1, flags))),
        decreases rules@.len(),
    {
        let ghost old_rules = rules@;
        proof {
            assert(indexed_view(rules@)[0] == (rules@[0].0, rules@[0].1@));
        }
        let (idx, r) = rules.remove(0);
        proof {
            assert(rules@ =~= old_rules.subrange(1, old_rules.len() as int));
            assert(indexed_view(rules@) =~= orig.skip(k + 1)) by {
                assert forall|i: int| 0 <= i < rules@.len() implies indexed_view(rules@)[i]
                    == orig.skip(k + 1)[i] by {
                    assert(rules@[i] == old_rules[i + 1]);
                    assert(indexed_view(old_rules)[i + 1] == orig.skip(k as int)[i + 1]);
                }
            }
            assert((idx, r@) == orig[k as int]);
        }
        let j = match r {
            Rule::DirMerge(pd) => {
                let mut pd = pd;
                pd.flags = pd.flags.union(&flags);
                Rule::DirMerge(pd)
            },
            other => super::merges::join_flags(other, flags),
        };
        let ghost before = indexed_view(out@);
        out.push((idx, j));
        proof {
            assert((idx, j@) == f(orig[k as int]));
            assert(indexed_view(out@) =~= before.push((idx, j@)));
            assert(orig.take(k + 1).map_values(f) =~= orig.take(k as int).map_values(f).push(
                f(orig[k as int]),
            ));
        }
        k = k + 1;
    }
    proof {
        assert(orig.take(k as int) =~= orig);
    }
    out
}

pub open spec fn pd_view(ps: Seq<(usize, PerDir)>) -> Seq<(usize, PerDirV)> {
    ps.map_values(|p: (usize, PerDir)| (p.0, p.1@))
}

/// `e` put into `s`, ordered by index, after those with the same index.
pub open spec fn insert_by_index(s: Seq<(usize, PerDirV)>, e: (usize, PerDirV)) -> Seq<(usize, PerDirV)>
    decreases s.len(),
{
    if s.len() == 0 {
        seq![e]
    } else if e.0 < s[0].0 {
        seq![e] + s
    } else {
        seq![s[0]] + insert_by_index(s.drop_first(), e)
    }
}

/// `s` ordered by index, keeping the order of those with equal indices.
pub open spec fn sort_by_index(s: Seq<(usize, PerDirV)>) -> Seq<(usize, PerDirV)>
    decreases s.len(),
{
    if s.len() == 0 {
        Seq::empty()
    } else {
        insert_by_index(sort_by_index(s.drop_last()), s.last())
    }
}

pub open spec fn index_insert_at(s: Seq<(usize, PerDirV)>, e: (usize, PerDirV), i: nat) -> nat
    decreases s.len() - i,
{
    if i >= s.len() {
        s.len()
    } else if e.0 < s[i as int].0 {
        i
    } else {
        index_insert_at(s, e, i + 1)
    }
}

proof fn lemma_insert_by_index(s: Seq<(usize, PerDirV)>, e: (usize, PerDirV), i: nat)
    requires
        i <= s.len(),
    ensures
        i <= index_insert_at(s, e, i) <= s.len(),
        insert_by_index(s.skip(i as int), e) == s.subrange(i as int, index_insert_at(s, e, i) as int)
            + seq![e] + s.skip(index_insert_at(s, e, i) as int),
    decreases s.len() - i,
{
    let t = s.skip(i as int);
    if i >= s.len() {
        assert(t =~= Seq::<(usize, PerDirV)>::empty());
        assert(s.subrange(i as int, i as int) + seq![e] + s.skip(i as int) =~= seq![e]);
    } else if e.0 < s[i as int].0 {
        assert(t[0] == s[i as int]);
        assert(s.subrange(i as int, i as int) + seq![e] + s.skip(i as int) =~= seq![e] + t);
    } else {
        assert(t[0] == s[i as int]);
        assert(t.drop_first() =~= s.skip((i + 1) as int));
        lemma_insert_by_index(s, e, i + 1);
        let j = index_insert_at(s, e, i + 1);
        assert(seq![t[0]] + (s.subrange((i + 1) as int, j as int) + seq![e] + s.skip(j as int))
            =~= s.subrange(i as int, j as int) + seq![e] + s.skip(j as int));
    }
}

/// The merge files `extra` (inherited from parent directories) and `own`
/// together, ordered by index; those with equal indices keep their order.
pub fn order_per_dirs(extra: Vec<(usize, PerDir)>, own: Vec<(usize, PerDir)>) -> (r: Vec<
    (usize, PerDir),
>)
    requires
        extra@.len() + own@.len() <= usize::MAX,
    ensures
        pd_view(r@) == sort_by_index(pd_view(extra@) + pd_view(own@)),
{
    let ghost all = pd_view(extra@) + pd_view(own@);
    let mut src = extra;
    let mut own = own;
    let mut sorted: Vec<(usize, PerDir)> = Vec::new();
    let mut n: usize = 0;
    let ghost total = all.len();
    assert(pd_view(src@) + pd_view(own@) =~= all.skip(0));
    assert(all.take(0) =~= Seq::<(usize, PerDirV)>::empty());
    while src.len() > 0 || own.len() > 0
        invariant
            n + src@.len() + own@.len() == total,
            total == all.len(),
            pd_view(src@) + pd_view(own@) == all.skip(n as int),
            pd_view(sorted@) == sort_by_index(all.take(n as int)),
            n <= usize::MAX,
            total <= usize::MAX,
        decreases src@.len() + own@.len(),
    {
        let ghost old_src = src@;
        let ghost old_own = own@;
        let e = if src.len() > 0 {
            src.remove(0)
        } else {
            own.remove(0)
        };
        let ghost ev = (e.0, e.1@);
        proof {
            assert(all.skip(n as int)[0] == ev) by {
                if old_src.len() > 0 {
                    assert(pd_view(old_src)[0] == ev);
                } else {
                    assert(pd_view(old_own)[0] == ev);
                }
            }
            assert(pd_view(src@) + pd_view(own@) =~= all.skip(n + 1)) by {
                assert(all.skip(n + 1) =~= all.skip(n as int).drop_first());
                if old_src.len() > 0 {
                    assert(src@ =~= old_src.subrange(1, old_src.len() as int));
                    assert(pd_view(src@) =~= pd_view(old_src).drop_first());
                } else {
                    assert(own@ =~= old_own.subrange(1, old_own.len() as int));
                    assert(pd_view(own@) =~= pd_view(old_own).drop_first());
                    assert(pd_view(src@) =~= Seq::<(usize, PerDirV)>::empty());
                }
            }
            assert(all[n as int] == ev);
            assert(all.take(n + 1).drop_last() =~= all.take(n as int));
            assert(all.take(n + 1).last() == ev);
        }
        let ghost sv = pd_view(sorted@);
        proof {
            lemma_insert_by_index(sv, ev, 0);
            assert(sv.skip(0) =~= sv);
        }
        let mut j: usize = 0;
        while j < sorted.len() && !(e.0 < sorted[j].0)
            invariant
                j <= sorted@.len(),
                sv == pd_view(sorted@),
                ev == (e.0, e.1@),
                index_insert_at(sv, ev, j as nat) == index_insert_at(sv, ev, 0),
            decreases sorted@.len() - j,
        {
            j = j + 1;
        }
        proof {
            assert(index_insert_at(sv, ev, j as nat) == j);
        }
        sorted.insert(j, e);
        proof {
            assert(pd_view(sorted@) =~= sv.subrange(0, j as int) + seq![ev] + sv.skip(j as int));
        }
        n = n + 1;
    }
    proof {
        assert(all.take(n as int) =~= all);
    }
    sorted
}

/// Whether two merge descriptions are the same.
pub fn same_per_dir(a: &PerDir, b: &PerDir) -> (r: bool)
    ensures
        r == (a@ == b@),
{
    let f = chars_of(a.file.as_str());
    let same_sign = match (a.sign, b.sign) {
        (Some(x), Some(y)) => x == y,
        (None, None) => true,
        _ => false,
    };
    chars_eq_str(&f, b.file.as_str()) && a.anchored == b.anchored && a.root_only == b.root_only
        && a.inherit == b.inherit && a.cvs == b.cvs && a.word_split == b.word_split && same_sign
        && a.flags == b.flags
}

/// The first index in `s` whose description equals `pd`, if any.
pub open spec fn first_same(s: Seq<(usize, PerDirV)>, pd: PerDirV, i: nat) -> Option<nat>
    decreases s.len() - i,
{
    if i >= s.len() {
        None
    } else if s[i as int].1 == pd {
        Some(i)
    } else {
        first_same(s, pd, i + 1)
    }
}

/// The merge files a directory passes on after it declared `pd` with index
/// `idx`: an inherited description replaces an equal one, at the end.
pub open spec fn recorded(s: Seq<(usize, PerDirV)>, idx: usize, pd: PerDirV) -> Seq<(usize, PerDirV)> {
    if !pd.inherit {
        s
    } else {
        match first_same(s, pd, 0) {
            Some(p) => s.remove(p as int).push((idx, pd)),
            None => s.push((idx, pd)),
        }
    }
}

/// Records that a directory declared the merge file `pd` with index `idx`
/// (see `recorded`).
pub fn record_merge(entry: &mut Vec<(usize, PerDir)>, idx: usize, pd: PerDir)
    ensures
        pd_view(final(entry)@) == recorded(pd_view(old(entry)@), idx, pd@),
{
    if !pd.inherit {
        return;
    }
    let ghost sv = pd_view(entry@);
    let ghost pv = pd@;
    let mut i: usize = 0;
    let mut found: Option<usize> = None;
    while i < entry.len() && found.is_none()
        invariant
            i <= entry@.len(),
            sv == pd_view(entry@),
            pv == pd@,
            found is None ==> first_same(sv, pv, i as nat) == first_same(sv, pv, 0),
            found matches Some(p) ==> first_same(sv, pv, 0) == Some(p as nat) && p < entry@.len(),
        decreases entry@.len() - i + (if found is None {
            1int
        } else {
            0int
        }),
    {
        proof {
            assert(sv[i as int] == (entry@[i as int].0, entry@[i as int].1@));
        }
        if same_per_dir(&entry[i].1, &pd) {
            found = Some(i);
        } else {
            i = i + 1;
        }
    }
    match found {
        Some(p) => {
            entry.remove(p);
            proof {
                assert(pd_view(entry@) =~= sv.remove(p as int));
            }
        },
        None => {},
    }
    let ghost before = pd_view(entry@);
    entry.push((idx, pd));
    assert(pd_view(entry@) =~= before.push((idx, pv)));
}

} // verus!
