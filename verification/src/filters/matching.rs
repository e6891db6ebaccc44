//! Whether one rule matches one path.

use vstd::prelude::*;

use super::glob::{glob_ok, glob_is_match, glob_matches};
use super::paths::{
    components_of, file_name, file_name_of, path_components, split_chars, split_on,
};
use super::rule::RuleData;
use super::text::{chars_of, string_of, views_of};
use super::token::contains_char;

verus! {

/// Whether a rule's glob matches a path: the path with a leading `/`, or,
/// for a pattern without a `/`, also the path's file name.
pub open spec fn glob_hits(glob: Seq<char>, has_slash: bool, path: Seq<char>) -> bool {
    let full = glob_matches(glob, seq!['/'] + path);
    if has_slash {
        full
    } else {
        full || match file_name(path) {
            Some(n) => glob_matches(glob, n),
            None => false,
        }
    }
}

/// `s` without its leading `/` characters.
pub open spec fn strip_leading_slashes(s: Seq<char>) -> Seq<char>
    decreases s.len(),
{
    if s.len() > 0 && s[0] == '/' {
        strip_leading_slashes(s.drop_first())
    } else {
        s
    }
}

/// `s` without its trailing `/` characters.
pub open spec fn strip_trailing_slashes(s: Seq<char>) -> Seq<char>
    decreases s.len(),
{
    if s.len() > 0 && s.last() == '/' {
        strip_trailing_slashes(s.drop_last())
    } else {
        s
    }
}

/// `s` without its leading `./` pairs.
pub open spec fn strip_dot_slashes(s: Seq<char>) -> Seq<char>
    decreases s.len(),
{
    if s.len() >= 2 && s[0] == '.' && s[1] == '/' {
        strip_dot_slashes(s.skip(2))
    } else {
        s
    }
}

/// Whether `s` holds `**`.
pub open spec fn has_double_star(s: Seq<char>) -> bool {
    exists|i: int| 0 <= i && i + 1 < s.len() && #[trigger] star_pair_at(s, i)
}

pub open spec fn star_pair_at(s: Seq<char>, i: int) -> bool {
    s[i] == '*' && s[i + 1] == '*'
}

/// Whether `s` holds a `*` or a `?`.
pub open spec fn has_wildcard(s: Seq<char>) -> bool {
    s.contains('*') || s.contains('?')
}

/// The parts that are neither empty nor `.`.
pub open spec fn count_real_parts(segs: Seq<Seq<char>>) -> nat
    decreases segs.len(),
{
    if segs.len() == 0 {
        0
    } else {
        count_real_parts(segs.drop_last()) + if segs.last().len() == 0 || segs.last() == seq![
            '.',
        ] {
            0nat
        } else {
            1nat
        }
    }
}

/// Whether a rule matches a path. Beyond its glob, a wildcard pattern
/// without `**` matches only paths with as many components as it has parts
/// (a slash-free wildcard pattern other than `*` or `?` only one-component
/// paths), and `**/` followed by such a pattern only one-component paths.
pub open spec fn rule_hits(
    pattern: Seq<char>,
    glob: Seq<char>,
    has_slash: bool,
    path: Seq<char>,
) -> bool {
    let matched = glob_hits(glob, has_slash, path);
    let core = strip_dot_slashes(strip_leading_slashes(pattern));
    let n = path_components(path).len();
    if matched && core.len() >= 3 && core.take(3) == seq!['*', '*', '/'] {
        let rest = core.skip(3);
        !(has_wildcard(rest) && !has_double_star(rest) && n > 1 && rest != seq!['*'] && rest
            != seq!['?'])
    } else if matched && has_wildcard(core) && !has_double_star(core) {
        if has_slash {
            n == count_real_parts(split_on(strip_trailing_slashes(strip_leading_slashes(core)), '/'))
        } else {
            !(n > 1 && core != seq!['*'] && core != seq!['?'])
        }
    } else {
        matched
    }
}

/// Whether a glob character (`*`, `?`, `[`) occurs in `s`.
pub open spec fn has_glob_char(s: Seq<char>) -> bool {
    s.contains('*') || s.contains('?') || s.contains('[')
}

/// Walks the path's components against the pattern's parts from `idx`:
/// a `**` part matches any rest, a part with glob characters must build and
/// match its component, any other part must equal it. The path may lead to
/// a match below it when all its components are matched and parts remain.
pub open spec fn descend_from(ps: Seq<Seq<char>>, qs: Seq<Seq<char>>, idx: nat) -> bool
    decreases qs.len() - idx,
{
    if idx >= qs.len() {
        idx < ps.len()
    } else if idx >= ps.len() {
        false
    } else if ps[idx as int] == seq!['*', '*'] {
        true
    } else if has_glob_char(ps[idx as int]) {
        if !glob_ok(ps[idx as int]) || !glob_matches(ps[idx as int], qs[idx as int]) {
            false
        } else {
            descend_from(ps, qs, idx + 1)
        }
    } else if ps[idx as int] != qs[idx as int] {
        false
    } else {
        descend_from(ps, qs, idx + 1)
    }
}

/// The non-empty parts.
pub open spec fn nonempty_parts(segs: Seq<Seq<char>>) -> Seq<Seq<char>>
    decreases segs.len(),
{
    if segs.len() == 0 {
        Seq::empty()
    } else if segs.last().len() == 0 {
        nonempty_parts(segs.drop_last())
    } else {
        nonempty_parts(segs.drop_last()).push(segs.last())
    }
}

/// Whether a rule with a `/` in its pattern may match something below the
/// directory `path`.
pub open spec fn may_descend(pattern: Seq<char>, has_slash: bool, path: Seq<char>) -> bool {
    has_slash && descend_from(
        nonempty_parts(split_on(strip_trailing_slashes(pattern), '/')),
        path_components(path),
        0,
    )
}

pub(crate) fn strip_leading_slashes_at(s: &[char], from: usize) -> (r: usize)
    requires
        from <= s@.len(),
    ensures
        from <= r <= s@.len(),
        s@.skip(r as int) == strip_leading_slashes(s@.skip(from as int)),
{
    let mut i = from;
    while i < s.len() && s[i] == '/'
        invariant
            from <= i <= s@.len(),
            strip_leading_slashes(s@.skip(i as int)) == strip_leading_slashes(s@.skip(from as int)),
        decreases s@.len() - i,
    {
        proof {
            assert(s@.skip(i as int).drop_first() =~= s@.skip(i + 1));
        }
        i = i + 1;
    }
    i
}

pub(crate) fn strip_dot_slashes_at(s: &[char], from: usize) -> (r: usize)
    requires
        from <= s@.len(),
    ensures
        from <= r <= s@.len(),
        s@.skip(r as int) == strip_dot_slashes(s@.skip(from as int)),
{
    let mut i = from;
    while i < s.len() && s.len() - i >= 2 && s[i] == '.' && s[i + 1] == '/'
        invariant
            from <= i <= s@.len(),
            strip_dot_slashes(s@.skip(i as int)) == strip_dot_slashes(s@.skip(from as int)),
        decreases s@.len() - i,
    {
        proof {
            assert(s@.skip(i as int).skip(2) =~= s@.skip(i + 2));
        }
        i = i + 2;
    }
    i
}

pub(crate) fn strip_trailing_slashes_to(s: &[char], from: usize, to: usize) -> (r: usize)
    requires
        from <= to <= s@.len(),
    ensures
        from <= r <= to,
        s@.subrange(from as int, r as int) == strip_trailing_slashes(
            s@.subrange(from as int, to as int),
        ),
{
    let mut j = to;
    while j > from && s[j - 1] == '/'
        invariant
            from <= j <= to <= s@.len(),
            strip_trailing_slashes(s@.subrange(from as int, j as int)) == strip_trailing_slashes(
                s@.subrange(from as int, to as int),
            ),
        decreases j,
    {
        proof {
            assert(s@.subrange(from as int, j as int).drop_last() =~= s@.subrange(
                from as int,
                j - 1,
            ));
        }
        j = j - 1;
    }
    j
}

pub(crate) fn has_double_star_exec(s: &[char]) -> (r: bool)
    ensures
        r == has_double_star(s@),
{
    let mut i: usize = 0;
    while i < s.len() && s.len() - i >= 2
        invariant
            forall|j: int| 0 <= j < i && j + 1 < s@.len() ==> !#[trigger] star_pair_at(s@, j),
        decreases s@.len() - i,
    {
        if s[i] == '*' && s[i + 1] == '*' {
            assert(star_pair_at(s@, i as int));
            return true;
        }
        i = i + 1;
    }
    false
}

fn is_single(s: &[char], c: char) -> (r: bool)
    ensures
        r == (s@ == seq![c]),
{
    let r = s.len() == 1 && s[0] == c;
    proof {
        if s@.len() == 1 && s@[0] == c {
            assert(s@ =~= seq![c]);
        }
    }
    r
}

fn count_real_parts_exec(segs: &Vec<Vec<char>>) -> (r: usize)
    ensures
        r == count_real_parts(views_of(segs@)),
{
    let ghost v = views_of(segs@);
    let mut n: usize = 0;
    let mut i: usize = 0;
    while i < segs.len()
        invariant
            i <= segs@.len(),
            v == views_of(segs@),
            n == count_real_parts(v.take(i as int)),
            n <= i,
        decreases segs@.len() - i,
    {
        proof {
            assert(v.take(i + 1).drop_last() =~= v.take(i as int));
            assert(v.take(i + 1).last() == segs@[i as int]@);
        }
        let s = &segs[i];
        if !(s.len() == 0 || is_single(s.as_slice(), '.')) {
            n = n + 1;
        }
        i = i + 1;
    }
    assert(v.take(segs@.len() as int) =~= v);
    n
}

impl RuleData {
    /// Whether this rule's glob matches `path` (see `glob_hits`).
    pub fn is_match(&self, path: &str) -> (r: bool)
        ensures
            r == glob_hits(self.glob_spec(), self.has_slash_spec(), path@),
    {
        let glob = self.glob_str();
        let pc = chars_of(path);
        let mut full: Vec<char> = Vec::new();
        full.push('/');
        super::text::push_chars(&mut full, &pc);
        let full_s = string_of(&full);
        let full_match = glob_is_match(glob, full_s.as_str());
        if self.has_slash() {
            full_match
        } else {
            let file_match = match file_name_of(&pc) {
                Some(n) => {
                    let ns = string_of(&n);
                    glob_is_match(glob, ns.as_str())
                },
                None => false,
            };
            full_match || file_match
        }
    }

    /// Whether this rule matches `path` (see `rule_hits`).
    pub fn matches_path(&self, path: &str) -> (r: bool)
        ensures
            r == rule_hits(self.pattern_spec(), self.glob_spec(), self.has_slash_spec(), path@),
    {
        let matched = self.is_match(path);
        if !matched {
            return false;
        }
        let pat = chars_of(self.pattern_str());
        let a = strip_leading_slashes_at(&pat, 0);
        let b = strip_dot_slashes_at(&pat, a);
        let core = super::text::slice_chars(&pat, b, pat.len());
        proof {
            assert(pat@.skip(0) =~= pat@);
            assert(pat@.skip(b as int) =~= core@);
        }
        let pc = chars_of(path);
        let comps = components_of(&pc);
        let n = comps.len();
        let starts = core.len() >= 3 && core[0] == '*' && core[1] == '*' && core[2] == '/';
        proof {
            if core@.len() >= 3 {
                assert(core@.take(3) == seq!['*', '*', '/'] <==> (core@[0] == '*' && core@[1] == '*'
                    && core@[2] == '/')) by {
                    if core@[0] == '*' && core@[1] == '*' && core@[2] == '/' {
                        assert(core@.take(3) =~= seq!['*', '*', '/']);
                    }
                    if core@.take(3) == seq!['*', '*', '/'] {
                        assert(core@.take(3)[1] == '*');
                    }
                }
            }
        }
        if starts {
            let rest = super::text::slice_chars(&core, 3, core.len());
            proof {
                assert(rest@ =~= core@.skip(3));
            }
            let wild = contains_char(&rest, '*') || contains_char(&rest, '?');
            !(wild && !has_double_star_exec(&rest) && n > 1 && !is_single(&rest, '*') && !is_single(
                &rest,
                '?',
            ))
        } else if (contains_char(&core, '*') || contains_char(&core, '?')) && !has_double_star_exec(
            &core,
        ) {
            if self.has_slash() {
                let a2 = strip_leading_slashes_at(&core, 0);
                let b2 = strip_trailing_slashes_to(&core, a2, core.len());
                proof {
                    assert(core@.skip(0) =~= core@);
                    assert(core@.skip(a2 as int) =~= core@.subrange(a2 as int, core@.len() as int));
                }
                let trimmed = super::text::slice_chars(&core, a2, b2);
                let segs = split_chars(&trimmed, '/');
                n == count_real_parts_exec(&segs)
            } else {
                !(n > 1 && !is_single(&core, '*') && !is_single(&core, '?'))
            }
        } else {
            true
        }
    }

    /// Whether this rule may match something below the directory `path`
    /// (see `may_descend`).
    pub fn may_match_descendant(&self, path: &str) -> (r: bool)
        ensures
            r == may_descend(self.pattern_spec(), self.has_slash_spec(), path@),
    {
        if !self.has_slash() {
            return false;
        }
        let pat = chars_of(self.pattern_str());
        let e = strip_trailing_slashes_to(&pat, 0, pat.len());
        proof {
            assert(pat@.subrange(0, pat@.len() as int) =~= pat@);
        }
        let trimmed = super::text::slice_chars(&pat, 0, e);
        let all = split_chars(&trimmed, '/');
        let ghost allv = views_of(all@);
        let mut ps: Vec<Vec<char>> = Vec::new();
        let mut k: usize = 0;
        while k < all.len()
            invariant
                k <= all@.len(),
                allv == views_of(all@),
                views_of(ps@) == nonempty_parts(allv.take(k as int)),
            decreases all@.len() - k,
        {
            proof {
                assert(allv.take(k + 1).drop_last() =~= allv.take(k as int));
                assert(allv.take(k + 1).last() == all@[k as int]@);
            }
            if all[k].len() > 0 {
                let ghost before = views_of(ps@);
                ps.push(super::text::slice_chars(all[k].as_slice(), 0, all[k].len()));
                proof {
                    assert(all@[k as int]@.subrange(0, all@[k as int]@.len() as int) =~= all@[k as int]@);
                    assert(views_of(ps@) =~= before.push(all@[k as int]@));
                }
            }
            k = k + 1;
        }
        proof {
            assert(allv.take(all@.len() as int) =~= allv);
        }
        let pc = chars_of(path);
        let qs = components_of(&pc);
        let ghost psv = views_of(ps@);
        let ghost qsv = views_of(qs@);
        let mut idx: usize = 0;
        assert(may_descend(self.pattern_spec(), self.has_slash_spec(), path@) == descend_from(
            psv,
            qsv,
            0,
        ));
        while idx < qs.len()
            invariant
                idx <= qs@.len(),
                may_descend(self.pattern_spec(), self.has_slash_spec(), path@) == descend_from(
                    psv,
                    qsv,
                    0,
                ),
                psv == views_of(ps@),
                qsv == views_of(qs@),
                descend_from(psv, qsv, idx as nat) == descend_from(psv, qsv, 0),
            decreases qs@.len() - idx,
        {
            if idx >= ps.len() {
                return false;
            }
            let p = &ps[idx];
            let q = &qs[idx];
            proof {
                assert(psv[idx as int] == p@);
                assert(qsv[idx as int] == q@);
            }
            if p.len() == 2 && p[0] == '*' && p[1] == '*' {
                proof {
                    assert(p@ =~= seq!['*', '*']);
                }
                return true;
            }
            proof {
                if p@ == seq!['*', '*'] {
                    assert(p@.len() == 2 && p@[0] == '*' && p@[1] == '*');
                }
            }
            if contains_char(p.as_slice(), '*') || contains_char(p.as_slice(), '?')
                || contains_char(p.as_slice(), '[') {
                let ps_str = string_of(p.as_slice());
                match super::glob::build_glob_checked(ps_str.as_str()) {
                    false => {
                        return false;
                    },
                    true => {},
                }
                let qs_str = string_of(q.as_slice());
                if !glob_is_match(ps_str.as_str(), qs_str.as_str()) {
                    return false;
                }
            } else if !super::text::chars_eq(p.as_slice(), q.as_slice()) {
                return false;
            }
            idx = idx + 1;
        }
        idx < ps.len()
    }
}

} // verus!
