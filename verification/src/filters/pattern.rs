//! The rules one include/exclude/protect rule line compiles to: its pattern
//! normalized and anchored, a directory pattern widened to what lies below,
//! the parents of an included path kept walkable, braces expanded, and each
//! resulting pattern compiled to a glob.

use vstd::prelude::*;

use super::braces::{brace_expansion, expand_braces, MAX_BRACE_EXPANSIONS};
use super::error::{ErrV, ParseError};
use super::glob::{compile_glob, glob_err, glob_ok, glob_of};
use super::matching::{
    strip_dot_slashes, strip_dot_slashes_at, strip_leading_slashes, strip_leading_slashes_at,
    strip_trailing_slashes, strip_trailing_slashes_to,
};
use super::rule::{flags_from_mods, DataV, Rule, RuleData, RuleFlags, RuleV, rules_view};
use super::text::{chars_of, push_chars, slice_chars, string_of};
use super::token::{contains_char, RuleKind};

verus! {

/// `p` with a leading `/`, added when it has none.
pub open spec fn slash_rooted(p: Seq<char>) -> Seq<char> {
    if p.len() > 0 && p[0] == '/' {
        p
    } else {
        seq!['/'] + p
    }
}

/// The pattern of a rule body: leading `./` pairs dropped (such a pair
/// anchors it), then rooted at `/` when the `/` modifier, such an anchor,
/// or a `/` inside the pattern asks for it.
pub open spec fn normalized_pattern(rest: Seq<char>, mods: Seq<char>) -> Seq<char> {
    let anchor = rest.len() >= 2 && rest[0] == '.' && rest[1] == '/';
    let p0 = strip_dot_slashes(rest);
    let p1 = if mods.contains('/') {
        slash_rooted(p0)
    } else {
        p0
    };
    let p2 = if anchor {
        slash_rooted(p1)
    } else {
        p1
    };
    if p2.contains('/') {
        slash_rooted(p2)
    } else {
        p2
    }
}

/// Whether `p` ends in `/***`, which stands for a directory and all below it.
pub open spec fn ends_dir_all(p: Seq<char>) -> bool {
    p.len() >= 4 && p.skip(p.len() - 4) == seq!['/', '*', '*', '*']
}

/// Whether `p` ends in `/`, which stands for a directory alone.
pub open spec fn ends_slash(p: Seq<char>) -> bool {
    p.len() > 0 && p.last() == '/'
}

/// `s` without its trailing `/***` suffixes.
pub open spec fn strip_dir_all(s: Seq<char>) -> Seq<char>
    decreases s.len(),
{
    if ends_dir_all(s) {
        strip_dir_all(s.take(s.len() - 4))
    } else {
        s
    }
}

/// The pattern without its leading `/` and without the suffix that marks it
/// as a directory.
pub open spec fn rule_base(p: Seq<char>) -> Seq<char> {
    let b = strip_leading_slashes(p);
    if ends_dir_all(p) {
        strip_dir_all(b)
    } else if ends_slash(p) {
        strip_trailing_slashes(b)
    } else {
        b
    }
}

pub open spec fn is_globstar_base(b: Seq<char>) -> bool {
    (b.len() >= 3 && b.take(3) == seq!['*', '*', '/']) || b == seq!['*', '*']
}

/// The patterns a rule matches with: an unanchored pattern matches at any
/// depth too; a directory pattern also matches all below it.
pub open spec fn rule_pats(p: Seq<char>) -> Seq<Seq<char>> {
    let base = rule_base(p);
    let anchored = p.contains('/');
    let whole_dir = ends_dir_all(p) || ends_slash(p);
    let per = |b: Seq<char>|
        if whole_dir {
            seq![b, b + seq!['/', '*', '*']]
        } else {
            seq![b]
        };
    if anchored {
        per(seq!['/'] + base)
    } else if !is_globstar_base(base) {
        per(base) + per(seq!['*', '*', '/'] + base)
    } else {
        per(base)
    }
}

/// The parts of `s` before each of its `/` characters from `i` on.
pub open spec fn slash_prefixes(s: Seq<char>, i: nat) -> Seq<Seq<char>>
    decreases s.len() - i,
{
    if i >= s.len() {
        Seq::empty()
    } else if s[i as int] == '/' {
        seq![s.take(i as int)] + slash_prefixes(s, i + 1)
    } else {
        slash_prefixes(s, i + 1)
    }
}

/// The parent directories that an included literal path with a `/` keeps
/// walkable.
pub open spec fn ancestor_pats(base: Seq<char>) -> Seq<Seq<char>> {
    if base.contains('/') && !base.contains('*') && !base.contains('?') && !base.contains('[')
        && !base.contains('{') {
        slash_prefixes(base, 0)
    } else {
        Seq::empty()
    }
}

pub open spec fn data_for(
    exp: Seq<char>,
    invert: bool,
    flags: RuleFlags,
    source: Option<Seq<char>>,
    dir_only: bool,
) -> DataV {
    DataV {
        glob: glob_of(exp),
        invert,
        flags,
        source,
        dir_only,
        has_slash: exp.contains('/'),
        pattern: exp,
    }
}

pub open spec fn rule_of(kind: RuleKind, d: DataV) -> RuleV {
    match kind {
        RuleKind::Include => RuleV::Include(d),
        RuleKind::Exclude => RuleV::Exclude(d),
        RuleKind::Protect => RuleV::Protect(d),
    }
}

pub open spec fn all_build(xs: Seq<Seq<char>>) -> bool {
    forall|i: int| 0 <= i < xs.len() ==> glob_ok(#[trigger] glob_of(xs[i]))
}

/// The error of the first pattern of `xs` whose glob cannot be used.
pub open spec fn first_glob_err(xs: Seq<Seq<char>>) -> ErrV
    decreases xs.len(),
{
    if xs.len() == 0 {
        ErrV::Glob
    } else if !glob_ok(glob_of(xs[0])) {
        glob_err(xs[0])
    } else {
        first_glob_err(xs.drop_first())
    }
}

/// When the patterns before `k` build and the one at `k` does not, the
/// patterns do not all build and the error is that of the one at `k`.
pub proof fn lemma_first_glob_err(xs: Seq<Seq<char>>, k: int)
    requires
        0 <= k < xs.len(),
        forall|j: int| 0 <= j < k ==> glob_ok(#[trigger] glob_of(xs[j])),
        !glob_ok(glob_of(xs[k])),
    ensures
        !all_build(xs),
        first_glob_err(xs) == glob_err(xs[k]),
    decreases k,
{
    if k > 0 {
        let t = xs.drop_first();
        assert forall|j: int| 0 <= j < k - 1 implies glob_ok(#[trigger] glob_of(t[j])) by {
            assert(t[j] == xs[j + 1]);
        }
        assert(t[k - 1] == xs[k]);
        lemma_first_glob_err(t, k - 1);
        assert(glob_ok(glob_of(xs[0])));
    }
}

/// One rule per pattern of `xs`, or a glob error when one does not build.
pub open spec fn glob_rules(
    xs: Seq<Seq<char>>,
    kind: RuleKind,
    invert: bool,
    flags: RuleFlags,
    source: Option<Seq<char>>,
    dir_only: bool,
) -> Result<Seq<RuleV>, ErrV> {
    if all_build(xs) {
        Ok(xs.map_values(|x: Seq<char>| rule_of(kind, data_for(x, invert, flags, source, dir_only))))
    } else {
        Err(first_glob_err(xs))
    }
}

/// The rules of `a` then those of `b`, or the first error.
pub open spec fn then_rules(a: Result<Seq<RuleV>, ErrV>, b: Result<Seq<RuleV>, ErrV>) -> Result<
    Seq<RuleV>,
    ErrV,
> {
    match a {
        Err(e) => Err(e),
        Ok(x) => match b {
            Err(e) => Err(e),
            Ok(y) => Ok(x + y),
        },
    }
}

pub proof fn lemma_then_empty(x: Result<Seq<RuleV>, ErrV>)
    ensures
        then_rules(Ok(Seq::empty()), x) == x,
{
    if let Ok(y) = x {
        assert(Seq::<RuleV>::empty() + y =~= y);
    }
}

pub proof fn lemma_then_assoc(a: Seq<RuleV>, b: Result<Seq<RuleV>, ErrV>, c: Result<Seq<RuleV>, ErrV>)
    ensures
        then_rules(Ok(a), then_rules(b, c)) == then_rules(then_rules(Ok(a), b), c),
{
    if let Ok(x) = b {
        if let Ok(y) = c {
            assert(a + (x + y) =~= (a + x) + y);
        }
    }
}

/// The brace expansion of `p`, when it is within the allowed number.
pub open spec fn expansion_of(p: Seq<char>) -> Option<Seq<Seq<char>>> {
    match brace_expansion(p) {
        Some(xs) => if xs.len() <= MAX_BRACE_EXPANSIONS {
            Some(xs)
        } else {
            None
        },
        None => None,
    }
}

/// The rules of each pattern of `pats` in turn, each brace-expanded.
pub open spec fn pats_rules(
    pats: Seq<Seq<char>>,
    kind: RuleKind,
    invert: bool,
    flags: RuleFlags,
    source: Option<Seq<char>>,
) -> Result<Seq<RuleV>, ErrV>
    decreases pats.len(),
{
    if pats.len() == 0 {
        Ok(Seq::empty())
    } else {
        let first = match expansion_of(pats[0]) {
            None => Err(ErrV::TooManyExpansions),
            Some(xs) => glob_rules(xs, kind, invert, flags, source, false),
        };
        then_rules(first, pats_rules(pats.drop_first(), kind, invert, flags, source))
    }
}

/// The rules a rule line of `kind` with modifiers `mods` and body `rest`
/// compiles to.
pub open spec fn pattern_rules(
    kind: RuleKind,
    mods: Seq<char>,
    rest: Seq<char>,
    source: Option<Seq<char>>,
) -> Result<Seq<RuleV>, ErrV> {
    let flags = flags_from_mods(mods);
    let invert = mods.contains('!');
    let p = normalized_pattern(rest, mods);
    let anc = if kind == RuleKind::Include {
        glob_rules(ancestor_pats(rule_base(p)), RuleKind::Include, invert, flags, source, true)
    } else {
        Ok(Seq::empty())
    };
    then_rules(anc, pats_rules(rule_pats(p), kind, invert, flags, source))
}

pub open spec fn opt_view(s: Option<String>) -> Option<Seq<char>> {
    match s {
        Some(x) => Some(x@),
        None => None,
    }
}

/// A copy of `s`.
pub fn clone_source(s: &Option<String>) -> (r: Option<String>)
    ensures
        opt_view(r) == opt_view(*s),
{
    match s {
        Some(x) => Some(x.clone()),
        None => None,
    }
}

fn rooted_exec(p: Vec<char>) -> (r: Vec<char>)
    ensures
        r@ == slash_rooted(p@),
{
    if p.len() > 0 && p[0] == '/' {
        p
    } else {
        let mut r: Vec<char> = Vec::new();
        r.push('/');
        push_chars(&mut r, &p);
        assert(r@ =~= seq!['/'] + p@);
        r
    }
}

fn normalize_exec(rest: &[char], mods: &[char]) -> (r: Vec<char>)
    ensures
        r@ == normalized_pattern(rest@, mods@),
{
    let anchor = rest.len() >= 2 && rest[0] == '.' && rest[1] == '/';
    let i = strip_dot_slashes_at(rest, 0);
    let p0 = slice_chars(rest, i, rest.len());
    proof {
        assert(rest@.skip(0) =~= rest@);
        assert(p0@ =~= rest@.skip(i as int));
    }
    let p1 = if contains_char(mods, '/') {
        rooted_exec(p0)
    } else {
        p0
    };
    let p2 = if anchor {
        rooted_exec(p1)
    } else {
        p1
    };
    if contains_char(&p2, '/') {
        rooted_exec(p2)
    } else {
        p2
    }
}

fn ends_dir_all_exec(p: &[char]) -> (r: bool)
    ensures
        r == ends_dir_all(p@),
{
    let n = p.len();
    if n < 4 {
        return false;
    }
    let r = p[n - 4] == '/' && p[n - 3] == '*' && p[n - 2] == '*' && p[n - 1] == '*';
    proof {
        let t = p@.skip(n - 4);
        if r {
            assert(t =~= seq!['/', '*', '*', '*']);
        } else {
            assert(t[0] != '/' || t[1] != '*' || t[2] != '*' || t[3] != '*');
        }
    }
    r
}

fn strip_dir_all_exec(s: Vec<char>) -> (r: Vec<char>)
    ensures
        r@ == strip_dir_all(s@),
{
    let mut b = s;
    while ends_dir_all_exec(&b)
        invariant
            strip_dir_all(b@) == strip_dir_all(s@),
        decreases b@.len(),
    {
        let ghost before = b@;
        b.pop();
        b.pop();
        b.pop();
        b.pop();
        assert(b@ =~= before.take(before.len() - 4));
    }
    b
}

fn rule_base_exec(p: &[char]) -> (r: Vec<char>)
    ensures
        r@ == rule_base(p@),
{
    let a = strip_leading_slashes_at(p, 0);
    let b = slice_chars(p, a, p.len());
    proof {
        assert(p@.skip(0) =~= p@);
        assert(b@ =~= p@.skip(a as int));
    }
    if ends_dir_all_exec(p) {
        strip_dir_all_exec(b)
    } else if p.len() > 0 && p[p.len() - 1] == '/' {
        let e = strip_trailing_slashes_to(&b, 0, b.len());
        proof {
            assert(b@.subrange(0, b@.len() as int) =~= b@);
        }
        slice_chars(&b, 0, e)
    } else {
        b
    }
}

fn prepend_globstar(b: &[char]) -> (r: Vec<char>)
    ensures
        r@ == seq!['*', '*', '/'] + b@,
{
    let mut r: Vec<char> = Vec::new();
    r.push('*');
    r.push('*');
    r.push('/');
    push_chars(&mut r, b);
    assert(r@ =~= seq!['*', '*', '/'] + b@);
    r
}

fn push_per(out: &mut Vec<Vec<char>>, b: Vec<char>, whole_dir: bool)
    ensures
        views(final(out)@) == views(old(out)@) + if whole_dir {
            seq![b@, b@ + seq!['/', '*', '*']]
        } else {
            seq![b@]
        },
{
    let ghost before = views(out@);
    if whole_dir {
        let mut below = copy_vec(&b);
        below.push('/');
        below.push('*');
        below.push('*');
        assert(below@ =~= b@ + seq!['/', '*', '*']);
        out.push(b);
        out.push(below);
        assert(views(out@) =~= before + seq![b@, b@ + seq!['/', '*', '*']]);
    } else {
        out.push(b);
        assert(views(out@) =~= before + seq![b@]);
    }
}

pub open spec fn views(v: Seq<Vec<char>>) -> Seq<Seq<char>> {
    v.map_values(|x: Vec<char>| x@)
}

fn copy_vec(v: &Vec<char>) -> (r: Vec<char>)
    ensures
        r@ == v@,
{
    let r = slice_chars(v.as_slice(), 0, v.len());
    assert(v@.subrange(0, v@.len() as int) =~= v@);
    r
}

fn rule_pats_exec(p: &[char]) -> (r: Vec<Vec<char>>)
    ensures
        views(r@) == rule_pats(p@),
{
    let base = rule_base_exec(p);
    let anchored = contains_char(p, '/');
    let whole_dir = ends_dir_all_exec(p) || (p.len() > 0 && p[p.len() - 1] == '/');
    let mut out: Vec<Vec<char>> = Vec::new();
    assert(views(out@) =~= Seq::<Seq<char>>::empty());
    if anchored {
        let mut b: Vec<char> = Vec::new();
        b.push('/');
        push_chars(&mut b, &base);
        assert(b@ =~= seq!['/'] + base@);
        push_per(&mut out, b, whole_dir);
    } else {
        let globstar = (base.len() >= 3 && base[0] == '*' && base[1] == '*' && base[2] == '/') || (
        base.len() == 2 && base[0] == '*' && base[1] == '*');
        proof {
            if base@.len() >= 3 && base@.take(3) == seq!['*', '*', '/'] {
                assert(base@.take(3)[0] == '*' && base@.take(3)[1] == '*' && base@.take(3)[2]
                    == '/');
            }
            if base@.len() >= 3 && base@[0] == '*' && base@[1] == '*' && base@[2] == '/' {
                assert(base@.take(3) =~= seq!['*', '*', '/']);
            }
            if base@ == seq!['*', '*'] {
                assert(base@.len() == 2);
            }
            if base@.len() == 2 && base@[0] == '*' && base@[1] == '*' {
                assert(base@ =~= seq!['*', '*']);
            }
            assert(globstar == is_globstar_base(base@));
        }
        if !globstar {
            let deep = prepend_globstar(&base);
            push_per(&mut out, base, whole_dir);
            push_per(&mut out, deep, whole_dir);
        } else {
            push_per(&mut out, base, whole_dir);
        }
    }
    out
}

fn ancestor_pats_exec(base: &[char]) -> (r: Vec<Vec<char>>)
    ensures
        views(r@) == ancestor_pats(base@),
{
    let mut out: Vec<Vec<char>> = Vec::new();
    if !(contains_char(base, '/') && !contains_char(base, '*') && !contains_char(base, '?')
        && !contains_char(base, '[') && !contains_char(base, '{')) {
        assert(views(out@) =~= Seq::<Seq<char>>::empty());
        return out;
    }
    let mut i: usize = 0;
    while i < base.len()
        invariant
            i <= base@.len(),
            views(out@) + slash_prefixes(base@, i as nat) == slash_prefixes(base@, 0),
        decreases base@.len() - i,
    {
        if base[i] == '/' {
            let pre = slice_chars(base, 0, i);
            let ghost before = views(out@);
            out.push(pre);
            assert(views(out@) =~= before.push(base@.take(i as int)));
            assert(views(out@) + slash_prefixes(base@, (i + 1) as nat) =~= before
                + slash_prefixes(base@, i as nat));
        }
        i = i + 1;
    }
    assert(views(out@) + Seq::<Seq<char>>::empty() =~= views(out@));
    out
}

fn make_rule(kind: RuleKind, d: RuleData) -> (r: Rule)
    ensures
        r@ == rule_of(kind, d@),
{
    match kind {
        RuleKind::Include => Rule::Include(d),
        RuleKind::Exclude => Rule::Exclude(d),
        RuleKind::Protect => Rule::Protect(d),
    }
}

/// Appends one rule per pattern of `xs` to `out`, or fails with the glob
/// error of the first pattern that does not build.
pub(crate) fn push_glob_rules(
    xs: &Vec<Vec<char>>,
    kind: RuleKind,
    invert: bool,
    flags: RuleFlags,
    source: &Option<String>,
    dir_only: bool,
    out: &mut Vec<Rule>,
) -> (r: Result<(), ParseError>)
    ensures
        match glob_rules(views(xs@), kind, invert, flags, opt_view(*source), dir_only) {
            Ok(rs) => r is Ok && rules_view(final(out)@) == rules_view(old(out)@) + rs,
            Err(e) => r matches Err(x) && x@ == e,
        },
{
    let ghost xv = views(xs@);
    let ghost mk = |x: Seq<char>|
        rule_of(kind, data_for(x, invert, flags, opt_view(*source), dir_only));
    let ghost start = rules_view(out@);
    let mut k: usize = 0;
    while k < xs.len()
        invariant
            k <= xs@.len(),
            xv == views(xs@),
            forall|j: int| 0 <= j < k ==> glob_ok(#[trigger] glob_of(xv[j])),
            rules_view(out@) == start + xv.take(k as int).map_values(mk),
            mk == (|x: Seq<char>|
                rule_of(kind, data_for(x, invert, flags, opt_view(*source), dir_only))),
        decreases xs@.len() - k,
    {
        let pat = string_of(xs[k].as_slice());
        let g = match compile_glob(pat.as_str()) {
            Ok(g) => g,
            Err(e) => {
                proof {
                    assert(xv[k as int] == xs@[k as int]@);
                    lemma_first_glob_err(xv, k as int);
                }
                return Err(e);
            },
        };
        let has_slash = contains_char(xs[k].as_slice(), '/');
        let d = RuleData::new(
            g,
            invert,
            flags,
            clone_source(source),
            dir_only,
            has_slash,
            string_of(xs[k].as_slice()),
        );
        let rule = make_rule(kind, d);
        let ghost before = rules_view(out@);
        out.push(rule);
        proof {
            assert(xv[k as int] == xs@[k as int]@);
            assert(rule@ == mk(xv[k as int]));
            assert(rules_view(out@) =~= before.push(rule@));
            assert(xv.take(k + 1).map_values(mk) =~= xv.take(k as int).map_values(mk).push(
                mk(xv[k as int]),
            ));
        }
        k = k + 1;
    }
    proof {
        assert(xv.take(xs@.len() as int) =~= xv);
    }
    Ok(())
}

/// Appends the rules of each pattern of `pats`, brace-expanded, to `out`.
fn push_pats_rules(
    pats: &Vec<Vec<char>>,
    kind: RuleKind,
    invert: bool,
    flags: RuleFlags,
    source: &Option<String>,
    out: &mut Vec<Rule>,
) -> (r: Result<(), ParseError>)
    ensures
        match pats_rules(views(pats@), kind, invert, flags, opt_view(*source)) {
            Ok(rs) => r is Ok && rules_view(final(out)@) == rules_view(old(out)@) + rs,
            Err(e) => r matches Err(x) && x@ == e,
        },
{
    let ghost pv = views(pats@);
    let ghost src = opt_view(*source);
    let ghost start = rules_view(out@);
    proof {
        assert(rules_view(out@).skip(start.len() as int) =~= Seq::<RuleV>::empty());
        assert(pv.skip(0) =~= pv);
        lemma_then_empty(pats_rules(pv, kind, invert, flags, src));
    }
    let mut k: usize = 0;
    while k < pats.len()
        invariant
            k <= pats@.len(),
            pv == views(pats@),
            src == opt_view(*source),
            pats_rules(pv, kind, invert, flags, src) == then_rules(
                Ok(rules_view(out@).skip(start.len() as int)),
                pats_rules(pv.skip(k as int), kind, invert, flags, src),
            ),
            rules_view(out@).len() >= start.len(),
            rules_view(out@).take(start.len() as int) == start,
        decreases pats@.len() - k,
    {
        let ghost rest = pv.skip(k as int);
        let ghost acc = rules_view(out@).skip(start.len() as int);
        proof {
            assert(rest[0] == pats@[k as int]@);
            assert(rest.drop_first() =~= pv.skip(k + 1));
        }
        let pat = string_of(pats[k].as_slice());
        let exps = match expand_braces(pat.as_str()) {
            Ok(v) => v,
            Err(e) => {
                proof {
                    assert(expansion_of(rest[0]) is None);
                }
                return Err(e);
            },
        };
        let mut xs: Vec<Vec<char>> = Vec::new();
        let mut j: usize = 0;
        while j < exps.len()
            invariant
                j <= exps@.len(),
                views(xs@) == exps@.take(j as int).map_values(|s: String| s@),
            decreases exps@.len() - j,
        {
            let c = chars_of(exps[j].as_str());
            let ghost before = views(xs@);
            xs.push(c);
            proof {
                assert(views(xs@) =~= before.push(c@));
                assert(exps@.take(j + 1).map_values(|s: String| s@) =~= exps@.take(
                    j as int,
                ).map_values(|s: String| s@).push(exps@[j as int]@));
            }
            j = j + 1;
        }
        proof {
            assert(exps@.take(exps@.len() as int) =~= exps@);
        }
        let ghost before = rules_view(out@);
        proof {
            assert(views(xs@) =~= exps@.map_values(|s: String| s@));
            assert(expansion_of(rest[0]) == Some(views(xs@)));
        }
        match push_glob_rules(&xs, kind, invert, flags, source, false, out) {
            Ok(()) => {},
            Err(e) => {
                return Err(e);
            },
        }
        proof {
            let gr = glob_rules(views(xs@), kind, invert, flags, src, false);
            let added = gr->Ok_0;
            assert(rules_view(out@) =~= before + added);
            assert(rules_view(out@).skip(start.len() as int) =~= acc + added);
            assert(rules_view(out@).take(start.len() as int) =~= start);
            lemma_then_assoc(acc, gr, pats_rules(pv.skip(k + 1), kind, invert, flags, src));
        }
        k = k + 1;
    }
    proof {
        assert(pv.skip(pats@.len() as int) =~= Seq::<Seq<char>>::empty());
        assert(rules_view(out@) =~= start + rules_view(out@).skip(start.len() as int));
    }
    Ok(())
}

/// Appends to `out` the rules of a rule line of `kind` with modifiers
/// `mods` and body `rest` (see `pattern_rules`), or fails as it does.
pub fn push_pattern_rules(
    kind: RuleKind,
    mods: &[char],
    rest: &[char],
    source: &Option<String>,
    out: &mut Vec<Rule>,
) -> (r: Result<(), ParseError>)
    ensures
        match pattern_rules(kind, mods@, rest@, opt_view(*source)) {
            Ok(rs) => r is Ok && rules_view(final(out)@) == rules_view(old(out)@) + rs,
            Err(e) => r matches Err(x) && x@ == e,
        },
{
    let flags = RuleFlags::from_mod_chars(mods);
    let invert = contains_char(mods, '!');
    let p = normalize_exec(rest, mods);
    let ghost start = rules_view(out@);
    if kind == RuleKind::Include {
        let base = rule_base_exec(&p);
        let anc = ancestor_pats_exec(&base);
        match push_glob_rules(&anc, RuleKind::Include, invert, flags, source, true, out) {
            Ok(()) => {},
            Err(e) => {
                return Err(e);
            },
        }
    } else {
        assert(rules_view(out@) =~= start + Seq::<RuleV>::empty());
    }
    let ghost mid = rules_view(out@);
    let pats = rule_pats_exec(&p);
    let r = push_pats_rules(&pats, kind, invert, flags, source, out);
    proof {
        if r is Ok {
            assert(rules_view(out@) =~= start + (mid.skip(start.len() as int) + rules_view(
                out@,
            ).skip(mid.len() as int)));
        }
    }
    r
}

} // verus!
