//! The matcher: the rule list it was built from, and the decision for a
//! path. The rules from per-directory merge files along the path are handed
//! in by the caller, one layer per directory; the matcher orders them with
//! its own rules, drops what a clear rule cancels, and lets the first
//! matching rule decide.

use vstd::prelude::*;

use super::matching::{may_descend, rule_hits};
use super::paths::{file_name, file_name_of};
use super::pattern::opt_view;
use super::rule::{
    flags_apply, DataV, FilterStats, MatchResult, PerDir, PerDirV, Rule, RuleV, rules_view,
};
use super::text::{chars_eq_str, chars_of};
use super::util::strings_view;

verus! {

/// The rules and options of a matcher.
#[derive(Debug, Clone)]
pub struct Matcher {
    root: Option<String>,
    rules: Vec<(usize, Rule)>,
    per_dir: Vec<(usize, PerDir)>,
    existing: bool,
    prune_empty_dirs: bool,
    from0: bool,
    no_implied_dirs: bool,
}

/// A matcher as plain values: each rule and merge file with its index in
/// the rule list.
pub struct MatcherV {
    pub root: Option<Seq<char>>,
    pub rules: Seq<(usize, RuleV)>,
    pub per_dir: Seq<(usize, PerDirV)>,
    pub existing: bool,
    pub prune_empty_dirs: bool,
    pub from0: bool,
    pub no_implied_dirs: bool,
}

impl View for Matcher {
    type V = MatcherV;

    closed spec fn view(&self) -> MatcherV {
        MatcherV {
            root: opt_view(self.root),
            rules: self.rules@.map_values(|p: (usize, Rule)| (p.0, p.1@)),
            per_dir: self.per_dir@.map_values(|p: (usize, PerDir)| (p.0, p.1@)),
            existing: self.existing,
            prune_empty_dirs: self.prune_empty_dirs,
            from0: self.from0,
            no_implied_dirs: self.no_implied_dirs,
        }
    }
}

/// The rules of the merge files of one directory on a path, with their
/// indices, and the names of the merge files that directory's files
/// declared.
pub struct DirLayer {
    pub rules: Vec<(usize, Rule)>,
    pub merge_files: Vec<String>,
}

pub struct LayerV {
    pub rules: Seq<(usize, RuleV)>,
    pub merge_files: Seq<Seq<char>>,
}

impl View for DirLayer {
    type V = LayerV;

    open spec fn view(&self) -> LayerV {
        LayerV {
            rules: self.rules@.map_values(|p: (usize, Rule)| (p.0, p.1@)),
            merge_files: strings_view(self.merge_files@),
        }
    }
}

pub open spec fn layers_view(ls: Seq<DirLayer>) -> Seq<LayerV> {
    ls.map_values(|l: DirLayer| l@)
}

pub open spec fn empty_matcher() -> MatcherV {
    MatcherV {
        root: None,
        rules: Seq::empty(),
        per_dir: Seq::empty(),
        existing: false,
        prune_empty_dirs: false,
        from0: false,
        no_implied_dirs: false,
    }
}

/// The matcher after the rule `r` with index `idx` is taken in: a merge
/// file joins the merge files, the option rules set their option, any other
/// rule joins the rules.
pub open spec fn take_rule(m: MatcherV, idx: usize, r: RuleV) -> MatcherV {
    match r {
        RuleV::DirMerge(p) => MatcherV { per_dir: m.per_dir.push((idx, p)), ..m },
        RuleV::Existing => MatcherV { existing: true, ..m },
        RuleV::NoExisting => MatcherV { existing: false, ..m },
        RuleV::PruneEmptyDirs => MatcherV { prune_empty_dirs: true, ..m },
        RuleV::NoPruneEmptyDirs => MatcherV { prune_empty_dirs: false, ..m },
        _ => MatcherV { rules: m.rules.push((idx, r)), ..m },
    }
}

/// The matcher after the rules `rs` are taken in, the first with index
/// `base` and each next one index higher.
pub open spec fn take_rules(m: MatcherV, rs: Seq<RuleV>, base: int) -> MatcherV
    decreases rs.len(),
{
    if rs.len() == 0 {
        m
    } else {
        take_rule(take_rules(m, rs.drop_last(), base), (base + rs.len() - 1) as usize, rs.last())
    }
}

/// The largest of `s`, or 0.
pub open spec fn max_of(s: Seq<usize>) -> int
    decreases s.len(),
{
    if s.len() == 0 {
        0
    } else {
        let a = max_of(s.drop_last());
        if s.last() > a {
            s.last() as int
        } else {
            a
        }
    }
}

/// The largest index of a rule or merge file, or 0.
pub open spec fn max_index(m: MatcherV) -> int {
    max_of(
        m.rules.map_values(|p: (usize, RuleV)| p.0) + m.per_dir.map_values(
            |p: (usize, PerDirV)| p.0,
        ),
    )
}

/// A rule placed for ordering: by index, deeper directories first at equal
/// index, then in the order the rules came.
pub struct EntryV {
    pub key: int,
    pub depth: int,
    pub seq: int,
    pub rule: RuleV,
}

pub open spec fn entry_lt(a: EntryV, b: EntryV) -> bool {
    ||| a.key < b.key
    ||| a.key == b.key && a.depth > b.depth
    ||| a.key == b.key && a.depth == b.depth && a.seq < b.seq
}

/// `e` put into the ordered `s` after everything not above it.
pub open spec fn insert_sorted(s: Seq<EntryV>, e: EntryV) -> Seq<EntryV>
    decreases s.len(),
{
    if s.len() == 0 {
        seq![e]
    } else if entry_lt(e, s[0]) {
        seq![e] + s
    } else {
        seq![s[0]] + insert_sorted(s.drop_first(), e)
    }
}

/// `s` in order.
pub open spec fn sort_entries(s: Seq<EntryV>) -> Seq<EntryV>
    decreases s.len(),
{
    if s.len() == 0 {
        Seq::empty()
    } else {
        insert_sorted(sort_entries(s.drop_last()), s.last())
    }
}

/// A rule with its ordering key and depth.
pub struct FlatV {
    pub key: int,
    pub depth: int,
    pub rule: RuleV,
}

pub open spec fn global_flat(rules: Seq<(usize, RuleV)>) -> Seq<FlatV> {
    rules.map_values(|p: (usize, RuleV)| FlatV { key: p.0 as int, depth: 0, rule: p.1 })
}

/// Whether the file a path names is a merge file: one of the matcher's or
/// one the directory declared.
pub open spec fn names_merge_file(
    fname: Option<Seq<char>>,
    per_dir: Seq<(usize, PerDirV)>,
    l: LayerV,
) -> bool {
    match fname {
        Some(f) => (exists|i: int| 0 <= i < per_dir.len() && (#[trigger] per_dir[i]).1.file == f)
            || l.merge_files.contains(f),
        None => false,
    }
}

/// The rules of the `d`th directory layer on, keyed after the matcher's
/// own rules, two further when the path names a merge file.
pub open spec fn layers_flat(
    ls: Seq<LayerV>,
    d: nat,
    offset: int,
    fname: Option<Seq<char>>,
    per_dir: Seq<(usize, PerDirV)>,
) -> Seq<FlatV>
    decreases ls.len() - d,
{
    if d >= ls.len() {
        Seq::empty()
    } else {
        layer_block(ls[d as int], d, offset, fname, per_dir) + layers_flat(
            ls,
            d + 1,
            offset,
            fname,
            per_dir,
        )
    }
}

/// The rules of the directory layer `l` at position `d`, keyed.
pub open spec fn layer_block(
    l: LayerV,
    d: nat,
    offset: int,
    fname: Option<Seq<char>>,
    per_dir: Seq<(usize, PerDirV)>,
) -> Seq<FlatV> {
    let bump = if names_merge_file(fname, per_dir, l) {
        2int
    } else {
        0int
    };
    l.rules.map_values(
        |p: (usize, RuleV)| FlatV { key: offset + p.0 + bump, depth: (d + 1) as int, rule: p.1 },
    )
}

pub open spec fn with_seq(f: Seq<FlatV>) -> Seq<EntryV> {
    Seq::new(f.len(), |i: int| EntryV { key: f[i].key, depth: f[i].depth, seq: i, rule: f[i].rule })
}

/// What is left of `s` after each clear rule drops all before it, and
/// itself.
pub open spec fn after_clear(s: Seq<RuleV>) -> Seq<RuleV>
    decreases s.len(),
{
    if s.len() == 0 {
        Seq::empty()
    } else if s.last() is Clear {
        Seq::empty()
    } else {
        after_clear(s.drop_last()).push(s.last())
    }
}

/// The rules in the order they are tried for `path`.
pub open spec fn ordered_rules(m: MatcherV, path: Seq<char>, ls: Seq<LayerV>) -> Seq<RuleV> {
    let offset = max_of(m.rules.map_values(|p: (usize, RuleV)| p.0)) + 1;
    let flat = global_flat(m.rules) + layers_flat(ls, 0, offset, file_name(path), m.per_dir);
    after_clear(sort_entries(with_seq(flat)).map_values(|e: EntryV| e.rule))
}

/// What a check is about.
pub struct CtxV {
    pub path: Seq<char>,
    pub is_dir: bool,
    pub for_delete: bool,
    pub xattr: bool,
    pub no_implied_dirs: bool,
}

pub struct StatsV {
    pub matches: int,
    pub misses: int,
    pub last_source: Option<Seq<char>>,
}

pub open spec fn stats_view(s: FilterStats) -> StatsV {
    StatsV { matches: s.matches as int, misses: s.misses as int, last_source: opt_view(s.last_source) }
}

/// The state of a check: what was decided, whether to descend, and the
/// counts of rules tried.
pub struct EvalV {
    pub verdict: Option<bool>,
    pub descend: bool,
    pub decided: bool,
    pub stats: StatsV,
}

/// Whether the rule takes part in the check at all: its side and kind fit,
/// a directory rule is only tried on directories, and a perishable rule is
/// not tried for deletion.
pub open spec fn considered(d: DataV, c: CtxV) -> bool {
    &&& flags_apply(d.flags, c.for_delete, c.xattr)
    &&& (d.dir_only ==> c.is_dir)
    &&& !(c.for_delete && d.flags.perishable)
}

/// Whether the rule matches the path, an inverted rule when it does not.
pub open spec fn hits(d: DataV, c: CtxV) -> bool {
    d.invert != rule_hits(d.pattern, d.glob, d.has_slash, c.path)
}

pub open spec fn may(d: DataV, c: CtxV) -> bool {
    c.is_dir && may_descend(d.pattern, d.has_slash, c.path)
}

pub open spec fn count(s: StatsV, src: Option<Seq<char>>, m: bool) -> StatsV {
    if m {
        StatsV { matches: s.matches + 1, last_source: src, ..s }
    } else {
        StatsV { misses: s.misses + 1, ..s }
    }
}

/// A rule that includes when it matches and nothing was decided yet.
pub open spec fn include_step(st: EvalV, d: DataV, c: CtxV) -> EvalV {
    let m = hits(d, c);
    EvalV {
        verdict: if m && !st.decided {
            Some(true)
        } else {
            st.verdict
        },
        decided: st.decided || m,
        descend: st.descend || may(d, c),
        stats: count(st.stats, d.source, m),
    }
}

/// The check state after the rule `r` is tried.
pub open spec fn eval_rule(st: EvalV, r: RuleV, c: CtxV) -> EvalV {
    match r {
        RuleV::Include(d) => if considered(d, c) {
            include_step(st, d, c)
        } else {
            st
        },
        RuleV::Protect(d) => if considered(d, c) {
            include_step(st, d, c)
        } else {
            st
        },
        RuleV::ImpliedDir(d) => if !considered(d, c) {
            st
        } else if hits(d, c) && c.no_implied_dirs {
            EvalV {
                verdict: if st.verdict is None {
                    Some(false)
                } else {
                    st.verdict
                },
                descend: st.descend || may(d, c),
                stats: count(st.stats, d.source, true),
                ..st
            }
        } else {
            include_step(st, d, c)
        },
        RuleV::Exclude(d) => if !considered(d, c) {
            st
        } else {
            let m = hits(d, c);
            if m && !st.decided {
                EvalV {
                    verdict: Some(false),
                    decided: true,
                    descend: if !d.dir_only {
                        st.descend || may(d, c)
                    } else {
                        st.descend
                    },
                    stats: count(st.stats, d.source, true),
                }
            } else {
                EvalV { descend: st.descend || may(d, c), stats: count(st.stats, d.source, m), ..st }
            }
        },
        _ => st,
    }
}

/// The check state after the rules of `rs` from the `i`th on are tried, up
/// to the rule after which the decision stands: a decision on a file, or on
/// a directory once it is known to be walked into.
pub open spec fn eval_from(rs: Seq<RuleV>, i: nat, st: EvalV, c: CtxV) -> EvalV
    decreases rs.len() - i,
{
    if i >= rs.len() {
        st
    } else {
        let s2 = eval_rule(st, rs[i as int], c);
        if s2.decided && (!c.is_dir || s2.descend) {
            s2
        } else {
            eval_from(rs, i + 1, s2, c)
        }
    }
}

/// The answer a check state gives: a path no rule decided is included and
/// walked into.
pub open spec fn eval_result(st: EvalV) -> MatchResult {
    MatchResult {
        included: match st.verdict {
            Some(b) => b,
            None => true,
        },
        descend: st.verdict is None || st.descend,
    }
}

/// The answer for `path`, and the statistics after it, given whether the
/// path exists and is a directory under the root, and the rules of the
/// merge files of the directories on it.
pub open spec fn check_spec(
    m: MatcherV,
    stats: StatsV,
    path: Seq<char>,
    for_delete: bool,
    xattr: bool,
    exists: bool,
    is_dir: bool,
    ls: Seq<LayerV>,
) -> (MatchResult, StatsV) {
    if m.existing && m.root is Some && !exists {
        (MatchResult { included: false, descend: false }, stats)
    } else if path.len() == 0 {
        (MatchResult { included: true, descend: false }, stats)
    } else {
        let ls = if m.root is Some {
            ls
        } else {
            Seq::empty()
        };
        let c = CtxV {
            path,
            is_dir: m.root is Some && is_dir,
            for_delete,
            xattr,
            no_implied_dirs: m.no_implied_dirs,
        };
        let st = eval_from(
            ordered_rules(m, path, ls),
            0,
            EvalV { verdict: None, descend: false, decided: false, stats },
            c,
        );
        (eval_result(st), st.stats)
    }
}

/// How many rules the layers from the `d`th on hold.
pub open spec fn total_rules(ls: Seq<LayerV>, d: nat) -> int
    decreases ls.len() - d,
{
    if d >= ls.len() {
        0
    } else {
        ls[d as int].rules.len() + total_rules(ls, d + 1)
    }
}

pub proof fn lemma_layers_flat_len(
    ls: Seq<LayerV>,
    d: nat,
    offset: int,
    fname: Option<Seq<char>>,
    per_dir: Seq<(usize, PerDirV)>,
)
    ensures
        layers_flat(ls, d, offset, fname, per_dir).len() == total_rules(ls, d),
        total_rules(ls, d) >= 0,
    decreases ls.len() - d,
{
    if d < ls.len() {
        lemma_layers_flat_len(ls, d + 1, offset, fname, per_dir);
    }
}

pub proof fn lemma_max_of_bounds(s: Seq<usize>)
    ensures
        0 <= max_of(s) <= usize::MAX,
        forall|i: int| 0 <= i < s.len() ==> s[i] <= max_of(s),
    decreases s.len(),
{
    if s.len() > 0 {
        lemma_max_of_bounds(s.drop_last());
        assert forall|i: int| 0 <= i < s.len() implies s[i] <= max_of(s) by {
            if i < s.len() - 1 {
                assert(s.drop_last()[i] == s[i]);
            }
        }
    }
}

/// The first place in `s` from `i` on whose entry comes after `e`.
pub open spec fn insert_at(s: Seq<EntryV>, e: EntryV, i: nat) -> nat
    decreases s.len() - i,
{
    if i >= s.len() {
        s.len()
    } else if entry_lt(e, s[i as int]) {
        i
    } else {
        insert_at(s, e, i + 1)
    }
}

pub proof fn lemma_insert_sorted(s: Seq<EntryV>, e: EntryV, i: nat)
    requires
        i <= s.len(),
    ensures
        i <= insert_at(s, e, i) <= s.len(),
        insert_sorted(s.skip(i as int), e) == s.subrange(i as int, insert_at(s, e, i) as int)
            + seq![e] + s.skip(insert_at(s, e, i) as int),
    decreases s.len() - i,
{
    let t = s.skip(i as int);
    if i >= s.len() {
        assert(t =~= Seq::<EntryV>::empty());
        assert(s.subrange(i as int, i as int) + seq![e] + s.skip(i as int) =~= seq![e]);
    } else if entry_lt(e, s[i as int]) {
        assert(t[0] == s[i as int]);
        assert(s.subrange(i as int, i as int) + seq![e] + s.skip(i as int) =~= seq![e] + t);
    } else {
        assert(t[0] == s[i as int]);
        assert(t.drop_first() =~= s.skip((i + 1) as int));
        lemma_insert_sorted(s, e, i + 1);
        let j = insert_at(s, e, i + 1);
        assert(seq![t[0]] + (s.subrange((i + 1) as int, j as int) + seq![e] + s.skip(j as int)) =~= s.subrange(
            i as int,
            j as int,
        ) + seq![e] + s.skip(j as int));
    }
}

/// The end of the last clear rule of `s`, or 0.
pub open spec fn last_clear_end(s: Seq<RuleV>) -> nat
    decreases s.len(),
{
    if s.len() == 0 {
        0
    } else if s.last() is Clear {
        s.len()
    } else {
        last_clear_end(s.drop_last())
    }
}

pub proof fn lemma_after_clear(s: Seq<RuleV>)
    ensures
        last_clear_end(s) <= s.len(),
        after_clear(s) == s.skip(last_clear_end(s) as int),
    decreases s.len(),
{
    if s.len() == 0 {
        assert(s.skip(0) =~= Seq::<RuleV>::empty());
    } else if s.last() is Clear {
        assert(s.skip(s.len() as int) =~= Seq::<RuleV>::empty());
    } else {
        lemma_after_clear(s.drop_last());
        let k = last_clear_end(s.drop_last());
        assert(s.drop_last().skip(k as int).push(s.last()) =~= s.skip(k as int));
    }
}

/// A rule with its ordering key and depth, held by reference.
struct Flat<'a> {
    key: u128,
    depth: usize,
    rule: &'a Rule,
}

struct Entry<'a> {
    key: u128,
    depth: usize,
    seq: usize,
    rule: &'a Rule,
}

spec fn flat_view(f: Flat) -> FlatV {
    FlatV { key: f.key as int, depth: f.depth as int, rule: f.rule@ }
}

spec fn entry_view(e: Entry) -> EntryV {
    EntryV { key: e.key as int, depth: e.depth as int, seq: e.seq as int, rule: e.rule@ }
}

spec fn flats_view(v: Seq<Flat>) -> Seq<FlatV> {
    v.map_values(|f: Flat| flat_view(f))
}

spec fn entries_view(v: Seq<Entry>) -> Seq<EntryV> {
    v.map_values(|e: Entry| entry_view(e))
}

fn entry_lt_exec(a: &Entry, b: &Entry) -> (r: bool)
    ensures
        r == entry_lt(entry_view(*a), entry_view(*b)),
{
    a.key < b.key || (a.key == b.key && a.depth > b.depth) || (a.key == b.key && a.depth
        == b.depth && a.seq < b.seq)
}

/// The check state that the executable check carries.
struct Eval {
    verdict: Option<bool>,
    descend: bool,
    decided: bool,
}

spec fn eval_view(e: Eval, s: FilterStats) -> EvalV {
    EvalV { verdict: e.verdict, descend: e.descend, decided: e.decided, stats: stats_view(s) }
}

fn count_exec(stats: &mut FilterStats, source: Option<&str>, m: bool)
    requires
        old(stats).matches + old(stats).misses < usize::MAX,
    ensures
        stats_view(*final(stats)) == count(
            stats_view(*old(stats)),
            match source {
                Some(s) => Some(s@),
                None => None,
            },
            m,
        ),
        final(stats).matches + final(stats).misses == old(stats).matches + old(stats).misses + 1,
{
    stats.record(source, m);
}

fn source_view_of(d: &super::rule::RuleData) -> (r: Option<&str>)
    ensures
        match r {
            Some(s) => d@.source == Some(s@),
            None => d@.source is None,
        },
{
    d.source_str()
}

fn considered_exec(d: &super::rule::RuleData, is_dir: bool, for_delete: bool, xattr: bool) -> (r:
    bool)
    ensures
        r == considered(
            d@,
            CtxV { path: Seq::empty(), is_dir, for_delete, xattr, no_implied_dirs: false },
        ),
{
    let f = d.flags();
    f.applies(for_delete, xattr) && (!d.dir_only() || is_dir) && !(for_delete && f.perishable)
}

pub proof fn lemma_considered_ctx(d: DataV, c: CtxV)
    ensures
        considered(d, c) == considered(
            d,
            CtxV { path: Seq::empty(), is_dir: c.is_dir, for_delete: c.for_delete, xattr: c.xattr, no_implied_dirs: false },
        ),
{
}

/// Tries one rule: the check state after it (see `eval_rule`).
fn eval_one(
    st: Eval,
    r: &Rule,
    path: &str,
    is_dir: bool,
    for_delete: bool,
    xattr: bool,
    no_implied: bool,
    stats: &mut FilterStats,
) -> (out: Eval)
    requires
        old(stats).matches + old(stats).misses < usize::MAX,
    ensures
        eval_view(out, *final(stats)) == eval_rule(
            eval_view(st, *old(stats)),
            r@,
            CtxV { path: path@, is_dir, for_delete, xattr, no_implied_dirs: no_implied },
        ),
        final(stats).matches + final(stats).misses <= old(stats).matches + old(stats).misses + 1,
{
    let ghost c = CtxV { path: path@, is_dir, for_delete, xattr, no_implied_dirs: no_implied };
    proof {
        match r@ {
            RuleV::Include(d) => lemma_considered_ctx(d, c),
            RuleV::Protect(d) => lemma_considered_ctx(d, c),
            RuleV::ImpliedDir(d) => lemma_considered_ctx(d, c),
            RuleV::Exclude(d) => lemma_considered_ctx(d, c),
            _ => {},
        }
    }
    match r {
        Rule::Include(d) | Rule::Protect(d) => {
            if !considered_exec(d, is_dir, for_delete, xattr) {
                return st;
            }
            let m = d.invert() != d.matches_path(path);
            let md = is_dir && d.may_match_descendant(path);
            count_exec(stats, source_view_of(d), m);
            Eval {
                verdict: if m && !st.decided {
                    Some(true)
                } else {
                    st.verdict
                },
                decided: st.decided || m,
                descend: st.descend || md,
            }
        },
        Rule::ImpliedDir(d) => {
            if !considered_exec(d, is_dir, for_delete, xattr) {
                return st;
            }
            let m = d.invert() != d.matches_path(path);
            let md = is_dir && d.may_match_descendant(path);
            count_exec(stats, source_view_of(d), m);
            if m && no_implied {
                Eval {
                    verdict: if st.verdict.is_none() {
                        Some(false)
                    } else {
                        st.verdict
                    },
                    decided: st.decided,
                    descend: st.descend || md,
                }
            } else {
                Eval {
                    verdict: if m && !st.decided {
                        Some(true)
                    } else {
                        st.verdict
                    },
                    decided: st.decided || m,
                    descend: st.descend || md,
                }
            }
        },
        Rule::Exclude(d) => {
            if !considered_exec(d, is_dir, for_delete, xattr) {
                return st;
            }
            let m = d.invert() != d.matches_path(path);
            let md = is_dir && d.may_match_descendant(path);
            count_exec(stats, source_view_of(d), m);
            if m && !st.decided {
                Eval {
                    verdict: Some(false),
                    decided: true,
                    descend: if !d.dir_only() {
                        st.descend || md
                    } else {
                        st.descend
                    },
                }
            } else {
                Eval { verdict: st.verdict, decided: st.decided, descend: st.descend || md }
            }
        },
        _ => st,
    }
}

impl Matcher {
    /// A matcher for `rules`: merge-file rules go to the per-directory
    /// list and option rules set their option, each rule keeping its
    /// position as its index.
    pub fn new(rules: Vec<Rule>) -> (r: Self)
        ensures
            r@ == take_rules(empty_matcher(), rules_view(rules@), 0),
    {
        let mut m = Matcher {
            root: None,
            rules: Vec::new(),
            per_dir: Vec::new(),
            existing: false,
            prune_empty_dirs: false,
            from0: false,
            no_implied_dirs: false,
        };
        proof {
            assert(m@.rules =~= Seq::<(usize, RuleV)>::empty());
            assert(m@.per_dir =~= Seq::<(usize, PerDirV)>::empty());
            assert(m@ == empty_matcher());
        }
        let n = rules.len();
        m.take_all(rules, 0, 0);
        m
    }

    /// Takes in `more`, the first with index `base`.
    fn take_all(&mut self, more: Vec<Rule>, base: usize, shift: usize)
        requires
            base + shift + more@.len() <= usize::MAX + 1,
        ensures
            final(self)@ == take_rules(old(self)@, rules_view(more@), base + shift),
    {
        let ghost orig = rules_view(more@);
        let ghost start = self@;
        let mut more = more;
        let mut k: usize = 0;
        proof {
            assert(orig.take(0) =~= Seq::<RuleV>::empty());
            assert(orig.skip(0) =~= orig);
        }
        assert(orig.len() == more.len());
        while more.len() > 0
            invariant
                k + more@.len() == orig.len(),
                orig.len() <= usize::MAX,
                base + shift + orig.len() <= usize::MAX + 1,
                rules_view(more@) == orig.skip(k as int),
                self@ == take_rules(start, orig.take(k as int), base + shift),
            decreases more@.len(),
        {
            let ghost old_more = more@;
            proof {
                assert(rules_view(more@)[0] == more@[0]@);
            }
            let r = more.remove(0);
            let ghost rv = r@;
            proof {
                assert(more@ =~= old_more.subrange(1, old_more.len() as int));
                assert(rules_view(more@) =~= orig.skip(k + 1)) by {
                    assert forall|i: int| 0 <= i < more@.len() implies rules_view(more@)[i]
                        == orig.skip(k + 1)[i] by {
                        assert(more@[i] == old_more[i + 1]);
                        assert(rules_view(old_more)[i + 1] == orig.skip(k as int)[i + 1]);
                    }
                }
                assert(orig.take(k + 1).drop_last() =~= orig.take(k as int));
                assert(orig.take(k + 1).last() == rv);
            }
            let idx = base + shift + k;
            let ghost before = self@;
            match r {
                Rule::DirMerge(p) => {
                    let ghost pv = p@;
                    self.per_dir.push((idx, p));
                    proof {
                        assert(self@.per_dir =~= before.per_dir.push((idx, pv)));
                        assert(self@.rules =~= before.rules);
                    }
                },
                Rule::Existing => {
                    self.existing = true;
                },
                Rule::NoExisting => {
                    self.existing = false;
                },
                Rule::PruneEmptyDirs => {
                    self.prune_empty_dirs = true;
                },
                Rule::NoPruneEmptyDirs => {
                    self.prune_empty_dirs = false;
                },
                other => {
                    let ghost ov = other@;
                    self.rules.push((idx, other));
                    proof {
                        assert(self@.rules =~= before.rules.push((idx, ov)));
                        assert(self@.per_dir =~= before.per_dir);
                    }
                },
            }
            proof {
                assert(self@ == take_rule(before, idx, rv));
            }
            k = k + 1;
        }
        proof {
            assert(orig.take(k as int) =~= orig);
        }
    }

    /// The largest index of a rule or merge file, or 0.
    pub fn max_index(&self) -> (r: usize)
        ensures
            r == max_index(self@),
    {
        let ghost s = self@.rules.map_values(|p: (usize, RuleV)| p.0) + self@.per_dir.map_values(
            |p: (usize, PerDirV)| p.0,
        );
        let n1 = self.rules.len();
        let n2 = self.per_dir.len();
        let mut mx: usize = 0;
        let mut i: usize = 0;
        assert(s.take(0) =~= Seq::<usize>::empty());
        while i < n1
            invariant
                i <= n1,
                n1 == self.rules@.len(),
                n2 == self.per_dir@.len(),
                s == self@.rules.map_values(|p: (usize, RuleV)| p.0) + self@.per_dir.map_values(
                    |p: (usize, PerDirV)| p.0,
                ),
                mx == max_of(s.take(i as int)),
            decreases n1 - i,
        {
            let v = self.rules[i].0;
            proof {
                assert(s[i as int] == v);
                assert(s.take(i + 1).drop_last() =~= s.take(i as int));
                assert(s.take(i + 1).last() == v);
            }
            if v > mx {
                mx = v;
            }
            i = i + 1;
        }
        let mut j: usize = 0;
        while j < n2
            invariant
                j <= n2,
                n1 == self.rules@.len(),
                n2 == self.per_dir@.len(),
                s == self@.rules.map_values(|p: (usize, RuleV)| p.0) + self@.per_dir.map_values(
                    |p: (usize, PerDirV)| p.0,
                ),
                mx == max_of(s.take(n1 + j)),
            decreases n2 - j,
        {
            let v = self.per_dir[j].0;
            proof {
                assert(s[n1 + j] == v);
                assert(s.take(n1 + j + 1).drop_last() =~= s.take(n1 + j));
                assert(s.take(n1 + j + 1).last() == v);
            }
            if v > mx {
                mx = v;
            }
            j = j + 1;
        }
        assert(s.take(n1 + n2) =~= s);
        mx
    }

    /// Takes in `more` after the rules already held, with indices after
    /// the largest one.
    pub fn merge(&mut self, more: Vec<Rule>)
        requires
            max_index(old(self)@) + more@.len() <= usize::MAX,
        ensures
            final(self)@ == take_rules(old(self)@, rules_view(more@), max_index(old(self)@) + 1),
    {
        let mx = self.max_index();
        self.take_all(more, mx, 1);
    }

    /// This matcher with `root` as the directory the checked paths are
    /// relative to.
    pub fn with_root(self, root: String) -> (r: Self)
        ensures
            r@ == (MatcherV { root: Some(root@), ..self@ }),
    {
        let mut m = self;
        m.root = Some(root);
        m
    }

    /// This matcher, excluding what does not exist under the root.
    pub fn with_existing(self) -> (r: Self)
        ensures
            r@ == (MatcherV { existing: true, ..self@ }),
    {
        let mut m = self;
        m.existing = true;
        m
    }

    /// This matcher, excluding directories with nothing included below.
    pub fn with_prune_empty_dirs(self) -> (r: Self)
        ensures
            r@ == (MatcherV { prune_empty_dirs: true, ..self@ }),
    {
        let mut m = self;
        m.prune_empty_dirs = true;
        m
    }

    /// This matcher, reading merge files as NUL-separated.
    pub fn with_from0(self) -> (r: Self)
        ensures
            r@ == (MatcherV { from0: true, ..self@ }),
    {
        let mut m = self;
        m.from0 = true;
        m
    }

    /// This matcher, not including the parents that included paths imply.
    pub fn with_no_implied_dirs(self) -> (r: Self)
        ensures
            r@ == (MatcherV { no_implied_dirs: true, ..self@ }),
    {
        let mut m = self;
        m.no_implied_dirs = true;
        m
    }

    pub fn root(&self) -> (r: Option<&str>)
        ensures
            match r {
                Some(s) => self@.root == Some(s@),
                None => self@.root is None,
            },
    {
        match &self.root {
            Some(s) => Some(s.as_str()),
            None => None,
        }
    }

    pub fn from0(&self) -> (r: bool)
        ensures
            r == self@.from0,
    {
        self.from0
    }

    pub fn prune_empty_dirs(&self) -> (r: bool)
        ensures
            r == self@.prune_empty_dirs,
    {
        self.prune_empty_dirs
    }

    /// The matcher's merge files, with their indices.
    pub fn per_dir(&self) -> (r: &Vec<(usize, PerDir)>)
        ensures
            r@.map_values(|p: (usize, PerDir)| (p.0, p.1@)) == self@.per_dir,
    {
        &self.per_dir
    }
}

fn contains_name(names: &Vec<String>, f: &[char]) -> (r: bool)
    ensures
        r == strings_view(names@).contains(f@),
{
    let ghost nv = strings_view(names@);
    let mut i: usize = 0;
    while i < names.len()
        invariant
            i <= names@.len(),
            nv == strings_view(names@),
            forall|j: int| 0 <= j < i ==> nv[j] != f@,
        decreases names@.len() - i,
    {
        if chars_eq_str(f, names[i].as_str()) {
            assert(nv[i as int] == f@);
            return true;
        }
        i = i + 1;
    }
    false
}

impl Matcher {
    fn names_per_dir(&self, f: &[char]) -> (r: bool)
        ensures
            r == exists|i: int|
                0 <= i < self@.per_dir.len() && (#[trigger] self@.per_dir[i]).1.file == f@,
    {
        let mut i: usize = 0;
        while i < self.per_dir.len()
            invariant
                i <= self.per_dir@.len(),
                forall|j: int| 0 <= j < i ==> (#[trigger] self@.per_dir[j]).1.file != f@,
            decreases self.per_dir@.len() - i,
        {
            proof {
                assert(self@.per_dir[i as int] == (self.per_dir@[i as int].0, self.per_dir@[i as int].1@));
            }
            if chars_eq_str(f, self.per_dir[i].1.file.as_str()) {
                return true;
            }
            i = i + 1;
        }
        false
    }

    /// Decides `path` (see `check_spec`): `exists` and `is_dir` say whether
    /// it exists and is a directory under the root; `layers` hold the
    /// rules of the merge files of the directories on it, from the root
    /// down. Each rule tried is counted in `stats`.
    pub fn check(
        &self,
        path: &str,
        for_delete: bool,
        xattr: bool,
        exists: bool,
        is_dir: bool,
        layers: &Vec<DirLayer>,
        stats: &mut FilterStats,
    ) -> (r: MatchResult)
        requires
            old(stats).matches + old(stats).misses + self@.rules.len() + total_rules(
                layers_view(layers@),
                0,
            ) <= usize::MAX,
        ensures
            (r, stats_view(*final(stats))) == check_spec(
                self@,
                stats_view(*old(stats)),
                path@,
                for_delete,
                xattr,
                exists,
                is_dir,
                layers_view(layers@),
            ),
    {
        if self.existing && self.root.is_some() && !exists {
            return MatchResult { included: false, descend: false };
        }
        let pc = chars_of(path);
        if pc.len() == 0 {
            return MatchResult { included: true, descend: false };
        }
        let has_root = self.root.is_some();
        let is_dir2 = has_root && is_dir;
        let ghost lsv = if has_root {
            layers_view(layers@)
        } else {
            Seq::<LayerV>::empty()
        };
        let ghost idxs = self@.rules.map_values(|p: (usize, RuleV)| p.0);
        let ghost g = global_flat(self@.rules);
        let mut flat: Vec<Flat> = Vec::new();
        let mut mx: usize = 0;
        let mut k: usize = 0;
        while k < self.rules.len()
            invariant
                k <= self.rules@.len(),
                idxs == self@.rules.map_values(|p: (usize, RuleV)| p.0),
                g == global_flat(self@.rules),
                flats_view(flat@) == g.take(k as int),
                mx == max_of(idxs.take(k as int)),
            decreases self.rules@.len() - k,
        {
            let v = self.rules[k].0;
            let ghost before = flats_view(flat@);
            let f = Flat { key: v as u128, depth: 0, rule: &self.rules[k].1 };
            proof {
                assert(self@.rules[k as int] == (v, self.rules@[k as int].1@));
                assert(g[k as int] == flat_view(f));
            }
            flat.push(f);
            proof {
                assert(flats_view(flat@) =~= before.push(flat_view(f)));
                assert(g.take(k + 1) =~= g.take(k as int).push(g[k as int]));
                assert(flats_view(flat@) =~= g.take(k + 1));
                assert(idxs.take(k + 1).drop_last() =~= idxs.take(k as int));
                assert(idxs[k as int] == v);
            }
            if v > mx {
                mx = v;
            }
            k = k + 1;
        }
        proof {
            assert(g.take(self@.rules.len() as int) =~= g);
            assert(idxs.take(self@.rules.len() as int) =~= idxs);
            lemma_max_of_bounds(idxs);
        }
        let offset: u128 = mx as u128 + 1;
        let fname = file_name_of(&pc);
        let ghost fv = file_name(path@);
        let ghost lf = layers_flat(lsv, 0, offset as int, fv, self@.per_dir);
        if has_root {
            let ghost lv = layers_view(layers@);
            let mut d: usize = 0;
            proof {
                assert(flats_view(flat@) + lf == g + lf);
            }
            while d < layers.len()
                invariant
                    d <= layers@.len(),
                    has_root,
                    lv == layers_view(layers@),
                    lsv == lv,
                    lf == layers_flat(lsv, 0, offset as int, fv, self@.per_dir),
                    offset <= usize::MAX + 1,
                    match fname {
                        Some(v) => fv == Some(v@),
                        None => fv is None,
                    },
                    flats_view(flat@) + layers_flat(lv, d as nat, offset as int, fv, self@.per_dir)
                        == g + lf,
                decreases layers@.len() - d,
            {
                let layer = &layers[d];
                proof {
                    assert(lv[d as int] == layer@);
                }
                let is_merge = match &fname {
                    Some(f) => self.names_per_dir(f.as_slice()) || contains_name(&layer.merge_files, f.as_slice()),
                    None => false,
                };
                let bump: u128 = if is_merge {
                    2
                } else {
                    0
                };
                let depth = d + 1;
                let ghost blk = layer_block(layer@, d as nat, offset as int, fv, self@.per_dir);
                let ghost base = flats_view(flat@);
                let mut j: usize = 0;
                while j < layer.rules.len()
                    invariant
                        j <= layer.rules@.len(),
                        d < layers@.len(),
                        depth == d + 1,
                        offset <= usize::MAX + 1,
                        bump == (if names_merge_file(fv, self@.per_dir, layer@) {
                            2int
                        } else {
                            0int
                        }),
                        blk == layer_block(layer@, d as nat, offset as int, fv, self@.per_dir),
                        flats_view(flat@) == base + blk.take(j as int),
                    decreases layer.rules@.len() - j,
                {
                    let v = layer.rules[j].0;
                    let ghost before = flats_view(flat@);
                    let f = Flat { key: offset + v as u128 + bump, depth, rule: &layer.rules[j].1 };
                    proof {
                        assert(layer@.rules[j as int] == (v, layer.rules@[j as int].1@));
                        assert(blk[j as int] == flat_view(f));
                    }
                    flat.push(f);
                    proof {
                        assert(flats_view(flat@) =~= before.push(flat_view(f)));
                        assert(blk.take(j + 1) =~= blk.take(j as int).push(blk[j as int]));
                        assert(flats_view(flat@) =~= base + blk.take(j + 1));
                    }
                    j = j + 1;
                }
                proof {
                    assert(blk.take(layer.rules@.len() as int) =~= blk);
                    assert(layers_flat(lv, d as nat, offset as int, fv, self@.per_dir) == blk
                        + layers_flat(lv, (d + 1) as nat, offset as int, fv, self@.per_dir));
                    assert(flats_view(flat@) + layers_flat(lv, (d + 1) as nat, offset as int, fv, self@.per_dir)
                        =~= base + layers_flat(lv, d as nat, offset as int, fv, self@.per_dir));
                }
                d = d + 1;
            }
            proof {
                assert(flats_view(flat@) + Seq::<FlatV>::empty() =~= flats_view(flat@));
            }
        } else {
            proof {
                assert(lf =~= Seq::<FlatV>::empty());
                assert(g + lf =~= g);
            }
        }
        let ghost fvw = flats_view(flat@);
        proof {
            assert(fvw == g + lf);
            lemma_layers_flat_len(lsv, 0, offset as int, fv, self@.per_dir);
            lemma_layers_flat_len(layers_view(layers@), 0, offset as int, fv, self@.per_dir);
        }
        // order the rules
        let mut sorted: Vec<Entry> = Vec::new();
        let mut i: usize = 0;
        while i < flat.len()
            invariant
                i <= flat@.len(),
                fvw == flats_view(flat@),
                entries_view(sorted@) == sort_entries(with_seq(fvw).take(i as int)),
                sorted@.len() == i,
            decreases flat@.len() - i,
        {
            let e = Entry { key: flat[i].key, depth: flat[i].depth, seq: i, rule: flat[i].rule };
            let ghost ev = entry_view(e);
            let ghost sv = entries_view(sorted@);
            proof {
                assert(ev == with_seq(fvw)[i as int]);
                assert(with_seq(fvw).take(i + 1).drop_last() =~= with_seq(fvw).take(i as int));
                assert(with_seq(fvw).take(i + 1).last() == ev);
                lemma_insert_sorted(sv, ev, 0);
                assert(sv.skip(0) =~= sv);
            }
            let mut j: usize = 0;
            while j < sorted.len() && !entry_lt_exec(&e, &sorted[j])
                invariant
                    j <= sorted@.len(),
                    sv == entries_view(sorted@),
                    ev == entry_view(e),
                    insert_at(sv, ev, j as nat) == insert_at(sv, ev, 0),
                decreases sorted@.len() - j,
            {
                proof {
                    assert(sv[j as int] == entry_view(sorted@[j as int]));
                }
                j = j + 1;
            }
            proof {
                if j < sorted@.len() {
                    assert(sv[j as int] == entry_view(sorted@[j as int]));
                }
                assert(insert_at(sv, ev, j as nat) == j);
            }
            sorted.insert(j, e);
            proof {
                assert(entries_view(sorted@) =~= sv.subrange(0, j as int) + seq![ev] + sv.skip(
                    j as int,
                ));
            }
            i = i + 1;
        }
        let ghost ev_all = entries_view(sorted@);
        let ghost rs = ev_all.map_values(|e: EntryV| e.rule);
        proof {
            assert(with_seq(fvw).take(flat@.len() as int) =~= with_seq(fvw));
        }
        // what a clear rule leaves
        let mut start: usize = 0;
        let mut q: usize = 0;
        while q < sorted.len()
            invariant
                q <= sorted@.len(),
                ev_all == entries_view(sorted@),
                rs == ev_all.map_values(|e: EntryV| e.rule),
                start == last_clear_end(rs.take(q as int)),
                start <= q,
            decreases sorted@.len() - q,
        {
            proof {
                assert(rs[q as int] == sorted@[q as int].rule@);
                assert(rs.take(q + 1).drop_last() =~= rs.take(q as int));
            }
            if matches!(sorted[q].rule, Rule::Clear) {
                start = q + 1;
            }
            q = q + 1;
        }
        proof {
            assert(rs.take(sorted@.len() as int) =~= rs);
            lemma_after_clear(rs);
        }
        let ghost ordered = rs.skip(start as int);
        let ghost c = CtxV {
            path: path@,
            is_dir: is_dir2,
            for_delete,
            xattr,
            no_implied_dirs: self.no_implied_dirs,
        };
        let ghost init = EvalV {
            verdict: None,
            descend: false,
            decided: false,
            stats: stats_view(*old(stats)),
        };
        let mut st = Eval { verdict: None, descend: false, decided: false };
        let mut done = false;
        let mut p: usize = start;
        while p < sorted.len() && !done
            invariant
                start <= p <= sorted@.len(),
                ev_all == entries_view(sorted@),
                rs == ev_all.map_values(|e: EntryV| e.rule),
                ordered == rs.skip(start as int),
                c == (CtxV {
                    path: path@,
                    is_dir: is_dir2,
                    for_delete,
                    xattr,
                    no_implied_dirs: self.no_implied_dirs,
                }),
                !done ==> stats.matches + stats.misses + (sorted@.len() - p) <= usize::MAX,
                done ==> eval_view(st, *stats) == eval_from(ordered, 0, init, c),
                !done ==> eval_from(ordered, (p - start) as nat, eval_view(st, *stats), c)
                    == eval_from(ordered, 0, init, c),
            decreases sorted@.len() - p + (if done {
                0int
            } else {
                1int
            }),
        {
            let ghost before = eval_view(st, *stats);
            proof {
                assert(ordered[p - start] == sorted@[p as int].rule@);
            }
            let st2 = eval_one(
                st,
                sorted[p].rule,
                path,
                is_dir2,
                for_delete,
                xattr,
                self.no_implied_dirs,
                stats,
            );
            if st2.decided && (!is_dir2 || st2.descend) {
                done = true;
            } else {
                p = p + 1;
            }
            st = st2;
        }
        proof {
            if !done {
                assert(ordered.len() == p - start);
            }
        }
        MatchResult {
            included: match st.verdict {
                Some(b) => b,
                None => true,
            },
            descend: st.verdict.is_none() || st.descend,
        }
    }
}

/// Whether the rule `r` decides the answer: a pattern rule that applies
/// and matches, except an implied parent when such parents are left out.
pub open spec fn decides(r: RuleV, c: CtxV) -> bool {
    match r {
        RuleV::Include(d) => considered(d, c) && hits(d, c),
        RuleV::Protect(d) => considered(d, c) && hits(d, c),
        RuleV::Exclude(d) => considered(d, c) && hits(d, c),
        RuleV::ImpliedDir(d) => considered(d, c) && hits(d, c) && !c.no_implied_dirs,
        _ => false,
    }
}

/// The verdict a deciding rule gives.
pub open spec fn verdict_of(r: RuleV) -> bool {
    !(r is Exclude)
}

proof fn lemma_decided_stays(rs: Seq<RuleV>, i: nat, st: EvalV, c: CtxV)
    requires
        st.decided,
        st.verdict is Some,
    ensures
        eval_from(rs, i, st, c).decided,
        eval_from(rs, i, st, c).verdict == st.verdict,
    decreases rs.len() - i,
{
    if i < rs.len() {
        let s2 = eval_rule(st, rs[i as int], c);
        assert(s2.decided && s2.verdict == st.verdict);
        if !(s2.decided && (!c.is_dir || s2.descend)) {
            lemma_decided_stays(rs, i + 1, s2, c);
        }
    }
}

proof fn lemma_first_decides_from(rs: Seq<RuleV>, i: nat, j: nat, st: EvalV, c: CtxV)
    requires
        i <= j < rs.len(),
        !st.decided,
        forall|k: int| i <= k < j ==> !decides(#[trigger] rs[k], c),
        decides(rs[j as int], c),
    ensures
        eval_from(rs, i, st, c).verdict == Some(verdict_of(rs[j as int])),
    decreases j - i,
{
    let s2 = eval_rule(st, rs[i as int], c);
    if i == j {
        assert(s2.decided && s2.verdict == Some(verdict_of(rs[j as int])));
        if !(s2.decided && (!c.is_dir || s2.descend)) {
            lemma_decided_stays(rs, i + 1, s2, c);
        }
    } else {
        assert(!decides(rs[i as int], c));
        assert(!s2.decided);
        lemma_first_decides_from(rs, i + 1, j, s2, c);
    }
}

/// The first rule that matches decides: when the rules before the `j`th
/// settle nothing and the `j`th does, the path is included exactly when
/// that rule is not an exclude rule, whatever follows.
pub proof fn lemma_first_match_decides(rs: Seq<RuleV>, j: nat, st: EvalV, c: CtxV)
    requires
        j < rs.len(),
        !st.decided,
        forall|k: int| 0 <= k < j ==> !decides(#[trigger] rs[k], c),
        decides(rs[j as int], c),
    ensures
        eval_result(eval_from(rs, 0, st, c)).included == verdict_of(rs[j as int]),
{
    lemma_first_decides_from(rs, 0, j, st, c);
}

proof fn lemma_no_decision_from(rs: Seq<RuleV>, i: nat, st: EvalV, c: CtxV)
    requires
        i <= rs.len(),
        !st.decided,
        st.verdict is None || st.verdict == Some(false),
        forall|k: int| i <= k < rs.len() ==> !decides(#[trigger] rs[k], c),
    ensures
        !eval_from(rs, i, st, c).decided,
        eval_from(rs, i, st, c).verdict is None || eval_from(rs, i, st, c).verdict == Some(false),
        st.verdict is None && c.no_implied_dirs == false ==> eval_from(rs, i, st, c).verdict is None,
    decreases rs.len() - i,
{
    if i < rs.len() {
        let s2 = eval_rule(st, rs[i as int], c);
        assert(!decides(rs[i as int], c));
        assert(!s2.decided);
        lemma_no_decision_from(rs, i + 1, s2, c);
    }
}

/// A path that no rule settles, with implied parents included, is
/// included and walked into.
pub proof fn lemma_unmatched_included(rs: Seq<RuleV>, st: EvalV, c: CtxV)
    requires
        !st.decided,
        st.verdict is None,
        !c.no_implied_dirs,
        forall|k: int| 0 <= k < rs.len() ==> !decides(#[trigger] rs[k], c),
    ensures
        eval_result(eval_from(rs, 0, st, c)) == (MatchResult { included: true, descend: true }),
{
    lemma_no_decision_from(rs, 0, st, c);
}

/// An inverted rule matches exactly the paths its pattern does not.
pub proof fn lemma_invert_flips(d: DataV, c: CtxV)
    ensures
        hits(DataV { invert: true, ..d }, c) == !hits(DataV { invert: false, ..d }, c),
{
}

/// A clear rule drops every rule before it.
pub proof fn lemma_clear_drops_earlier(s: Seq<RuleV>, t: Seq<RuleV>)
    ensures
        after_clear(s + seq![RuleV::Clear] + t) == after_clear(t),
    decreases t.len(),
{
    let u = s + seq![RuleV::Clear] + t;
    if t.len() == 0 {
        assert(u.last() is Clear);
        assert(after_clear(t) =~= Seq::<RuleV>::empty());
    } else {
        assert(u.drop_last() =~= s + seq![RuleV::Clear] + t.drop_last());
        assert(u.last() == t.last());
        lemma_clear_drops_earlier(s, t.drop_last());
    }
}

/// Rules without a clear rule among them all stay.
pub proof fn lemma_no_clear_keeps(s: Seq<RuleV>)
    requires
        forall|i: int| 0 <= i < s.len() ==> !(#[trigger] s[i] is Clear),
    ensures
        after_clear(s) == s,
    decreases s.len(),
{
    if s.len() > 0 {
        assert(!(s[s.len() - 1] is Clear));
        lemma_no_clear_keeps(s.drop_last());
        assert(s.drop_last().push(s.last()) =~= s);
    }
}

impl Matcher {
    /// How many rules the matcher holds.
    pub fn rule_count(&self) -> (r: usize)
        ensures
            r == self@.rules.len(),
    {
        self.rules.len()
    }

    /// Whether a check of `path` reads the merge files of the directories
    /// on it: it does when the matcher has a root, the path is not empty,
    /// and it is not refused first for not existing.
    pub fn consults_dirs(&self, path: &str, exists: bool) -> (r: bool)
        ensures
            r == (!(self@.existing && self@.root is Some && !exists) && path@.len() > 0
                && self@.root is Some),
    {
        let pc = chars_of(path);
        !(self.existing && self.root.is_some() && !exists) && pc.len() > 0 && self.root.is_some()
    }

    /// Whether the answer `r` for a directory (`is_dir`) waits on its
    /// children: an included directory is pruned when nothing in it is
    /// included.
    pub fn wants_children(&self, r: MatchResult, is_dir: bool) -> (b: bool)
        ensures
            b == (r.included && self@.prune_empty_dirs && self@.root is Some && is_dir),
    {
        r.included && self.prune_empty_dirs && self.root.is_some() && is_dir
    }
}

/// The answer for a directory whose children were checked: excluded when
/// none of them is included.
pub fn after_children(r: MatchResult, any_child_included: bool) -> (out: MatchResult)
    ensures
        out == (if any_child_included {
            r
        } else {
            MatchResult { included: false, descend: r.descend }
        }),
{
    if any_child_included {
        r
    } else {
        MatchResult { included: false, descend: r.descend }
    }
}

/// Whether `r` only sets an option of the matcher.
pub open spec fn is_option_rule(r: RuleV) -> bool {
    r is Existing || r is NoExisting || r is PruneEmptyDirs || r is NoPruneEmptyDirs
}

proof fn lemma_take_rules_concat(m: MatcherV, a: Seq<RuleV>, b: Seq<RuleV>, base: int)
    ensures
        take_rules(take_rules(m, a, base), b, base + a.len()) == take_rules(m, a + b, base),
    decreases b.len(),
{
    if b.len() == 0 {
        assert(a + b =~= a);
    } else {
        lemma_take_rules_concat(m, a, b.drop_last(), base);
        assert((a + b).drop_last() =~= a + b.drop_last());
        assert((a + b).last() == b.last());
        assert(base + a.len() + b.len() - 1 == base + (a + b).len() - 1);
    }
}

proof fn lemma_take_rules_indices(a: Seq<RuleV>)
    requires
        a.len() <= usize::MAX,
    ensures
        forall|i: int|
            0 <= i < take_rules(empty_matcher(), a, 0).rules.len() ==> (#[trigger] take_rules(
                empty_matcher(),
                a,
                0,
            ).rules[i]).0 < a.len(),
        forall|i: int|
            0 <= i < take_rules(empty_matcher(), a, 0).per_dir.len() ==> (#[trigger] take_rules(
                empty_matcher(),
                a,
                0,
            ).per_dir[i]).0 < a.len(),
    decreases a.len(),
{
    if a.len() > 0 {
        lemma_take_rules_indices(a.drop_last());
        let prev = take_rules(empty_matcher(), a.drop_last(), 0);
        let m = take_rules(empty_matcher(), a, 0);
        assert(m == take_rule(prev, (a.len() - 1) as usize, a.last()));
        assert forall|i: int| 0 <= i < m.rules.len() implies (#[trigger] m.rules[i]).0 < a.len() by {
            if i < prev.rules.len() {
                assert(m.rules[i] == prev.rules[i]);
            }
        }
        assert forall|i: int| 0 <= i < m.per_dir.len() implies (#[trigger] m.per_dir[i]).0
            < a.len() by {
            if i < prev.per_dir.len() {
                assert(m.per_dir[i] == prev.per_dir[i]);
            }
        }
    }
}

proof fn lemma_max_of_le(s: Seq<usize>, k: int)
    requires
        k >= 0,
        forall|i: int| 0 <= i < s.len() ==> s[i] <= k,
    ensures
        max_of(s) <= k,
    decreases s.len(),
{
    if s.len() > 0 {
        assert forall|i: int| 0 <= i < s.drop_last().len() implies s.drop_last()[i] <= k by {
            assert(s.drop_last()[i] == s[i]);
        }
        lemma_max_of_le(s.drop_last(), k);
    }
}

/// Building a matcher from `a` and then merging `b` into it gives the
/// matcher built from `a` followed by `b`, when `a` ends with a rule the
/// matcher keeps (an option rule leaves no index behind).
pub proof fn lemma_merge_after_new(a: Seq<RuleV>, b: Seq<RuleV>)
    requires
        a.len() > 0,
        a.len() + b.len() <= usize::MAX,
        !is_option_rule(a.last()),
    ensures
        take_rules(
            take_rules(empty_matcher(), a, 0),
            b,
            max_index(take_rules(empty_matcher(), a, 0)) + 1,
        ) == take_rules(empty_matcher(), a + b, 0),
{
    let m = take_rules(empty_matcher(), a, 0);
    let prev = take_rules(empty_matcher(), a.drop_last(), 0);
    let k = a.len() - 1;
    lemma_take_rules_indices(a);
    let s = m.rules.map_values(|p: (usize, RuleV)| p.0) + m.per_dir.map_values(
        |p: (usize, PerDirV)| p.0,
    );
    assert forall|i: int| 0 <= i < s.len() implies s[i] <= k by {
        if i < m.rules.len() {
            assert(s[i] == m.rules[i].0);
        } else {
            assert(s[i] == m.per_dir[i - m.rules.len()].0);
        }
    }
    lemma_max_of_le(s, k);
    lemma_max_of_bounds(s);
    assert(m == take_rule(prev, k as usize, a.last()));
    if a.last() is DirMerge {
        assert(s[s.len() - 1] == k);
    } else {
        assert(m.rules.last().0 == k);
        assert(s[m.rules.len() - 1] == k);
    }
    assert(max_index(m) == k);
    lemma_take_rules_concat(empty_matcher(), a, b, 0);
}

/// `a` may be tried before `b`: a lower index first, and at equal index a
/// rule from a deeper directory first.
spec fn tried_no_later(a: EntryV, b: EntryV) -> bool {
    a.key < b.key || (a.key == b.key && a.depth >= b.depth)
}

proof fn lemma_insert_sorted_len(s: Seq<EntryV>, e: EntryV)
    ensures
        insert_sorted(s, e).len() == s.len() + 1,
    decreases s.len(),
{
    if s.len() > 0 && !entry_lt(e, s[0]) {
        lemma_insert_sorted_len(s.drop_first(), e);
    }
}

proof fn lemma_sort_entries_len(s: Seq<EntryV>)
    ensures
        sort_entries(s).len() == s.len(),
    decreases s.len(),
{
    if s.len() > 0 {
        lemma_sort_entries_len(s.drop_last());
        lemma_insert_sorted_len(sort_entries(s.drop_last()), s.last());
    }
}

/// A bound below every entry of `s` and below `e` is below every entry
/// after the insertion.
proof fn lemma_insert_sorted_bound(s: Seq<EntryV>, e: EntryV, b: EntryV)
    requires
        forall|k: int| 0 <= k < s.len() ==> tried_no_later(b, #[trigger] s[k]),
        tried_no_later(b, e),
    ensures
        forall|k: int|
            0 <= k < insert_sorted(s, e).len() ==> tried_no_later(b, #[trigger] insert_sorted(s, e)[k]),
    decreases s.len(),
{
    if s.len() > 0 && !entry_lt(e, s[0]) {
        let t = s.drop_first();
        assert forall|k: int| 0 <= k < t.len() implies tried_no_later(b, #[trigger] t[k]) by {
            assert(t[k] == s[k + 1]);
        }
        lemma_insert_sorted_bound(t, e, b);
        let r = insert_sorted(s, e);
        assert forall|k: int| 0 <= k < r.len() implies tried_no_later(b, #[trigger] r[k]) by {
            if k > 0 {
                assert(r[k] == insert_sorted(t, e)[k - 1]);
            }
        }
    }
}

proof fn lemma_insert_sorted_order(s: Seq<EntryV>, e: EntryV)
    requires
        forall|i: int, j: int| 0 <= i < j < s.len() ==> tried_no_later(#[trigger] s[i], #[trigger] s[j]),
    ensures
        forall|i: int, j: int|
            0 <= i < j < insert_sorted(s, e).len() ==> tried_no_later(
                #[trigger] insert_sorted(s, e)[i],
                #[trigger] insert_sorted(s, e)[j],
            ),
    decreases s.len(),
{
    let r = insert_sorted(s, e);
    lemma_insert_sorted_len(s, e);
    if s.len() == 0 {
    } else if entry_lt(e, s[0]) {
        assert forall|i: int, j: int| 0 <= i < j < r.len() implies tried_no_later(
            #[trigger] r[i],
            #[trigger] r[j],
        ) by {
            if i == 0 {
                assert(r[j] == s[j - 1]);
                if j - 1 > 0 {
                    assert(tried_no_later(s[0], s[j - 1]));
                }
            } else {
                assert(r[i] == s[i - 1]);
                assert(r[j] == s[j - 1]);
            }
        }
    } else {
        let t = s.drop_first();
        assert forall|i: int, j: int| 0 <= i < j < t.len() implies tried_no_later(
            #[trigger] t[i],
            #[trigger] t[j],
        ) by {
            assert(t[i] == s[i + 1]);
            assert(t[j] == s[j + 1]);
        }
        lemma_insert_sorted_order(t, e);
        assert forall|k: int| 0 <= k < t.len() implies tried_no_later(s[0], #[trigger] t[k]) by {
            assert(t[k] == s[k + 1]);
        }
        assert(tried_no_later(s[0], e));
        lemma_insert_sorted_bound(t, e, s[0]);
        let u = insert_sorted(t, e);
        assert forall|i: int, j: int| 0 <= i < j < r.len() implies tried_no_later(
            #[trigger] r[i],
            #[trigger] r[j],
        ) by {
            assert(r[j] == u[j - 1]);
            if i > 0 {
                assert(r[i] == u[i - 1]);
            }
        }
    }
}

/// The multiset of a one-entry sequence.
proof fn lemma_single_multiset(x: EntryV)
    ensures
        seq![x].to_multiset() =~= vstd::multiset::Multiset::empty().insert(x),
{
    let z = Seq::<EntryV>::empty();
    vstd::seq_lib::to_multiset_len(z);
    vstd::multiset::lemma_multiset_empty_len(z.to_multiset());
    vstd::seq_lib::to_multiset_build(z, x);
    assert(z.push(x) =~= seq![x]);
}

proof fn lemma_insert_sorted_multiset(s: Seq<EntryV>, e: EntryV)
    ensures
        insert_sorted(s, e).to_multiset() =~= s.to_multiset().insert(e),
    decreases s.len(),
{
    broadcast use vstd::multiset::group_multiset_axioms;
    lemma_single_multiset(e);
    if s.len() == 0 {
        vstd::seq_lib::to_multiset_len(s);
        vstd::multiset::lemma_multiset_empty_len(s.to_multiset());
        assert(insert_sorted(s, e) == seq![e]);
    } else {
        let t = s.drop_first();
        lemma_single_multiset(s[0]);
        assert(s =~= seq![s[0]] + t);
        vstd::seq_lib::lemma_multiset_commutative(seq![s[0]], t);
        assert(s.to_multiset() =~= vstd::multiset::Multiset::empty().insert(s[0]).add(t.to_multiset()));
        if entry_lt(e, s[0]) {
            vstd::seq_lib::lemma_multiset_commutative(seq![e], s);
            assert(insert_sorted(s, e) == seq![e] + s);
        } else {
            lemma_insert_sorted_multiset(t, e);
            let u = insert_sorted(t, e);
            vstd::seq_lib::lemma_multiset_commutative(seq![s[0]], u);
            assert(insert_sorted(s, e) == seq![s[0]] + u);
        }
    }
}

proof fn lemma_sort_entries_multiset(s: Seq<EntryV>)
    ensures
        sort_entries(s).to_multiset() =~= s.to_multiset(),
    decreases s.len(),
{
    broadcast use vstd::multiset::group_multiset_axioms;
    if s.len() == 0 {
        assert(s =~= Seq::<EntryV>::empty());
        assert(sort_entries(s) == s);
    } else {
        lemma_sort_entries_multiset(s.drop_last());
        lemma_insert_sorted_multiset(sort_entries(s.drop_last()), s.last());
        vstd::seq_lib::to_multiset_build(s.drop_last(), s.last());
        assert(s.drop_last().push(s.last()) =~= s);
    }
}

/// The order in which rules are tried: entries come by index, lowest
/// first, and at an equal index an entry of a deeper directory layer comes
/// before one of a shallower layer, so a directory's merge file overrides
/// its parent's at the same rule position. No entry is lost or added.
pub proof fn lemma_sorted_by_index_then_depth(s: Seq<EntryV>)
    ensures
        sort_entries(s).len() == s.len(),
        sort_entries(s).to_multiset() == s.to_multiset(),
        forall|i: int, j: int|
            0 <= i < j < s.len() ==> {
                let a = #[trigger] sort_entries(s)[i];
                let b = #[trigger] sort_entries(s)[j];
                a.key < b.key || (a.key == b.key && a.depth >= b.depth)
            },
    decreases s.len(),
{
    lemma_sort_entries_len(s);
    lemma_sort_entries_multiset(s);
    if s.len() > 0 {
        lemma_sorted_by_index_then_depth(s.drop_last());
        let p = sort_entries(s.drop_last());
        assert forall|i: int, j: int| 0 <= i < j < p.len() implies tried_no_later(
            #[trigger] p[i],
            #[trigger] p[j],
        ) by {}
        lemma_insert_sorted_order(p, s.last());
        let r = sort_entries(s);
        assert forall|i: int, j: int| 0 <= i < j < s.len() implies {
            let a = #[trigger] r[i];
            let b = #[trigger] r[j];
            a.key < b.key || (a.key == b.key && a.depth >= b.depth)
        } by {
            assert(tried_no_later(r[i], r[j]));
        }
    }
}

} // verus!

