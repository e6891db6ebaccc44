//! The rule text parser. Each line is decoded and read as a rule: most
//! lines become rules at once; a line that names a file to read (a merge
//! or an include) becomes a request for it, which the caller serves in
//! order and answers with the rules of that file. Parsing stops at the
//! first bad line, after the items of the lines before it.

use vstd::prelude::*;

use super::error::{ErrV, ParseError};
use super::matching::{strip_leading_slashes, strip_leading_slashes_at};
use super::pattern::{
    glob_rules, opt_view, pattern_rules, push_glob_rules, push_pattern_rules, then_rules,
    views,
};
use super::rule::{flags_from_mods, no_flags, PerDir, PerDirV, Rule, RuleFlags, RuleV, rules_view};
use super::text::{
    chars_eq_str, chars_of, find_from, has_prefix_at, is_whitespace, is_ws, lemma_find_from,
    line_at, lines, lines_from, lines_of, push_chars, slice_chars, string_of,
    trim, trim_chars,
};
use super::token::{contains_char, split_mods_index, split_mods_spec, MergeModifier, RuleKind};
use super::util::{decode_line_chars, decode_line_spec};

verus! {

/// How deeply rule files may include one another.
pub const MAX_PARSE_DEPTH: usize = 64;

/// A file that a rule line asks to be read, with what the line said of it.
#[derive(Debug)]
pub enum Request {
    /// A `.` merge rule: the file's rules, read as its modifiers say.
    DotMerge { line: String, mods: String, file: String },
    /// A `:include-merge` rule: the file's rules.
    IncludeMerge { line: String, file: String },
    /// `include-from` (`sign` is `+`) or `exclude-from` (`-`): a list of
    /// patterns.
    RuleList { file: String, sign: char },
    /// `files-from`: a list of paths to transfer and nothing else.
    FilesFrom { file: String },
    /// `merge`: the file's rules.
    Merge { line: String, file: String },
    /// `-C` with no pattern: the default CVS ignore rules.
    CvsDefaults,
}

pub enum RequestV {
    DotMerge { line: Seq<char>, mods: Seq<char>, file: Seq<char> },
    IncludeMerge { line: Seq<char>, file: Seq<char> },
    RuleList { file: Seq<char>, sign: char },
    FilesFrom { file: Seq<char> },
    Merge { line: Seq<char>, file: Seq<char> },
    CvsDefaults,
}

impl View for Request {
    type V = RequestV;

    open spec fn view(&self) -> RequestV {
        match self {
            Request::DotMerge { line, mods, file } => RequestV::DotMerge {
                line: line@,
                mods: mods@,
                file: file@,
            },
            Request::IncludeMerge { line, file } => RequestV::IncludeMerge {
                line: line@,
                file: file@,
            },
            Request::RuleList { file, sign } => RequestV::RuleList { file: file@, sign: *sign },
            Request::FilesFrom { file } => RequestV::FilesFrom { file: file@ },
            Request::Merge { line, file } => RequestV::Merge { line: line@, file: file@ },
            Request::CvsDefaults => RequestV::CvsDefaults,
        }
    }
}

/// A rule, or a request for a file whose rules stand in its place, with
/// the nesting depth of the text it was found in.
#[derive(Debug)]
pub enum ParseItem {
    Rule(Rule),
    Request(Request, usize),
}

pub enum ItemV {
    Rule(RuleV),
    Request(RequestV, nat),
}

impl View for ParseItem {
    type V = ItemV;

    open spec fn view(&self) -> ItemV {
        match self {
            ParseItem::Rule(r) => ItemV::Rule(r@),
            ParseItem::Request(q, d) => ItemV::Request(q@, *d as nat),
        }
    }
}

/// What parsing rule text gave: the items of its lines in order, and the
/// error of the first bad line, where parsing stopped.
#[derive(Debug)]
pub struct LineScan {
    pub items: Vec<ParseItem>,
    pub error: Option<ParseError>,
}

pub struct ScanV {
    pub items: Seq<ItemV>,
    pub error: Option<ErrV>,
}

impl View for LineScan {
    type V = ScanV;

    open spec fn view(&self) -> ScanV {
        ScanV {
            items: self.items@.map_values(|i: ParseItem| i@),
            error: match self.error {
                Some(e) => Some(e@),
                None => None,
            },
        }
    }
}

pub open spec fn empty_scan() -> ScanV {
    ScanV { items: Seq::empty(), error: None }
}

pub open spec fn err_scan(e: ErrV) -> ScanV {
    ScanV { items: Seq::empty(), error: Some(e) }
}

pub open spec fn request_scan(q: RequestV, depth: nat) -> ScanV {
    ScanV { items: seq![ItemV::Request(q, depth)], error: None }
}

pub open spec fn rule_items(rs: Seq<RuleV>) -> Seq<ItemV> {
    rs.map_values(|r: RuleV| ItemV::Rule(r))
}

/// The rules of `r` as a scan, or its error.
pub open spec fn result_scan(r: Result<Seq<RuleV>, ErrV>) -> ScanV {
    match r {
        Ok(rs) => ScanV { items: rule_items(rs), error: None },
        Err(e) => err_scan(e),
    }
}

/// `a`, then `b` unless `a` stopped at an error.
pub open spec fn scan_then(a: ScanV, b: ScanV) -> ScanV {
    if a.error is Some {
        a
    } else {
        ScanV { items: a.items + b.items, error: b.error }
    }
}

pub proof fn lemma_scan_then_assoc(a: ScanV, b: ScanV, c: ScanV)
    ensures
        scan_then(scan_then(a, b), c) == scan_then(a, scan_then(b, c)),
{
    if a.error is None && b.error is None {
        assert(a.items + b.items + c.items =~= a.items + (b.items + c.items));
    }
}

pub proof fn lemma_scan_then_empty(a: ScanV)
    ensures
        a.error is None ==> scan_then(a, empty_scan()) == a,
{
    assert(a.items + Seq::<ItemV>::empty() =~= a.items);
}

/// The modifiers a rule of a pattern kind may carry.
pub open spec fn rule_mod_chars() -> Seq<char> {
    seq!['/', '!', 'C', 's', 'r', 'p', 'x']
}

/// The modifiers a merge rule may carry.
pub open spec fn merge_mod_chars() -> Seq<char> {
    seq!['-', '+', 'C', 'e', 'n', 'w', '/', '!', 's', 'r', 'p', 'x']
}

/// `m` with `c` added when it lacks it.
pub open spec fn with_mod(m: Seq<char>, c: char) -> Seq<char> {
    if m.contains(c) {
        m
    } else {
        m.push(c)
    }
}

/// The kind, modifiers and body of a line that starts with a kind letter.
pub open spec fn prefixed_head(line: Seq<char>) -> Option<(RuleKind, Seq<char>, Seq<char>)> {
    if line.len() == 0 {
        None
    } else {
        let c = line[0];
        let (m, rest) = split_mods_spec(line.skip(1), rule_mod_chars());
        if c == '+' {
            Some((RuleKind::Include, m, rest))
        } else if c == '-' {
            Some((RuleKind::Exclude, m, rest))
        } else if c == 'P' || c == 'p' {
            Some((RuleKind::Protect, with_mod(m, 'r'), rest))
        } else if c == 'S' {
            Some((RuleKind::Include, with_mod(m, 's'), rest))
        } else if c == 'H' || c == 'h' {
            Some((RuleKind::Exclude, with_mod(m, 's'), rest))
        } else if c == 'R' {
            Some((RuleKind::Include, with_mod(m, 'r'), rest))
        } else {
            None
        }
    }
}

/// A rule line `H pat` or `h pat` is read as `- pat` with the sender
/// modifier `s` added: an exclude rule with the same body and the
/// modifiers of the `-` line plus `s`.
pub proof fn lemma_hide_letter_is_sender_exclude(c: char, b: Seq<char>)
    requires
        c == 'H' || c == 'h',
    ensures
        match (prefixed_head(seq![c] + b), prefixed_head(seq!['-'] + b)) {
            (Some((k, m, r)), Some((k2, m2, r2))) => {
                &&& k == RuleKind::Exclude
                &&& k2 == RuleKind::Exclude
                &&& r == r2
                &&& m.contains('s')
                &&& forall|x: char| m.contains(x) <==> (m2.contains(x) || x == 's')
            },
            _ => false,
        },
{
    assert((seq![c] + b).skip(1) =~= b);
    assert((seq!['-'] + b).skip(1) =~= b);
    assert((seq![c] + b)[0] == c);
    assert((seq!['-'] + b)[0] == '-');
    let m2 = split_mods_spec(b, rule_mod_chars()).0;
    if !m2.contains('s') {
        assert(m2.push('s')[m2.len() as int] == 's');
        assert forall|x: char| m2.push('s').contains(x) <==> (m2.contains(x) || x == 's') by {
            if m2.push('s').contains(x) {
                let i = choose|i: int| 0 <= i < m2.push('s').len() && m2.push('s')[i] == x;
                if i < m2.len() {
                    assert(m2[i] == x);
                }
            }
            if m2.contains(x) {
                let i = choose|i: int| 0 <= i < m2.len() && m2[i] == x;
                assert(m2.push('s')[i] == x);
            }
        }
    }
}

/// Only `+`, `S` and `R` lines are include rules among the lines that
/// start with a kind letter.
pub proof fn lemma_include_letters(line: Seq<char>)
    ensures
        prefixed_head(line) matches Some((k, _, _)) && k == RuleKind::Include ==> line[0] == '+'
            || line[0] == 'S' || line[0] == 'R',
{
}

/// The first index from `i` on that holds no whitespace.
pub open spec fn skip_ws_at(s: Seq<char>, i: nat) -> nat
    decreases s.len() - i,
{
    if i < s.len() && is_ws(s[i as int]) {
        skip_ws_at(s, i + 1)
    } else {
        i
    }
}

/// The first index from `i` on that holds whitespace.
pub open spec fn word_end_at(s: Seq<char>, i: nat) -> nat
    decreases s.len() - i,
{
    if i < s.len() && !is_ws(s[i as int]) {
        word_end_at(s, i + 1)
    } else {
        i
    }
}

/// The first two whitespace-separated words of `s`, each empty when
/// missing.
pub open spec fn two_words(s: Seq<char>) -> (Seq<char>, Seq<char>) {
    let a = skip_ws_at(s, 0);
    let b = word_end_at(s, a);
    let c = skip_ws_at(s, b);
    let d = word_end_at(s, c);
    (s.subrange(a as int, b as int), s.subrange(c as int, d as int))
}

/// A merge file named after `dir-merge`.
pub open spec fn dir_merge_pd(name: Seq<char>) -> PerDirV {
    let anchored = name.len() > 0 && name[0] == '/';
    PerDirV {
        file: if anchored {
            strip_leading_slashes(name)
        } else {
            name
        },
        anchored,
        root_only: anchored,
        inherit: true,
        cvs: false,
        word_split: false,
        sign: None,
        flags: no_flags(),
    }
}

/// What the head of a line says: a pattern rule of some kind (or of none,
/// which is an error), a request for a file, or a merge file.
pub enum LineHead {
    Pattern(Option<RuleKind>, Seq<char>, Seq<char>),
    Req(RequestV),
    DirMerge(PerDirV),
}

/// The head of a line spelled with a keyword.
pub open spec fn word_head(raw: Seq<char>, line: Seq<char>) -> LineHead {
    let (t, rest) = two_words(line);
    if t == "include"@ {
        LineHead::Pattern(Some(RuleKind::Include), Seq::empty(), rest)
    } else if t == "exclude"@ {
        LineHead::Pattern(Some(RuleKind::Exclude), Seq::empty(), rest)
    } else if t == "show"@ {
        LineHead::Pattern(Some(RuleKind::Include), seq!['s'], rest)
    } else if t == "hide"@ {
        LineHead::Pattern(Some(RuleKind::Exclude), seq!['s'], rest)
    } else if t == "protect"@ {
        LineHead::Pattern(Some(RuleKind::Protect), seq!['r'], rest)
    } else if t == "risk"@ {
        LineHead::Pattern(Some(RuleKind::Include), seq!['r'], rest)
    } else if t == "include-from"@ {
        LineHead::Req(RequestV::RuleList { file: rest, sign: '+' })
    } else if t == "exclude-from"@ {
        LineHead::Req(RequestV::RuleList { file: rest, sign: '-' })
    } else if t == "files-from"@ {
        LineHead::Req(RequestV::FilesFrom { file: rest })
    } else if t == "merge"@ {
        LineHead::Req(RequestV::Merge { line: raw, file: rest })
    } else if t == "dir-merge"@ {
        LineHead::DirMerge(dir_merge_pd(rest))
    } else {
        LineHead::Pattern(None, Seq::empty(), rest)
    }
}

/// What a line of a pattern kind, or a keyword line, gives.
pub open spec fn rule_line_scan(
    raw: Seq<char>,
    line: Seq<char>,
    depth: nat,
    source: Option<Seq<char>>,
) -> ScanV {
    let head = match prefixed_head(line) {
        Some((k, m, rest)) => LineHead::Pattern(Some(k), m, rest),
        None => word_head(raw, line),
    };
    match head {
        LineHead::Req(q) => request_scan(q, depth),
        LineHead::DirMerge(pd) => result_scan(Ok(seq![RuleV::DirMerge(pd)])),
        LineHead::Pattern(kind, mods, rest) => {
            if kind == Some(RuleKind::Exclude) && mods.contains('C') && rest.len() == 0 {
                request_scan(RequestV::CvsDefaults, depth)
            } else {
                match kind {
                    None => err_scan(ErrV::InvalidRule(raw)),
                    Some(k) => if rest.len() == 0 {
                        err_scan(ErrV::InvalidRule(raw))
                    } else {
                        result_scan(pattern_rules(k, mods, rest, source))
                    },
                }
            }
        },
    }
}

/// The last `+` or `-` in `m`.
pub open spec fn last_sign(m: Seq<char>) -> Option<char>
    decreases m.len(),
{
    if m.len() == 0 {
        None
    } else if m.last() == '+' || m.last() == '-' {
        Some(m.last())
    } else {
        last_sign(m.drop_last())
    }
}

/// The merge file of a `:` rule with modifiers `m` naming `fname`.
pub open spec fn merge_pd(fname: Seq<char>, anchored: bool, m: Seq<char>) -> PerDirV {
    PerDirV {
        file: fname,
        anchored,
        root_only: anchored,
        inherit: !m.contains('n'),
        cvs: m.contains('C'),
        word_split: m.contains('w'),
        sign: last_sign(m),
        flags: flags_from_mods(m),
    }
}

pub open spec fn cvsignore_pd() -> PerDirV {
    PerDirV {
        file: ".cvsignore"@,
        anchored: false,
        root_only: false,
        inherit: true,
        cvs: true,
        word_split: false,
        sign: None,
        flags: no_flags(),
    }
}

pub open spec fn rsync_filter_pd() -> PerDirV {
    PerDirV {
        file: ".rsync-filter"@,
        anchored: true,
        root_only: false,
        inherit: true,
        cvs: false,
        word_split: false,
        sign: None,
        flags: no_flags(),
    }
}

/// The rule that keeps a merge file named `name` itself out of the
/// transfer.
pub open spec fn exclude_self(name: Seq<char>, source: Option<Seq<char>>) -> Result<
    Seq<RuleV>,
    ErrV,
> {
    glob_rules(seq![seq!['*', '*', '/'] + name], RuleKind::Exclude, false, no_flags(), source, false)
}

/// What a `:` rule with the text `r` after the colon gives.
pub open spec fn colon_rules(raw: Seq<char>, r: Seq<char>, source: Option<Seq<char>>) -> Result<
    Seq<RuleV>,
    ErrV,
> {
    let (m, file) = split_mods_spec(r, merge_mod_chars());
    if file.len() == 0 {
        if m.contains('C') {
            Ok(seq![RuleV::DirMerge(cvsignore_pd())])
        } else {
            Err(ErrV::InvalidRule(raw))
        }
    } else {
        let anchored = file[0] == '/' || m.contains('/');
        let fname = if anchored {
            strip_leading_slashes(file)
        } else {
            file
        };
        let dm = seq![RuleV::DirMerge(merge_pd(fname, anchored, m))];
        if m.contains('e') {
            then_rules(Ok(dm), exclude_self(fname, source))
        } else {
            Ok(dm)
        }
    }
}

/// Whether `line` is `-F`, `-FF`, ...: the per-directory `.rsync-filter`
/// rule, which with a second `F` also keeps those files out.
pub open spec fn is_dash_f(line: Seq<char>) -> bool {
    line.len() >= 2 && line[0] == '-' && line[1] == 'F' && forall|i: int|
        2 <= i < line.len() ==> line[i] == 'F'
}

pub open spec fn dash_f_rules(line: Seq<char>, source: Option<Seq<char>>) -> Result<
    Seq<RuleV>,
    ErrV,
> {
    let dm = seq![RuleV::DirMerge(rsync_filter_pd())];
    if line.len() > 2 {
        then_rules(
            Ok(dm),
            glob_rules(seq!["**/.rsync-filter"@], RuleKind::Exclude, false, no_flags(), source, false),
        )
    } else {
        Ok(dm)
    }
}

pub open spec fn has_prefix(s: Seq<char>, p: Seq<char>) -> bool {
    s.len() >= p.len() && s.take(p.len() as int) == p
}

/// What the rule text `input` gives, read at nesting `depth`.
pub open spec fn text_scan(input: Seq<char>, from0: bool, depth: nat, source: Option<Seq<char>>) -> ScanV
    decreases MAX_PARSE_DEPTH - depth, 2int, 0int,
{
    if depth >= MAX_PARSE_DEPTH {
        err_scan(ErrV::RecursionLimit)
    } else {
        lines_scan(lines(input), 0, from0, depth, source)
    }
}

/// What the lines `ls` give from the `i`th on.
pub open spec fn lines_scan(
    ls: Seq<Seq<char>>,
    i: nat,
    from0: bool,
    depth: nat,
    source: Option<Seq<char>>,
) -> ScanV
    decreases MAX_PARSE_DEPTH - depth, 1int, ls.len() - i,
{
    if i >= ls.len() {
        empty_scan()
    } else {
        match decode_line_spec(ls[i as int]) {
            None => lines_scan(ls, i + 1, from0, depth, source),
            Some(line) => scan_then(
                line_scan(ls[i as int], line, from0, depth, source),
                lines_scan(ls, i + 1, from0, depth, source),
            ),
        }
    }
}

/// What one line gives; `raw` is the line as written, `line` as decoded.
pub open spec fn line_scan(
    raw: Seq<char>,
    line: Seq<char>,
    from0: bool,
    depth: nat,
    source: Option<Seq<char>>,
) -> ScanV
    decreases MAX_PARSE_DEPTH - depth, 0int, 0int,
{
    if line == "!"@ || line == "c"@ {
        result_scan(Ok(seq![RuleV::Clear]))
    } else if line == "existing"@ {
        result_scan(Ok(seq![RuleV::Existing]))
    } else if line == "no-existing"@ {
        result_scan(Ok(seq![RuleV::NoExisting]))
    } else if line == "prune-empty-dirs"@ {
        result_scan(Ok(seq![RuleV::PruneEmptyDirs]))
    } else if line == "no-prune-empty-dirs"@ {
        result_scan(Ok(seq![RuleV::NoPruneEmptyDirs]))
    } else if is_dash_f(line) {
        result_scan(dash_f_rules(line, source))
    } else if line.len() > 0 && line[0] == '.' {
        let (m, file) = split_mods_spec(line.skip(1), merge_mod_chars());
        if file.len() == 0 {
            err_scan(ErrV::InvalidRule(raw))
        } else {
            request_scan(RequestV::DotMerge { line: raw, mods: m, file }, depth)
        }
    } else if line.len() > 0 && line[0] == 'd' {
        if depth + 1 >= MAX_PARSE_DEPTH {
            err_scan(ErrV::RecursionLimit)
        } else {
            text_scan(seq![':'] + line.skip(1) + seq!['\n'], from0, depth + 1, source)
        }
    } else if has_prefix(line, ":include-merge"@) {
        let file = trim(line.skip(":include-merge"@.len() as int));
        if file.len() == 0 {
            err_scan(ErrV::InvalidRule(raw))
        } else {
            request_scan(RequestV::IncludeMerge { line: raw, file }, depth)
        }
    } else if line.len() > 0 && line[0] == ':' {
        result_scan(colon_rules(raw, line.skip(1), source))
    } else {
        rule_line_scan(raw, line, depth, source)
    }
}

pub proof fn lemma_contains_push(s: Seq<char>, c: char, x: char)
    ensures
        s.push(c).contains(x) <==> (s.contains(x) || c == x),
{
    if s.contains(x) {
        let j = choose|j: int| 0 <= j < s.len() && s[j] == x;
        assert(s.push(c)[j] == x);
    }
    if c == x {
        assert(s.push(c)[s.len() as int] == x);
    }
    if s.push(c).contains(x) {
        let j = choose|j: int| 0 <= j < s.push(c).len() && s.push(c)[j] == x;
        if j < s.len() {
            assert(s[j] == x);
        }
    }
}

fn push_item(out: &mut LineScan, item: ParseItem)
    ensures
        final(out)@ == (ScanV { items: old(out)@.items.push(item@), error: old(out)@.error }),
{
    let ghost before = out@;
    let ghost iv = item@;
    out.items.push(item);
    assert(out@.items =~= before.items.push(iv));
}

pub(crate) fn push_rules(out: &mut LineScan, rules: Vec<Rule>)
    ensures
        final(out)@ == (ScanV {
            items: old(out)@.items + rule_items(rules_view(rules@)),
            error: old(out)@.error,
        }),
{
    let ghost orig = rules@;
    let ghost before = out@;
    let mut rules = rules;
    let mut k: usize = 0;
    assert(orig.len() == rules.len());
    assert(rule_items(rules_view(orig.take(0))) =~= Seq::<ItemV>::empty());
    assert(before.items + Seq::<ItemV>::empty() =~= before.items);
    while rules.len() > 0
        invariant
            k + rules@.len() == orig.len(),
            orig.len() <= usize::MAX,
            rules@ == orig.skip(k as int),
            out@ == (ScanV {
                items: before.items + rule_items(rules_view(orig.take(k as int))),
                error: before.error,
            }),
        decreases rules@.len(),
    {
        let r = rules.remove(0);
        proof {
            assert(r == orig[k as int]);
            assert(rules@ =~= orig.skip(k + 1));
        }
        let ghost mid = out@;
        push_item(out, ParseItem::Rule(r));
        proof {
            assert(orig.take(k + 1) =~= orig.take(k as int).push(orig[k as int]));
            assert(rule_items(rules_view(orig.take(k + 1))) =~= rule_items(
                rules_view(orig.take(k as int)),
            ).push(ItemV::Rule(orig[k as int]@)));
            assert(out@.items =~= before.items + rule_items(rules_view(orig.take(k + 1))));
        }
        k = k + 1;
    }
    assert(orig.take(k as int) =~= orig);
}

/// Records the rules of `rules`, or the error of `r`.
pub(crate) fn finish_rules(out: &mut LineScan, r: Result<(), ParseError>, rules: Vec<Rule>)
    requires
        old(out)@.error is None,
    ensures
        r is Ok ==> final(out)@ == scan_then(old(out)@, result_scan(Ok(rules_view(rules@)))),
        r is Err ==> final(out)@ == scan_then(old(out)@, err_scan(r->Err_0@)),
{
    match r {
        Ok(()) => {
            push_rules(out, rules);
        },
        Err(e) => {
            let ghost before = out@;
            out.error = Some(e);
            assert(out@.items =~= before.items + Seq::<ItemV>::empty());
        },
    }
}

pub(crate) fn set_error(out: &mut LineScan, e: ParseError)
    requires
        old(out)@.error is None,
    ensures
        final(out)@ == scan_then(old(out)@, err_scan(e@)),
{
    let ghost before = out@;
    let ghost ev = e@;
    out.error = Some(e);
    assert(out@.items =~= before.items + Seq::<ItemV>::empty());
}

pub(crate) fn push_request(out: &mut LineScan, q: Request, depth: usize)
    requires
        old(out)@.error is None,
    ensures
        final(out)@ == scan_then(old(out)@, request_scan(q@, depth as nat)),
{
    let ghost before = out@;
    let ghost qv = q@;
    push_item(out, ParseItem::Request(q, depth));
    assert(before.items.push(ItemV::Request(qv, depth as nat)) =~= before.items + seq![
        ItemV::Request(qv, depth as nat),
    ]);
}

fn push_one_rule(out: &mut LineScan, r: Rule)
    requires
        old(out)@.error is None,
    ensures
        final(out)@ == scan_then(old(out)@, result_scan(Ok(seq![r@]))),
{
    let ghost before = out@;
    let ghost rv = r@;
    push_item(out, ParseItem::Rule(r));
    assert(rule_items(seq![rv]) =~= seq![ItemV::Rule(rv)]);
    assert(before.items.push(ItemV::Rule(rv)) =~= before.items + rule_items(seq![rv]));
}

fn rule_mods_vec() -> (r: Vec<char>)
    ensures
        r@ == rule_mod_chars(),
{
    let r = vec!['/', '!', 'C', 's', 'r', 'p', 'x'];
    assert(r@ =~= rule_mod_chars());
    r
}

fn merge_mods_vec() -> (r: Vec<char>)
    ensures
        r@ == merge_mod_chars(),
{
    let r = vec!['-', '+', 'C', 'e', 'n', 'w', '/', '!', 's', 'r', 'p', 'x'];
    assert(r@ =~= merge_mod_chars());
    r
}

/// The modifiers and the rest of `s`, split as `split_mods_spec` says.
fn split_mods_chars(s: &[char], allowed: &[char]) -> (r: (Vec<char>, Vec<char>))
    ensures
        r.0@ == split_mods_spec(s@, allowed@).0,
        r.1@ == split_mods_spec(s@, allowed@).1,
{
    let (m, rest) = split_mods_index(s, allowed);
    let a = slice_chars(s, 0, m);
    let b = slice_chars(s, rest, s.len());
    assert(a@ =~= s@.take(m as int));
    assert(b@ =~= s@.skip(rest as int));
    (a, b)
}

fn with_mod_exec(m: Vec<char>, c: char) -> (r: Vec<char>)
    ensures
        r@ == with_mod(m@, c),
{
    if contains_char(&m, c) {
        m
    } else {
        let mut m = m;
        m.push(c);
        m
    }
}

fn skip_ws_at_exec(s: &[char], i: usize) -> (r: usize)
    requires
        i <= s@.len(),
    ensures
        r == skip_ws_at(s@, i as nat),
        i <= r <= s@.len(),
{
    let mut j = i;
    while j < s.len() && is_whitespace(s[j])
        invariant
            i <= j <= s@.len(),
            skip_ws_at(s@, j as nat) == skip_ws_at(s@, i as nat),
        decreases s@.len() - j,
    {
        j = j + 1;
    }
    j
}

fn word_end_at_exec(s: &[char], i: usize) -> (r: usize)
    requires
        i <= s@.len(),
    ensures
        r == word_end_at(s@, i as nat),
        i <= r <= s@.len(),
{
    let mut j = i;
    while j < s.len() && !is_whitespace(s[j])
        invariant
            i <= j <= s@.len(),
            word_end_at(s@, j as nat) == word_end_at(s@, i as nat),
        decreases s@.len() - j,
    {
        j = j + 1;
    }
    j
}

fn two_words_exec(s: &[char]) -> (r: (Vec<char>, Vec<char>))
    ensures
        r.0@ == two_words(s@).0,
        r.1@ == two_words(s@).1,
{
    let a = skip_ws_at_exec(s, 0);
    let b = word_end_at_exec(s, a);
    let c = skip_ws_at_exec(s, b);
    let d = word_end_at_exec(s, c);
    (slice_chars(s, a, b), slice_chars(s, c, d))
}

fn strip_leading_slashes_vec(s: &[char]) -> (r: Vec<char>)
    ensures
        r@ == strip_leading_slashes(s@),
{
    let a = strip_leading_slashes_at(s, 0);
    assert(s@.skip(0) =~= s@);
    let r = slice_chars(s, a, s.len());
    assert(r@ =~= s@.skip(a as int));
    r
}

fn dir_merge_pd_exec(name: &[char]) -> (r: PerDir)
    ensures
        r@ == dir_merge_pd(name@),
{
    let anchored = name.len() > 0 && name[0] == '/';
    let file = if anchored {
        strip_leading_slashes_vec(name)
    } else {
        slice_chars(name, 0, name.len())
    };
    assert(name@.subrange(0, name@.len() as int) =~= name@);
    PerDir {
        file: string_of(&file),
        anchored,
        root_only: anchored,
        inherit: true,
        cvs: false,
        word_split: false,
        sign: None,
        flags: RuleFlags::none(),
    }
}

fn cvsignore_pd_exec() -> (r: PerDir)
    ensures
        r@ == cvsignore_pd(),
{
    let file = ".cvsignore".to_string();
    PerDir {
        file,
        anchored: false,
        root_only: false,
        inherit: true,
        cvs: true,
        word_split: false,
        sign: None,
        flags: RuleFlags::none(),
    }
}

fn rsync_filter_pd_exec() -> (r: PerDir)
    ensures
        r@ == rsync_filter_pd(),
{
    let file = ".rsync-filter".to_string();
    PerDir {
        file,
        anchored: true,
        root_only: false,
        inherit: true,
        cvs: false,
        word_split: false,
        sign: None,
        flags: RuleFlags::none(),
    }
}

/// The merge file of a `:` rule, with whether the rule also excludes it.
fn merge_pd_exec(fname: &[char], anchored: bool, m: &[char]) -> (r: (PerDir, bool))
    ensures
        r.0@ == merge_pd(fname@, anchored, m@),
        r.1 == m@.contains('e'),
{
    let mut pd = PerDir {
        file: string_of(fname),
        anchored,
        root_only: anchored,
        inherit: true,
        cvs: false,
        word_split: false,
        sign: None,
        flags: RuleFlags::from_mod_chars(m),
    };
    let mut exclude = false;
    let mut i: usize = 0;
    assert(m@.take(0) =~= Seq::<char>::empty());
    while i < m.len()
        invariant
            i <= m@.len(),
            pd@ == (PerDirV {
                file: fname@,
                anchored,
                root_only: anchored,
                inherit: !m@.take(i as int).contains('n'),
                cvs: m@.take(i as int).contains('C'),
                word_split: m@.take(i as int).contains('w'),
                sign: last_sign(m@.take(i as int)),
                flags: flags_from_mods(m@),
            }),
            exclude == m@.take(i as int).contains('e'),
        decreases m@.len() - i,
    {
        let c = m[i];
        if c == '+' {
            MergeModifier::IncludeOnly.apply(&mut pd);
        } else if c == '-' {
            MergeModifier::ExcludeOnly.apply(&mut pd);
        } else if c == 'n' {
            MergeModifier::NoInherit.apply(&mut pd);
        } else if c == 'w' {
            MergeModifier::WordSplit.apply(&mut pd);
        } else if c == 'C' {
            MergeModifier::CvsMode.apply(&mut pd);
        } else if c == 'e' {
            exclude = true;
        }
        proof {
            let t = m@.take(i as int);
            assert(m@.take(i + 1) =~= t.push(c));
            assert(m@.take(i + 1).drop_last() =~= t);
            lemma_contains_push(t, c, 'n');
            lemma_contains_push(t, c, 'C');
            lemma_contains_push(t, c, 'w');
            lemma_contains_push(t, c, 'e');
        }
        i = i + 1;
    }
    assert(m@.take(m@.len() as int) =~= m@);
    (pd, exclude)
}

/// Appends the rule that keeps a merge file named `name` out.
pub(crate) fn push_exclude_self(name: &[char], source: &Option<String>, rules: &mut Vec<Rule>) -> (r: Result<
    (),
    ParseError,
>)
    ensures
        match exclude_self(name@, opt_view(*source)) {
            Ok(rs) => r is Ok && rules_view(final(rules)@) == rules_view(old(rules)@) + rs,
            Err(e) => r matches Err(x) && x@ == e,
        },
{
    let mut pat: Vec<char> = Vec::new();
    pat.push('*');
    pat.push('*');
    pat.push('/');
    push_chars(&mut pat, name);
    assert(pat@ =~= seq!['*', '*', '/'] + name@);
    let mut xs: Vec<Vec<char>> = Vec::new();
    xs.push(pat);
    proof {
        assert(views(xs@) =~= seq![seq!['*', '*', '/'] + name@]);
    }
    push_glob_rules(&xs, RuleKind::Exclude, false, RuleFlags::none(), source, false, rules)
}

fn colon_exec(raw: &[char], r: &[char], source: &Option<String>, rules: &mut Vec<Rule>) -> (res:
    Result<(), ParseError>)
    requires
        old(rules)@.len() == 0,
    ensures
        match colon_rules(raw@, r@, opt_view(*source)) {
            Ok(rs) => res is Ok && rules_view(final(rules)@) == rs,
            Err(e) => res matches Err(x) && x@ == e,
        },
{
    let allowed = merge_mods_vec();
    let (m, file) = split_mods_chars(r, &allowed);
    if file.len() == 0 {
        if contains_char(&m, 'C') {
            rules.push(Rule::DirMerge(cvsignore_pd_exec()));
            assert(rules_view(rules@) =~= seq![RuleV::DirMerge(cvsignore_pd())]);
            return Ok(());
        } else {
            return Err(ParseError::InvalidRule(string_of(raw)));
        }
    }
    let anchored = file[0] == '/' || contains_char(&m, '/');
    let fname = if anchored {
        strip_leading_slashes_vec(&file)
    } else {
        file
    };
    let (pd, exclude) = merge_pd_exec(&fname, anchored, &m);
    let ghost dm = seq![RuleV::DirMerge(pd@)];
    rules.push(Rule::DirMerge(pd));
    assert(rules_view(rules@) =~= dm);
    if exclude {
        let res = push_exclude_self(&fname, source, rules);
        proof {
            if let Ok(x) = exclude_self(fname@, opt_view(*source)) {
                assert(rules_view(rules@) == dm + x);
            }
        }
        res
    } else {
        Ok(())
    }
}

fn is_dash_f_exec(line: &[char]) -> (r: bool)
    ensures
        r == is_dash_f(line@),
{
    if line.len() < 2 || line[0] != '-' || line[1] != 'F' {
        return false;
    }
    let mut i: usize = 2;
    while i < line.len()
        invariant
            2 <= i <= line@.len(),
            forall|j: int| 2 <= j < i ==> line@[j] == 'F',
        decreases line@.len() - i,
    {
        if line[i] != 'F' {
            return false;
        }
        i = i + 1;
    }
    true
}

fn dash_f_exec(line: &[char], source: &Option<String>, rules: &mut Vec<Rule>) -> (res: Result<
    (),
    ParseError,
>)
    requires
        old(rules)@.len() == 0,
    ensures
        match dash_f_rules(line@, opt_view(*source)) {
            Ok(rs) => res is Ok && rules_view(final(rules)@) == rs,
            Err(e) => res matches Err(x) && x@ == e,
        },
{
    rules.push(Rule::DirMerge(rsync_filter_pd_exec()));
    let ghost dm = seq![RuleV::DirMerge(rsync_filter_pd())];
    assert(rules_view(rules@) =~= dm);
    if line.len() > 2 {
        let pat = chars_of("**/.rsync-filter");
        let mut xs: Vec<Vec<char>> = Vec::new();
        xs.push(pat);
        assert(views(xs@) =~= seq!["**/.rsync-filter"@]);
        let res = push_glob_rules(&xs, RuleKind::Exclude, false, RuleFlags::none(), source, false, rules);
        proof {
            if let Ok(x) = glob_rules(seq!["**/.rsync-filter"@], RuleKind::Exclude, false, no_flags(), opt_view(*source), false) {
                assert(rules_view(rules@) == dm + x);
            }
        }
        res
    } else {
        Ok(())
    }
}

/// The items of a line of a pattern kind, or of a keyword line.
fn rule_line_exec(
    raw: &[char],
    line: &[char],
    depth: usize,
    source: &Option<String>,
    out: &mut LineScan,
)
    requires
        old(out)@.error is None,
    ensures
        final(out)@ == scan_then(
            old(out)@,
            rule_line_scan(raw@, line@, depth as nat, opt_view(*source)),
        ),
{
    let ghost src = opt_view(*source);
    let mut kind: Option<RuleKind> = None;
    let mut mods: Vec<char> = Vec::new();
    let mut rest: Vec<char> = Vec::new();
    let c = if line.len() > 0 {
        line[0]
    } else {
        ' '
    };
    if line.len() > 0 && (c == '+' || c == '-' || c == 'P' || c == 'p' || c == 'S' || c == 'H'
        || c == 'h' || c == 'R') {
        let r = slice_chars(line, 1, line.len());
        assert(r@ =~= line@.skip(1));
        let allowed = rule_mods_vec();
        let (m, body) = split_mods_chars(&r, &allowed);
        rest = body;
        if c == '+' {
            kind = Some(RuleKind::Include);
            mods = m;
        } else if c == '-' {
            kind = Some(RuleKind::Exclude);
            mods = m;
        } else if c == 'P' || c == 'p' {
            kind = Some(RuleKind::Protect);
            mods = with_mod_exec(m, 'r');
        } else if c == 'S' {
            kind = Some(RuleKind::Include);
            mods = with_mod_exec(m, 's');
        } else if c == 'H' || c == 'h' {
            kind = Some(RuleKind::Exclude);
            mods = with_mod_exec(m, 's');
        } else {
            kind = Some(RuleKind::Include);
            mods = with_mod_exec(m, 'r');
        }
        assert(prefixed_head(line@) == Some((kind->Some_0, mods@, rest@)));
    } else {
        assert(prefixed_head(line@) is None);
        let (t, second) = two_words_exec(line);
        if chars_eq_str(&t, "include") {
            kind = Some(RuleKind::Include);
        } else if chars_eq_str(&t, "exclude") {
            kind = Some(RuleKind::Exclude);
        } else if chars_eq_str(&t, "show") {
            kind = Some(RuleKind::Include);
            mods.push('s');
        } else if chars_eq_str(&t, "hide") {
            kind = Some(RuleKind::Exclude);
            mods.push('s');
        } else if chars_eq_str(&t, "protect") {
            kind = Some(RuleKind::Protect);
            mods.push('r');
        } else if chars_eq_str(&t, "risk") {
            kind = Some(RuleKind::Include);
            mods.push('r');
        } else if chars_eq_str(&t, "include-from") {
            push_request(out, Request::RuleList { file: string_of(&second), sign: '+' }, depth);
            return;
        } else if chars_eq_str(&t, "exclude-from") {
            push_request(out, Request::RuleList { file: string_of(&second), sign: '-' }, depth);
            return;
        } else if chars_eq_str(&t, "files-from") {
            push_request(out, Request::FilesFrom { file: string_of(&second) }, depth);
            return;
        } else if chars_eq_str(&t, "merge") {
            push_request(out, Request::Merge { line: string_of(raw), file: string_of(&second) }, depth);
            return;
        } else if chars_eq_str(&t, "dir-merge") {
            let pd = dir_merge_pd_exec(&second);
            push_one_rule(out, Rule::DirMerge(pd));
            return;
        }
        rest = second;
        proof {
            if mods@.len() == 1 {
                assert(mods@ =~= seq![mods@[0]]);
            } else {
                assert(mods@ =~= Seq::<char>::empty());
            }
            assert(word_head(raw@, line@) == LineHead::Pattern(kind, mods@, rest@));
        }
    }
    if matches!(kind, Some(RuleKind::Exclude)) && contains_char(&mods, 'C') && rest.len() == 0 {
        push_request(out, Request::CvsDefaults, depth);
        return;
    }
    match kind {
        None => {
            set_error(out, ParseError::InvalidRule(string_of(raw)));
        },
        Some(k) => {
            if rest.len() == 0 {
                set_error(out, ParseError::InvalidRule(string_of(raw)));
            } else {
                let mut rules: Vec<Rule> = Vec::new();
                let r = push_pattern_rules(k, &mods, &rest, source, &mut rules);
                proof {
                    assert(rules_view(Seq::<Rule>::empty()) =~= Seq::<RuleV>::empty());
                    if let Ok(rs) = pattern_rules(k, mods@, rest@, src) {
                        assert(rules_view(rules@) =~= rs);
                    }
                }
                finish_rules(out, r, rules);
            }
        },
    }
}

/// Appends to `out` what the line `raw`, decoded as `line`, gives (see
/// `line_scan`).
fn scan_line(
    raw: &[char],
    line: &[char],
    from0: bool,
    depth: usize,
    source: &Option<String>,
    out: &mut LineScan,
)
    requires
        depth < MAX_PARSE_DEPTH,
        old(out)@.error is None,
    ensures
        final(out)@ == scan_then(
            old(out)@,
            line_scan(raw@, line@, from0, depth as nat, opt_view(*source)),
        ),
    decreases MAX_PARSE_DEPTH - depth, 0int,
{
    let ghost src = opt_view(*source);
    if chars_eq_str(line, "!") || chars_eq_str(line, "c") {
        push_one_rule(out, Rule::Clear);
    } else if chars_eq_str(line, "existing") {
        push_one_rule(out, Rule::Existing);
    } else if chars_eq_str(line, "no-existing") {
        push_one_rule(out, Rule::NoExisting);
    } else if chars_eq_str(line, "prune-empty-dirs") {
        push_one_rule(out, Rule::PruneEmptyDirs);
    } else if chars_eq_str(line, "no-prune-empty-dirs") {
        push_one_rule(out, Rule::NoPruneEmptyDirs);
    } else if is_dash_f_exec(line) {
        let mut rules: Vec<Rule> = Vec::new();
        let r = dash_f_exec(line, source, &mut rules);
        finish_rules(out, r, rules);
    } else if line.len() > 0 && line[0] == '.' {
        let r = slice_chars(line, 1, line.len());
        assert(r@ =~= line@.skip(1));
        let allowed = merge_mods_vec();
        let (m, file) = split_mods_chars(&r, &allowed);
        if file.len() == 0 {
            set_error(out, ParseError::InvalidRule(string_of(raw)));
        } else {
            push_request(
                out,
                Request::DotMerge { line: string_of(raw), mods: string_of(&m), file: string_of(&file) },
                depth,
            );
        }
    } else if line.len() > 0 && line[0] == 'd' {
        if depth + 1 >= MAX_PARSE_DEPTH {
            set_error(out, ParseError::RecursionLimit);
        } else {
            let mut t: Vec<char> = Vec::new();
            t.push(':');
            let r = slice_chars(line, 1, line.len());
            push_chars(&mut t, &r);
            t.push('\n');
            assert(t@ =~= seq![':'] + line@.skip(1) + seq!['\n']);
            scan_text(&t, from0, depth + 1, source, out);
        }
    } else if has_include_merge(line) {
        let p = chars_of(":include-merge");
        let r = slice_chars(line, p.len(), line.len());
        assert(r@ =~= line@.skip(":include-merge"@.len() as int));
        let file = trim_chars(&r);
        if file.len() == 0 {
            set_error(out, ParseError::InvalidRule(string_of(raw)));
        } else {
            push_request(out, Request::IncludeMerge { line: string_of(raw), file: string_of(&file) }, depth);
        }
    } else if line.len() > 0 && line[0] == ':' {
        let r = slice_chars(line, 1, line.len());
        assert(r@ =~= line@.skip(1));
        let mut rules: Vec<Rule> = Vec::new();
        assert(rules_view(rules@) =~= Seq::<RuleV>::empty());
        let res = colon_exec(raw, &r, source, &mut rules);
        finish_rules(out, res, rules);
    } else {
        rule_line_exec(raw, line, depth, source, out);
    }
}

fn has_include_merge(line: &[char]) -> (r: bool)
    ensures
        r == has_prefix(line@, ":include-merge"@),
{
    let p = chars_of(":include-merge");
    assert(line@.skip(0) =~= line@);
    has_prefix_at(line, 0, &p)
}

/// Appends to `out` what the rule text `input` gives at nesting `depth`
/// (see `text_scan`).
pub fn scan_text(
    input: &[char],
    from0: bool,
    depth: usize,
    source: &Option<String>,
    out: &mut LineScan,
)
    requires
        old(out)@.error is None,
    ensures
        final(out)@ == scan_then(
            old(out)@,
            text_scan(input@, from0, depth as nat, opt_view(*source)),
        ),
    decreases MAX_PARSE_DEPTH - depth, 1int,
{
    let ghost src = opt_view(*source);
    if depth >= MAX_PARSE_DEPTH {
        set_error(out, ParseError::RecursionLimit);
        return;
    }
    let ls = lines_of(input);
    let ghost lsv = views(ls@);
    let ghost start = out@;
    proof {
        assert(lsv == lines(input@));
        lemma_scan_then_empty(out@);
    }
    let mut i: usize = 0;
    while i < ls.len()
        invariant
            i <= ls@.len(),
            depth < MAX_PARSE_DEPTH,
            lsv == views(ls@),
            lsv == lines(input@),
            start == old(out)@,
            src == opt_view(*source),
            out@.error is None,
            scan_then(out@, lines_scan(lsv, i as nat, from0, depth as nat, src)) == scan_then(
                start,
                lines_scan(lsv, 0, from0, depth as nat, src),
            ),
        decreases ls@.len() - i,
    {
        proof {
            assert(lsv[i as int] == ls@[i as int]@);
        }
        match decode_line_chars(ls[i].as_slice()) {
            None => {},
            Some(line) => {
                let ghost before = out@;
                scan_line(ls[i].as_slice(), &line, from0, depth, source, out);
                proof {
                    assert(lines_scan(lsv, i as nat, from0, depth as nat, src) == scan_then(
                        line_scan(lsv[i as int], line@, from0, depth as nat, src),
                        lines_scan(lsv, (i + 1) as nat, from0, depth as nat, src),
                    ));
                    lemma_scan_then_assoc(
                        before,
                        line_scan(lsv[i as int], line@, from0, depth as nat, src),
                        lines_scan(lsv, (i + 1) as nat, from0, depth as nat, src),
                    );
                }
                if out.error.is_some() {
                    return;
                }
            },
        }
        i = i + 1;
    }
    proof {
        lemma_scan_then_empty(out@);
    }
}

/// What the rule text `input` gives, read at nesting `depth` with
/// `source` as the file it came from: the items of its lines in order,
/// and the error of the first bad line, where reading stopped. Joined texts
/// parse as their parts do: see `lemma_parse_text_concat`.
pub fn parse_text(input: &str, from0: bool, depth: usize, source: &Option<String>) -> (r: LineScan)
    ensures
        r@ == text_scan(input@, from0, depth as nat, opt_view(*source)),
{
    let c = chars_of(input);
    let mut out = LineScan { items: Vec::new(), error: None };
    assert(out@.items =~= Seq::<ItemV>::empty());
    scan_text(&c, from0, depth, source, &mut out);
    proof {
        let t = text_scan(input@, from0, depth as nat, opt_view(*source));
        assert(Seq::<ItemV>::empty() + t.items =~= t.items);
    }
    out
}

/// The concatenation law of `parse_text`: two rule texts joined, the first
/// ending its last line, parse without error exactly when each does, and
/// then give the items (rules and file requests) of the first followed by
/// those of the second. With an error, the joined text gives what the first
/// gives when the first fails, and otherwise the first's items followed by
/// what the second gives (`lemma_text_scan_concat`).
pub proof fn lemma_parse_text_concat(
    a: Seq<char>,
    b: Seq<char>,
    from0: bool,
    depth: nat,
    source: Option<Seq<char>>,
)
    requires
        a.len() == 0 || a.last() == '\n',
    ensures
        text_scan(a + b, from0, depth, source).error is None <==> (text_scan(
            a,
            from0,
            depth,
            source,
        ).error is None && text_scan(b, from0, depth, source).error is None),
        text_scan(a + b, from0, depth, source).error is None ==> text_scan(
            a + b,
            from0,
            depth,
            source,
        ).items == text_scan(a, from0, depth, source).items + text_scan(
            b,
            from0,
            depth,
            source,
        ).items,
{
    lemma_text_scan_concat(a, b, from0, depth, source);
}

proof fn lemma_find_from_shift(a: Seq<char>, b: Seq<char>, c: char, i: nat)
    requires
        i <= b.len(),
    ensures
        find_from(a + b, c, a.len() + i) == a.len() + find_from(b, c, i),
    decreases b.len() - i,
{
    let s = a + b;
    if i < b.len() {
        assert(s[(a.len() + i) as int] == b[i as int]);
        if b[i as int] != c {
            lemma_find_from_shift(a, b, c, i + 1);
            assert(a.len() + i + 1 == a.len() + (i + 1));
        }
    }
}

proof fn lemma_lines_from_shift(a: Seq<char>, b: Seq<char>, i: nat)
    requires
        i <= b.len(),
    ensures
        lines_from(a + b, a.len() + i) == lines_from(b, i),
    decreases b.len() - i,
{
    let s = a + b;
    if i < b.len() {
        lemma_find_from_shift(a, b, '\n', i);
        lemma_find_from(b, '\n', i);
        let e = find_from(b, '\n', i);
        assert(line_at(s, a.len() + i, a.len() + e) =~= line_at(b, i, e)) by {
            assert(s.subrange((a.len() + i) as int, (a.len() + e) as int) =~= b.subrange(i as int, e as int));
        }
        if e < b.len() {
            lemma_lines_from_shift(a, b, e + 1);
            assert(a.len() + e + 1 == a.len() + (e + 1));
        }
    }
}

proof fn lemma_find_from_prefix(a: Seq<char>, b: Seq<char>, c: char, i: nat)
    requires
        i < a.len(),
        a.last() == c,
    ensures
        find_from(a + b, c, i) == find_from(a, c, i),
        find_from(a, c, i) < a.len(),
    decreases a.len() - i,
{
    let s = a + b;
    assert(s[i as int] == a[i as int]);
    if a[i as int] != c {
        lemma_find_from_prefix(a, b, c, i + 1);
    }
}

proof fn lemma_lines_from_prefix(a: Seq<char>, b: Seq<char>, i: nat)
    requires
        i <= a.len(),
        a.len() > 0,
        a.last() == '\n',
    ensures
        lines_from(a + b, i) == lines_from(a, i) + lines(b),
    decreases a.len() - i,
{
    let s = a + b;
    if i == a.len() {
        lemma_lines_from_shift(a, b, 0);
        assert(a.len() + 0 == a.len());
        assert(lines_from(a, i) =~= Seq::<Seq<char>>::empty());
        assert(Seq::<Seq<char>>::empty() + lines(b) =~= lines(b));
    } else {
        lemma_find_from_prefix(a, b, '\n', i);
        lemma_find_from(a, '\n', i);
        let e = find_from(a, '\n', i);
        assert(line_at(s, i, e) =~= line_at(a, i, e)) by {
            assert(s.subrange(i as int, e as int) =~= a.subrange(i as int, e as int));
        }
        lemma_lines_from_prefix(a, b, e + 1);
        assert(seq![line_at(a, i, e)] + lines_from(a, e + 1) + lines(b) =~= seq![line_at(a, i, e)]
            + (lines_from(a, e + 1) + lines(b)));
    }
}

proof fn lemma_lines_scan_shift(
    l1: Seq<Seq<char>>,
    l2: Seq<Seq<char>>,
    j: nat,
    from0: bool,
    depth: nat,
    source: Option<Seq<char>>,
)
    requires
        j <= l2.len(),
    ensures
        lines_scan(l1 + l2, l1.len() + j, from0, depth, source) == lines_scan(l2, j, from0, depth, source),
    decreases l2.len() - j,
{
    if j < l2.len() {
        assert((l1 + l2)[(l1.len() + j) as int] == l2[j as int]);
        lemma_lines_scan_shift(l1, l2, j + 1, from0, depth, source);
        assert(l1.len() + j + 1 == l1.len() + (j + 1));
    }
}

proof fn lemma_lines_scan_concat(
    l1: Seq<Seq<char>>,
    l2: Seq<Seq<char>>,
    i: nat,
    from0: bool,
    depth: nat,
    source: Option<Seq<char>>,
)
    requires
        i <= l1.len(),
    ensures
        lines_scan(l1 + l2, i, from0, depth, source) == scan_then(
            lines_scan(l1, i, from0, depth, source),
            lines_scan(l2, 0, from0, depth, source),
        ),
    decreases l1.len() - i,
{
    let l = l1 + l2;
    let rest2 = lines_scan(l2, 0, from0, depth, source);
    if i == l1.len() {
        lemma_lines_scan_shift(l1, l2, 0, from0, depth, source);
        assert(l1.len() + 0 == l1.len());
        assert(Seq::<ItemV>::empty() + rest2.items =~= rest2.items);
    } else {
        assert(l[i as int] == l1[i as int]);
        lemma_lines_scan_concat(l1, l2, i + 1, from0, depth, source);
        match decode_line_spec(l1[i as int]) {
            None => {},
            Some(line) => {
                lemma_scan_then_assoc(
                    line_scan(l1[i as int], line, from0, depth, source),
                    lines_scan(l1, i + 1, from0, depth, source),
                    rest2,
                );
            },
        }
    }
}

/// Rule text is read line by line: two texts joined, the first ending its
/// last line, give what the first gives and then, unless it stopped at an
/// error, what the second gives.
pub proof fn lemma_text_scan_concat(
    a: Seq<char>,
    b: Seq<char>,
    from0: bool,
    depth: nat,
    source: Option<Seq<char>>,
)
    requires
        a.len() == 0 || a.last() == '\n',
    ensures
        text_scan(a + b, from0, depth, source) == scan_then(
            text_scan(a, from0, depth, source),
            text_scan(b, from0, depth, source),
        ),
{
    if depth < MAX_PARSE_DEPTH {
        if a.len() == 0 {
            assert(a + b =~= b);
            assert(lines(a) =~= Seq::<Seq<char>>::empty());
            let x = text_scan(b, from0, depth, source);
            assert(Seq::<ItemV>::empty() + x.items =~= x.items);
        } else {
            lemma_lines_from_prefix(a, b, 0);
            lemma_lines_scan_concat(lines(a), lines(b), 0, from0, depth, source);
        }
    }
}

} // verus!
