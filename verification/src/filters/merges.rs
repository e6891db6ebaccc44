//! What a merged rule file's contents become before they are parsed: the
//! text a `.` merge rule's modifiers make of them, the flags the merged
//! rules take on, and the CVS ignore lists written as rules.

use vstd::prelude::*;

use super::error::ParseError;
use super::pattern::{opt_view, views};
use super::rule::{
    flags_from_mods, flags_union, rules_view, DataV, PerDir, PerDirV, Rule, RuleFlags, RuleV,
};
use super::scan::{exclude_self, push_exclude_self, with_mod};
use super::text::{chars_of, is_ws, is_whitespace, lines, lines_of, push_chars, slice_chars, string_of, trim, trim_chars};
use super::token::{contains_char, lemma_mods_end, mods_end};
use super::util::{
    decode_text, split_parts, strings_view, trim_newlines, trim_newlines_spec, lossy_text,
};

verus! {

/// Whether `c` is ASCII whitespace, as `str::split_ascii_whitespace` has it.
pub open spec fn is_ascii_ws(c: char) -> bool {
    c == ' ' || c == '\t' || c == '\n' || c == '\u{c}' || c == '\r'
}

pub open spec fn sep(c: char, ascii: bool) -> bool {
    if ascii {
        is_ascii_ws(c)
    } else {
        is_ws(c)
    }
}

/// The whitespace-separated words of `s` from `i` on, as
/// `str::split_whitespace` (or, with `ascii`, `split_ascii_whitespace`)
/// gives them.
pub open spec fn words_from(s: Seq<char>, i: nat, ascii: bool) -> Seq<Seq<char>>
    decreases s.len() - i,
{
    if i >= s.len() {
        Seq::empty()
    } else if sep(s[i as int], ascii) {
        words_from(s, i + 1, ascii)
    } else {
        let e = word_end(s, i, ascii);
        proof {
            lemma_word_end(s, i, ascii);
        }
        seq![s.subrange(i as int, e as int)] + words_from(s, e, ascii)
    }
}

/// The end of the word that starts at `i`.
pub open spec fn word_end(s: Seq<char>, i: nat, ascii: bool) -> nat
    decreases s.len() - i,
{
    if i < s.len() && !sep(s[i as int], ascii) {
        word_end(s, i + 1, ascii)
    } else {
        i
    }
}

pub proof fn lemma_word_end(s: Seq<char>, i: nat, ascii: bool)
    requires
        i <= s.len(),
    ensures
        i <= word_end(s, i, ascii) <= s.len(),
        i < s.len() && !sep(s[i as int], ascii) ==> i < word_end(s, i, ascii),
    decreases s.len() - i,
{
    if i < s.len() && !sep(s[i as int], ascii) {
        lemma_word_end(s, i + 1, ascii);
    }
}

pub open spec fn words(s: Seq<char>, ascii: bool) -> Seq<Seq<char>> {
    words_from(s, 0, ascii)
}

fn is_sep(c: char, ascii: bool) -> (r: bool)
    ensures
        r == sep(c, ascii),
{
    if ascii {
        c == ' ' || c == '\t' || c == '\n' || c == '\u{c}' || c == '\r'
    } else {
        is_whitespace(c)
    }
}

/// The whitespace-separated words of `s` (see `words`).
pub fn words_of(s: &[char], ascii: bool) -> (r: Vec<Vec<char>>)
    ensures
        views(r@) == words(s@, ascii),
{
    let mut out: Vec<Vec<char>> = Vec::new();
    let mut i: usize = 0;
    while i < s.len()
        invariant
            i <= s@.len(),
            views(out@) + words_from(s@, i as nat, ascii) == words(s@, ascii),
        decreases s@.len() - i,
    {
        if is_sep(s[i], ascii) {
            i = i + 1;
        } else {
            let mut e = i;
            while e < s.len() && !is_sep(s[e], ascii)
                invariant
                    i <= e <= s@.len(),
                    word_end(s@, e as nat, ascii) == word_end(s@, i as nat, ascii),
                decreases s@.len() - e,
            {
                e = e + 1;
            }
            let w = slice_chars(s, i, e);
            let ghost before = views(out@);
            out.push(w);
            proof {
                lemma_word_end(s@, i as nat, ascii);
                assert(views(out@) =~= before.push(w@));
                assert(views(out@) + words_from(s@, e as nat, ascii) =~= before + words_from(
                    s@,
                    i as nat,
                    ascii,
                ));
            }
            i = e;
        }
    }
    assert(views(out@) + Seq::<Seq<char>>::empty() =~= views(out@));
    out
}

/// Each word followed by a line end.
pub open spec fn word_lines(ws: Seq<Seq<char>>) -> Seq<char>
    decreases ws.len(),
{
    if ws.len() == 0 {
        Seq::empty()
    } else {
        word_lines(ws.drop_last()) + ws.last() + seq!['\n']
    }
}

/// A `- word` line for each word that does not start with `#`.
pub open spec fn cvs_lines(ws: Seq<Seq<char>>) -> Seq<char>
    decreases ws.len(),
{
    if ws.len() == 0 {
        Seq::empty()
    } else {
        let w = ws.last();
        let rest = cvs_lines(ws.drop_last());
        if w.len() > 0 && w[0] == '#' {
            rest
        } else {
            rest + seq!['-', ' '] + w + seq!['\n']
        }
    }
}

/// A `sign line` line for each line that is not blank or a comment once
/// trimmed.
pub open spec fn signed_lines(ls: Seq<Seq<char>>, sign: char) -> Seq<char>
    decreases ls.len(),
{
    if ls.len() == 0 {
        Seq::empty()
    } else {
        let l = trim(ls.last());
        let rest = signed_lines(ls.drop_last(), sign);
        if l.len() == 0 || l[0] == '#' {
            rest
        } else {
            rest + seq![sign, ' '] + l + seq!['\n']
        }
    }
}

/// `prefix`, the token and a line end, for each NUL-separated token that
/// is not blank or a comment once its line ends are trimmed.
pub open spec fn nul_lines(parts: Seq<Seq<u8>>, prefix: Seq<u8>) -> Seq<u8>
    decreases parts.len(),
{
    if parts.len() == 0 {
        Seq::empty()
    } else {
        let t = trim_newlines_spec(parts.last());
        let rest = nul_lines(parts.drop_last(), prefix);
        if t.len() == 0 || t[0] == 35u8 {
            rest
        } else {
            rest + prefix + t + seq![10u8]
        }
    }
}

/// What a merged file's contents are parsed as.
pub enum MergeInput {
    /// Rule bytes, NUL-separated when the flag says so.
    Bytes(Vec<u8>, bool),
    /// Rule text.
    Text(String),
}

pub enum MergeInputV {
    Bytes(Seq<u8>, bool),
    Text(Seq<char>),
}

impl View for MergeInput {
    type V = MergeInputV;

    open spec fn view(&self) -> MergeInputV {
        match self {
            MergeInput::Bytes(b, f) => MergeInputV::Bytes(b@, *f),
            MergeInput::Text(t) => MergeInputV::Text(t@),
        }
    }
}

pub open spec fn sign_of(m: Seq<char>) -> char {
    if m.contains('+') {
        '+'
    } else {
        '-'
    }
}

/// What the contents `data` of a file merged by a `.` rule with modifiers
/// `m` are parsed as. `C` makes each word (each NUL-separated token with
/// `from0`) an exclude rule; `+` or `-` makes each line (token) a rule of
/// that sign; `w` first splits the text into words, one per line.
pub open spec fn dot_input(data: Seq<u8>, m: Seq<char>, from0: bool) -> MergeInputV {
    if from0 {
        if m.contains('C') {
            MergeInputV::Bytes(nul_lines(split_parts(data, 0, 0), seq![45u8, 32u8]), false)
        } else if m.contains('+') || m.contains('-') {
            MergeInputV::Bytes(
                nul_lines(split_parts(data, 0, 0), seq![sign_of(m) as u8, 32u8]),
                false,
            )
        } else {
            MergeInputV::Bytes(data, true)
        }
    } else {
        let content = lossy_text(data);
        if m.contains('C') {
            MergeInputV::Text(cvs_lines(words(content, false)))
        } else {
            let c1 = if m.contains('w') {
                word_lines(words(content, false))
            } else {
                content
            };
            if m.contains('+') || m.contains('-') {
                MergeInputV::Text(signed_lines(lines(c1), sign_of(m)))
            } else {
                MergeInputV::Text(c1)
            }
        }
    }
}

fn nul_lines_exec(data: &[u8], prefix: &[u8]) -> (r: Vec<u8>)
    ensures
        r@ == nul_lines(split_parts(data@, 0, 0), prefix@),
{
    let parts = super::util::split_nul(data);
    let ghost pv = split_parts(data@, 0, 0);
    let mut out: Vec<u8> = Vec::new();
    let mut k: usize = 0;
    while k < parts.len()
        invariant
            k <= parts@.len(),
            parts@.map_values(|p: Vec<u8>| p@) == pv,
            out@ == nul_lines(pv.take(k as int), prefix@),
        decreases parts@.len() - k,
    {
        proof {
            assert(pv.take(k + 1).drop_last() =~= pv.take(k as int));
            assert(pv.take(k + 1).last() == parts@[k as int]@);
        }
        let t = trim_newlines(parts[k].as_slice());
        if !(t.len() == 0 || t[0] == 35u8) {
            super::super::filelist::bytes::push_all(&mut out, prefix);
            super::super::filelist::bytes::push_all(&mut out, t);
            out.push(10u8);
        }
        k = k + 1;
    }
    proof {
        assert(pv.take(parts@.len() as int) =~= pv);
    }
    out
}

pub(crate) fn word_lines_exec(ws: &Vec<Vec<char>>) -> (r: Vec<char>)
    ensures
        r@ == word_lines(views(ws@)),
{
    let ghost wv = views(ws@);
    let mut out: Vec<char> = Vec::new();
    let mut k: usize = 0;
    while k < ws.len()
        invariant
            k <= ws@.len(),
            wv == views(ws@),
            out@ == word_lines(wv.take(k as int)),
        decreases ws@.len() - k,
    {
        proof {
            assert(wv.take(k + 1).drop_last() =~= wv.take(k as int));
            assert(wv.take(k + 1).last() == ws@[k as int]@);
        }
        push_chars(&mut out, ws[k].as_slice());
        out.push('\n');
        k = k + 1;
    }
    proof {
        assert(wv.take(ws@.len() as int) =~= wv);
    }
    out
}

fn cvs_lines_exec(ws: &Vec<Vec<char>>) -> (r: Vec<char>)
    ensures
        r@ == cvs_lines(views(ws@)),
{
    let ghost wv = views(ws@);
    let mut out: Vec<char> = Vec::new();
    let mut k: usize = 0;
    while k < ws.len()
        invariant
            k <= ws@.len(),
            wv == views(ws@),
            out@ == cvs_lines(wv.take(k as int)),
        decreases ws@.len() - k,
    {
        proof {
            assert(wv.take(k + 1).drop_last() =~= wv.take(k as int));
            assert(wv.take(k + 1).last() == ws@[k as int]@);
        }
        let w = &ws[k];
        if !(w.len() > 0 && w[0] == '#') {
            out.push('-');
            out.push(' ');
            push_chars(&mut out, w.as_slice());
            out.push('\n');
        }
        k = k + 1;
    }
    proof {
        assert(wv.take(ws@.len() as int) =~= wv);
    }
    out
}

fn signed_lines_exec(text: &[char], sign: char) -> (r: Vec<char>)
    ensures
        r@ == signed_lines(lines(text@), sign),
{
    let ls = lines_of(text);
    let ghost lv = views(ls@);
    let mut out: Vec<char> = Vec::new();
    let mut k: usize = 0;
    proof {
        assert(lv == lines(text@));
    }
    while k < ls.len()
        invariant
            k <= ls@.len(),
            lv == views(ls@),
            out@ == signed_lines(lv.take(k as int), sign),
        decreases ls@.len() - k,
    {
        proof {
            assert(lv.take(k + 1).drop_last() =~= lv.take(k as int));
            assert(lv.take(k + 1).last() == ls@[k as int]@);
        }
        let l = trim_chars(ls[k].as_slice());
        if !(l.len() == 0 || l[0] == '#') {
            out.push(sign);
            out.push(' ');
            push_chars(&mut out, &l);
            out.push('\n');
        }
        k = k + 1;
    }
    proof {
        assert(lv.take(ls@.len() as int) =~= lv);
    }
    out
}

/// What the contents `data` of a file merged by a `.` rule with modifiers
/// `mods` are parsed as (see `dot_input`).
pub fn dot_merge_input(data: &[u8], mods: &str, from0: bool) -> (r: MergeInput)
    ensures
        r@ == dot_input(data@, mods@, from0),
{
    let m = chars_of(mods);
    let has_c = contains_char(&m, 'C');
    let has_sign = contains_char(&m, '+') || contains_char(&m, '-');
    let sign = if contains_char(&m, '+') {
        '+'
    } else {
        '-'
    };
    if from0 {
        if has_c {
            let prefix: Vec<u8> = vec![45u8, 32u8];
            assert(prefix@ =~= seq![45u8, 32u8]);
            MergeInput::Bytes(nul_lines_exec(data, &prefix), false)
        } else if has_sign {
            let prefix: Vec<u8> = vec![sign as u8, 32u8];
            assert(prefix@ =~= seq![sign_of(m@) as u8, 32u8]);
            MergeInput::Bytes(nul_lines_exec(data, &prefix), false)
        } else {
            let copy = super::super::filelist::bytes::copy_range(data, 0, data.len());
            assert(data@.subrange(0, data@.len() as int) =~= data@);
            MergeInput::Bytes(copy, true)
        }
    } else {
        let content = decode_text(data);
        if has_c {
            let ws = words_of(&content, false);
            MergeInput::Text(string_of(&cvs_lines_exec(&ws)))
        } else {
            let c1 = if contains_char(&m, 'w') {
                let ws = words_of(&content, false);
                word_lines_exec(&ws)
            } else {
                content
            };
            if has_sign {
                MergeInput::Text(string_of(&signed_lines_exec(&c1, sign)))
            } else {
                MergeInput::Text(string_of(&c1))
            }
        }
    }
}

/// The rule `r` with `extra` joined to its flags, when it is a pattern
/// rule.
pub open spec fn rule_with_flags(r: RuleV, extra: RuleFlags) -> RuleV {
    match r {
        RuleV::Include(d) => RuleV::Include(DataV { flags: flags_union(d.flags, extra), ..d }),
        RuleV::Exclude(d) => RuleV::Exclude(DataV { flags: flags_union(d.flags, extra), ..d }),
        RuleV::Protect(d) => RuleV::Protect(DataV { flags: flags_union(d.flags, extra), ..d }),
        RuleV::ImpliedDir(d) => RuleV::ImpliedDir(DataV { flags: flags_union(d.flags, extra), ..d }),
        _ => r,
    }
}

/// Whether the modifiers `m` set a flag that merged rules take on.
pub open spec fn mods_pass_flags(m: Seq<char>) -> bool {
    m.contains('s') || m.contains('r') || m.contains('p') || m.contains('x')
}

/// The pattern rule `r` with `extra` joined to its flags.
pub fn join_flags(r: Rule, extra: RuleFlags) -> (out: Rule)
    ensures
        out@ == rule_with_flags(r@, extra),
{
    match r {
        Rule::Include(d) => Rule::Include(d.with_flags_joined(extra)),
        Rule::Exclude(d) => Rule::Exclude(d.with_flags_joined(extra)),
        Rule::Protect(d) => Rule::Protect(d.with_flags_joined(extra)),
        Rule::ImpliedDir(d) => Rule::ImpliedDir(d.with_flags_joined(extra)),
        other => other,
    }
}

/// The rules of a file merged by a `.` rule with modifiers `mods`: when
/// they set `s`, `r`, `p` or `x`, each pattern rule takes those flags on.
pub fn inherit_mods(rules: Vec<Rule>, mods: &str) -> (r: Vec<Rule>)
    ensures
        rules_view(r@) == if mods_pass_flags(mods@) {
            rules_view(rules@).map_values(
                |x: RuleV| rule_with_flags(x, flags_from_mods(mods@)),
            )
        } else {
            rules_view(rules@)
        },
{
    let m = chars_of(mods);
    if !(contains_char(&m, 's') || contains_char(&m, 'r') || contains_char(&m, 'p')
        || contains_char(&m, 'x')) {
        return rules;
    }
    let extra = RuleFlags::from_mod_chars(&m);
    let ghost orig = rules_view(rules@);
    let ghost f = |x: RuleV| rule_with_flags(x, flags_from_mods(mods@));
    let mut rules = rules;
    let mut out: Vec<Rule> = Vec::new();
    let mut k: usize = 0;
    assert(orig.len() == rules.len());
    assert(orig.skip(0) =~= orig);
    while rules.len() > 0
        invariant
            k + rules@.len() == orig.len(),
            orig.len() <= usize::MAX,
            rules_view(rules@) == orig.skip(k as int),
            rules_view(out@) == orig.take(k as int).map_values(f),
            extra == flags_from_mods(mods@),
            f == (|x: RuleV| rule_with_flags(x, flags_from_mods(mods@))),
        decreases rules@.len(),
    {
        let ghost old_rules = rules@;
        proof {
            assert(rules_view(rules@)[0] == rules@[0]@);
        }
        let r = rules.remove(0);
        proof {
            assert(rules@ =~= old_rules.subrange(1, old_rules.len() as int));
            assert(rules_view(rules@) =~= orig.skip(k + 1)) by {
                assert forall|i: int| 0 <= i < rules@.len() implies rules_view(rules@)[i]
                    == orig.skip(k + 1)[i] by {
                    assert(rules@[i] == old_rules[i + 1]);
                    assert(rules_view(old_rules)[i + 1] == orig.skip(k as int)[i + 1]);
                }
            }
            assert(r@ == orig[k as int]);
        }
        let j = join_flags(r, extra);
        let ghost before = rules_view(out@);
        out.push(j);
        proof {
            assert(rules_view(out@) =~= before.push(j@));
            assert(orig.take(k + 1).map_values(f) =~= orig.take(k as int).map_values(f).push(
                f(orig[k as int]),
            ));
        }
        k = k + 1;
    }
    proof {
        assert(orig.take(k as int) =~= orig);
    }
    out
}

/// The rule that keeps the file a `.` rule with modifiers `mods` merged,
/// named `file`, out of the transfer: with `e`, an exclude rule for
/// `**/file`; else none.
pub fn dot_exclude_self(mods: &str, file: &str, source: &Option<String>) -> (r: Result<
    Vec<Rule>,
    ParseError,
>)
    ensures
        mods@.contains('e') ==> match exclude_self(file@, opt_view(*source)) {
            Ok(rs) => r matches Ok(v) && rules_view(v@) == rs,
            Err(e) => r matches Err(x) && x@ == e,
        },
        !mods@.contains('e') ==> (r matches Ok(v) && v@.len() == 0),
{
    let m = chars_of(mods);
    let mut rules: Vec<Rule> = Vec::new();
    if !contains_char(&m, 'e') {
        return Ok(rules);
    }
    let f = chars_of(file);
    match push_exclude_self(&f, source, &mut rules) {
        Ok(()) => {
            assert(rules_view(Seq::<Rule>::empty()) =~= Seq::<RuleV>::empty());
            assert(rules_view(Seq::<Rule>::empty()) + rules_view(rules@) =~= rules_view(rules@));
            Ok(rules)
        },
        Err(e) => Err(e),
    }
}

/// CVS's default ignore list is rsync's, entry for entry and in order:
/// version-control directories and files, editor and backup leftovers,
/// object files, libraries and core dumps. Among them, object files
/// (`*.o`), backups (`*.bak`) and core dumps (`core`) are ignored.
pub proof fn lemma_cvs_default_list()
    ensures
        cvs_default_patterns() == seq![
            "RCS"@, "SCCS"@, "CVS"@, "CVS.adm"@, "RCSLOG"@, "cvslog.*"@, "tags"@, "TAGS"@,
            ".make.state"@, ".nse_depinfo"@, "*~"@, "#*"@, ".#*"@, ",*"@, "_$*"@, "*$"@,
            "*.old"@, "*.bak"@, "*.BAK"@, "*.orig"@, "*.rej"@, ".del-*"@, "*.a"@, "*.olb"@,
            "*.o"@, "*.obj"@, "*.so"@, "*.exe"@, "*.Z"@, "*.elc"@, "*.ln"@, "core"@,
            ".svn/"@, ".git/"@, ".hg/"@, ".bzr/"@,
        ],
        cvs_default_patterns().len() == 36,
        cvs_default_patterns().contains(seq!['*', '.', 'o']),
        cvs_default_patterns().contains(seq!['*', '.', 'b', 'a', 'k']),
        cvs_default_patterns().contains(seq!['c', 'o', 'r', 'e']),
{
    reveal_strlit("*.o");
    reveal_strlit("*.bak");
    reveal_strlit("core");
    assert(cvs_default_patterns()[24] == seq!['*', '.', 'o']);
    assert(cvs_default_patterns()[17] == seq!['*', '.', 'b', 'a', 'k']);
    assert(cvs_default_patterns()[31] == seq!['c', 'o', 'r', 'e']);
}

/// The patterns that CVS ignores by default.
pub open spec fn cvs_default_patterns() -> Seq<Seq<char>> {
    seq![
        "RCS"@, "SCCS"@, "CVS"@, "CVS.adm"@, "RCSLOG"@, "cvslog.*"@, "tags"@, "TAGS"@,
        ".make.state"@, ".nse_depinfo"@, "*~"@, "#*"@, ".#*"@, ",*"@, "_$*"@, "*$"@, "*.old"@,
        "*.bak"@, "*.BAK"@, "*.orig"@, "*.rej"@, ".del-*"@, "*.a"@, "*.olb"@, "*.o"@, "*.obj"@,
        "*.so"@, "*.exe"@, "*.Z"@, "*.elc"@, "*.ln"@, "core"@, ".svn/"@, ".git/"@, ".hg/"@,
        ".bzr/"@,
    ]
}

/// The patterns that CVS ignores by default.
pub fn cvs_defaults() -> (r: Vec<String>)
    ensures
        strings_view(r@) == cvs_default_patterns(),
{
    let r = vec![
        "RCS".to_string(), "SCCS".to_string(), "CVS".to_string(), "CVS.adm".to_string(),
        "RCSLOG".to_string(), "cvslog.*".to_string(), "tags".to_string(), "TAGS".to_string(),
        ".make.state".to_string(), ".nse_depinfo".to_string(), "*~".to_string(), "#*".to_string(),
        ".#*".to_string(), ",*".to_string(), "_$*".to_string(), "*$".to_string(),
        "*.old".to_string(), "*.bak".to_string(), "*.BAK".to_string(), "*.orig".to_string(),
        "*.rej".to_string(), ".del-*".to_string(), "*.a".to_string(), "*.olb".to_string(),
        "*.o".to_string(), "*.obj".to_string(), "*.so".to_string(), "*.exe".to_string(),
        "*.Z".to_string(), "*.elc".to_string(), "*.ln".to_string(), "core".to_string(),
        ".svn/".to_string(), ".git/".to_string(), ".hg/".to_string(), ".bzr/".to_string(),
    ];
    assert(strings_view(r@) =~= cvs_default_patterns());
    r
}

pub open spec fn cvs_mod_chars() -> Seq<char> {
    seq!['!', '/', 'C', 's', 'r', 'p', 'x']
}

pub open spec fn is_rule_letter(c: char) -> bool {
    c == '+' || c == '-' || c == 'P' || c == 'p' || c == 'S' || c == 'H' || c == 'R' || c == '!'
}

/// The rule line a CVS ignore token becomes: a token that starts with a
/// rule letter keeps it, with `p` added to its modifiers; any other token
/// becomes a perishable exclude rule.
pub open spec fn cvs_rule_line(tok: Seq<char>) -> Seq<char> {
    if tok.len() == 0 {
        Seq::empty()
    } else if is_rule_letter(tok[0]) {
        let rest = tok.skip(1);
        let n = mods_end(rest, cvs_mod_chars(), 0);
        let mods = with_mod(rest.take(n as int), 'p');
        let pat = rest.skip(n as int);
        seq![tok[0]] + mods + (if pat.len() == 0 {
            Seq::empty()
        } else {
            seq![' '] + pat
        }) + seq!['\n']
    } else {
        seq!['-', 'p', ' '] + tok + seq!['\n']
    }
}

/// The rule text of CVS ignore tokens, one line each.
pub open spec fn cvs_text(toks: Seq<Seq<char>>) -> Seq<char>
    decreases toks.len(),
{
    if toks.len() == 0 {
        Seq::empty()
    } else {
        cvs_text(toks.drop_last()) + cvs_rule_line(toks.last())
    }
}

fn cvs_rule_line_exec(tok: &[char], out: &mut Vec<char>)
    ensures
        final(out)@ == old(out)@ + cvs_rule_line(tok@),
{
    let ghost start = out@;
    if tok.len() == 0 {
        assert(start + Seq::<char>::empty() =~= start);
        return;
    }
    let c = tok[0];
    if c == '+' || c == '-' || c == 'P' || c == 'p' || c == 'S' || c == 'H' || c == 'R' || c == '!' {
        let rest = slice_chars(tok, 1, tok.len());
        assert(rest@ =~= tok@.skip(1));
        let allowed = vec!['!', '/', 'C', 's', 'r', 'p', 'x'];
        assert(allowed@ =~= cvs_mod_chars());
        let mut n: usize = 0;
        proof {
            lemma_mods_end(rest@, allowed@, 0);
        }
        while n < rest.len() && contains_char(&allowed, rest[n])
            invariant
                n <= rest@.len(),
                mods_end(rest@, allowed@, n as nat) == mods_end(rest@, allowed@, 0),
            decreases rest@.len() - n,
        {
            n = n + 1;
        }
        let mods = slice_chars(&rest, 0, n);
        assert(mods@ =~= rest@.take(n as int));
        let mods = if contains_char(&mods, 'p') {
            mods
        } else {
            let mut m = mods;
            m.push('p');
            m
        };
        let pat = slice_chars(&rest, n, rest.len());
        assert(pat@ =~= rest@.skip(n as int));
        out.push(c);
        push_chars(out, &mods);
        if pat.len() > 0 {
            out.push(' ');
            push_chars(out, &pat);
        }
        out.push('\n');
        proof {
            if pat@.len() == 0 {
                assert(out@ =~= start + (seq![c] + mods@ + Seq::<char>::empty() + seq!['\n']));
            } else {
                assert(out@ =~= start + (seq![c] + mods@ + (seq![' '] + pat@) + seq!['\n']));
            }
        }
    } else {
        out.push('-');
        out.push('p');
        out.push(' ');
        push_chars(out, tok);
        out.push('\n');
        assert(out@ =~= start + (seq!['-', 'p', ' '] + tok@ + seq!['\n']));
    }
}

/// The rule text of the CVS ignore tokens `toks` (see `cvs_text`).
pub fn cvs_rule_text(toks: &Vec<String>) -> (r: String)
    ensures
        r@ == cvs_text(strings_view(toks@)),
{
    let ghost tv = strings_view(toks@);
    let mut out: Vec<char> = Vec::new();
    let mut k: usize = 0;
    while k < toks.len()
        invariant
            k <= toks@.len(),
            tv == strings_view(toks@),
            out@ == cvs_text(tv.take(k as int)),
        decreases toks@.len() - k,
    {
        proof {
            assert(tv.take(k + 1).drop_last() =~= tv.take(k as int));
            assert(tv.take(k + 1).last() == toks@[k as int]@);
        }
        let t = chars_of(toks[k].as_str());
        cvs_rule_line_exec(&t, &mut out);
        k = k + 1;
    }
    proof {
        assert(tv.take(toks@.len() as int) =~= tv);
    }
    string_of(&out)
}

/// The whitespace-separated words of `s`, as strings (with `ascii`, ASCII
/// whitespace only).
pub fn split_words(s: &str, ascii: bool) -> (r: Vec<String>)
    ensures
        strings_view(r@) == words(s@, ascii),
{
    let c = chars_of(s);
    let ws = words_of(&c, ascii);
    let mut out: Vec<String> = Vec::new();
    let mut k: usize = 0;
    while k < ws.len()
        invariant
            k <= ws@.len(),
            views(ws@) == words(s@, ascii),
            strings_view(out@) == views(ws@).take(k as int),
        decreases ws@.len() - k,
    {
        let w = string_of(ws[k].as_slice());
        let ghost before = strings_view(out@);
        out.push(w);
        proof {
            assert(strings_view(out@) =~= before.push(w@));
            assert(views(ws@).take(k + 1) =~= views(ws@).take(k as int).push(ws@[k as int]@));
        }
        k = k + 1;
    }
    assert(views(ws@).take(ws@.len() as int) =~= views(ws@));
    out
}

pub open spec fn perishable() -> RuleFlags {
    RuleFlags { sender: false, receiver: false, perishable: true, xattr: false }
}

/// The rule `r` made perishable.
pub open spec fn perishable_rule(r: RuleV) -> RuleV {
    match r {
        RuleV::DirMerge(pd) => RuleV::DirMerge(
            PerDirV { flags: RuleFlags { perishable: true, ..pd.flags }, ..pd },
        ),
        _ => rule_with_flags(r, perishable()),
    }
}

/// The rules `rules`, each made perishable: a CVS ignore rule gives way
/// when a directory is deleted.
pub fn mark_perishable(rules: Vec<Rule>) -> (r: Vec<Rule>)
    ensures
        rules_view(r@) == rules_view(rules@).map_values(|x: RuleV| perishable_rule(x)),
{
    let ghost orig = rules_view(rules@);
    let ghost f = |x: RuleV| perishable_rule(x);
    let mut rules = rules;
    let mut out: Vec<Rule> = Vec::new();
    let mut k: usize = 0;
    assert(orig.len() == rules.len());
    assert(orig.skip(0) =~= orig);
    while rules.len() > 0
        invariant
            k + rules@.len() == orig.len(),
            orig.len() <= usize::MAX,
            rules_view(rules@) == orig.skip(k as int),
            rules_view(out@) == orig.take(k as int).map_values(f),
            f == (|x: RuleV| perishable_rule(x)),
        decreases rules@.len(),
    {
        let ghost old_rules = rules@;
        proof {
            assert(rules_view(rules@)[0] == rules@[0]@);
        }
        let r = rules.remove(0);
        proof {
            assert(rules@ =~= old_rules.subrange(1, old_rules.len() as int));
            assert(rules_view(rules@) =~= orig.skip(k + 1)) by {
                assert forall|i: int| 0 <= i < rules@.len() implies rules_view(rules@)[i]
                    == orig.skip(k + 1)[i] by {
                    assert(rules@[i] == old_rules[i + 1]);
                    assert(rules_view(old_rules)[i + 1] == orig.skip(k as int)[i + 1]);
                }
            }
            assert(r@ == orig[k as int]);
        }
        let extra = RuleFlags { sender: false, receiver: false, perishable: true, xattr: false };
        let j = match r {
            Rule::DirMerge(pd) => {
                let mut pd = pd;
                pd.flags.perishable = true;
                Rule::DirMerge(pd)
            },
            other => join_flags(other, extra),
        };
        let ghost before = rules_view(out@);
        out.push(j);
        proof {
            assert(j@ == f(orig[k as int]));
            assert(rules_view(out@) =~= before.push(j@));
            assert(orig.take(k + 1).map_values(f) =~= orig.take(k as int).map_values(f).push(
                f(orig[k as int]),
            ));
        }
        k = k + 1;
    }
    proof {
        assert(orig.take(k as int) =~= orig);
    }
    out
}

} // verus!
