//! The translation of an rsync pattern into a globset glob, and the calls
//! into globset that build and match it.

use globset::{GlobBuilder, GlobSetBuilder};
use vstd::prelude::*;

use super::error::{ErrV, ParseError};
use super::text::{chars_eq_str, chars_of, string_of};

verus! {

/// Whether globset builds `glob` (with `literal_separator` and
/// `backslash_escape` set) and then builds a `GlobSet` of that one glob;
/// the second step compiles the regular expressions the set matches with,
/// and fails where they exceed globset's size limits.
pub uninterp spec fn glob_builds(glob: Seq<char>) -> bool;

/// Whether the `GlobSet` built from `glob` (as for `glob_builds`) matches
/// the path `path`.
pub uninterp spec fn glob_matches(glob: Seq<char>, path: Seq<char>) -> bool;

/// The longest glob, in characters, that is handed to globset. A `GlobSet`
/// keeps some literal parts of a glob in an Aho-Corasick automaton, which it
/// builds with `unwrap`; that automaton has room for about 2^31 bytes, which
/// no glob below this length reaches. A glob this long compiles to a regular
/// expression far over globset's 10 MiB limit, on which a glob's own
/// `compile_matcher` panics.
pub const MAX_GLOB_LEN: usize = 0x1000_0000;

/// A glob the library can match with: short enough and built by globset.
pub open spec fn glob_ok(glob: Seq<char>) -> bool {
    glob.len() < MAX_GLOB_LEN && glob_builds(glob)
}

/// `GlobBuilder::new(glob).literal_separator(true).backslash_escape(true)
/// .build()`, then `GlobSetBuilder::build` of a builder holding that glob:
/// succeeds exactly when `glob_builds`; nothing built is kept, and the error
/// of the step that failed is passed on as globset gave it.
#[verifier::external_body]
fn build_glob(glob: &str) -> (r: Result<(), globset::Error>)
    requires
        glob@.len() < MAX_GLOB_LEN,
    ensures
        r is Ok <==> glob_builds(glob@),
{
    match GlobBuilder::new(glob).literal_separator(true).backslash_escape(true).build() {
        Ok(g) => match GlobSetBuilder::new().add(g).build() {
            Ok(_) => Ok(()),
            Err(e) => Err(e),
        },
        Err(e) => Err(e),
    }
}

/// Whether globset builds `glob` and the library can match with it.
pub fn build_glob_checked(glob: &str) -> (r: bool)
    ensures
        r == glob_ok(glob@),
{
    let n = chars_of(glob).len();
    if n >= MAX_GLOB_LEN {
        return false;
    }
    match build_glob(glob) {
        Ok(()) => true,
        Err(_) => false,
    }
}

/// Builds `glob` as `build_glob` does and asks the `GlobSet`
/// (`GlobSet::is_match`) whether it matches `path`; the answer is named
/// `glob_matches`.
#[verifier::external_body]
pub(crate) fn glob_is_match(glob: &str, path: &str) -> (r: bool)
    requires
        glob_ok(glob@),
    ensures
        r == glob_matches(glob@, path@),
{
    match GlobBuilder::new(glob).literal_separator(true).backslash_escape(true).build() {
        Ok(g) => match GlobSetBuilder::new().add(g).build() {
            Ok(set) => set.is_match(path),
            Err(_) => false,
        },
        Err(_) => false,
    }
}

/// `s` with each `a` `b` pair (taken left to right, not overlapping)
/// replaced by `r`, as `str::replace` does.
pub open spec fn replace_pair(s: Seq<char>, a: char, b: char, r: char) -> Seq<char>
    decreases s.len(),
{
    if s.len() == 0 {
        Seq::empty()
    } else if s.len() >= 2 && s[0] == a && s[1] == b {
        seq![r] + replace_pair(s.skip(2), a, b, r)
    } else {
        seq![s[0]] + replace_pair(s.drop_first(), a, b, r)
    }
}

/// `s` with each `c` replaced by the pair `a` `b`.
pub open spec fn expand_char(s: Seq<char>, c: char, a: char, b: char) -> Seq<char>
    decreases s.len(),
{
    if s.len() == 0 {
        Seq::empty()
    } else if s[0] == c {
        seq![a, b] + expand_char(s.drop_first(), c, a, b)
    } else {
        seq![s[0]] + expand_char(s.drop_first(), c, a, b)
    }
}

fn replace_pair_exec(s: &[char], a: char, b: char, r: char) -> (out: Vec<char>)
    ensures
        out@ == replace_pair(s@, a, b, r),
{
    let mut out: Vec<char> = Vec::new();
    let mut i: usize = 0;
    assert(s@.skip(0) =~= s@);
    assert(out@ + replace_pair(s@, a, b, r) =~= replace_pair(s@, a, b, r));
    while i < s.len()
        invariant
            i <= s@.len(),
            out@ + replace_pair(s@.skip(i as int), a, b, r) == replace_pair(s@, a, b, r),
        decreases s@.len() - i,
    {
        let ghost rest = s@.skip(i as int);
        if i + 1 < s.len() && s[i] == a && s[i + 1] == b {
            out.push(r);
            proof {
                assert(rest.skip(2) =~= s@.skip(i + 2));
                assert(out@ + replace_pair(s@.skip(i + 2), a, b, r) =~= out@.drop_last() + (seq![r]
                    + replace_pair(rest.skip(2), a, b, r)));
            }
            i = i + 2;
        } else {
            out.push(s[i]);
            proof {
                assert(rest.drop_first() =~= s@.skip(i + 1));
                assert(out@ + replace_pair(s@.skip(i + 1), a, b, r) =~= out@.drop_last() + (seq![
                    s@[i as int],
                ] + replace_pair(rest.drop_first(), a, b, r)));
            }
            i = i + 1;
        }
    }
    assert(replace_pair(s@.skip(i as int), a, b, r) =~= Seq::<char>::empty());
    assert(out@ + Seq::<char>::empty() =~= out@);
    out
}

fn expand_char_exec(s: &[char], c: char, a: char, b: char) -> (out: Vec<char>)
    ensures
        out@ == expand_char(s@, c, a, b),
{
    let mut out: Vec<char> = Vec::new();
    let mut i: usize = 0;
    assert(s@.skip(0) =~= s@);
    assert(out@ + expand_char(s@, c, a, b) =~= expand_char(s@, c, a, b));
    while i < s.len()
        invariant
            i <= s@.len(),
            out@ + expand_char(s@.skip(i as int), c, a, b) == expand_char(s@, c, a, b),
        decreases s@.len() - i,
    {
        let ghost rest = s@.skip(i as int);
        let ghost before = out@;
        if s[i] == c {
            out.push(a);
            out.push(b);
            proof {
                assert(out@ =~= before + seq![a, b]);
            }
        } else {
            out.push(s[i]);
        }
        proof {
            assert(rest.drop_first() =~= s@.skip(i + 1));
            assert(out@ + expand_char(s@.skip(i + 1), c, a, b) =~= before + expand_char(rest, c, a, b));
        }
        i = i + 1;
    }
    assert(expand_char(s@.skip(i as int), c, a, b) =~= Seq::<char>::empty());
    assert(out@ + Seq::<char>::empty() =~= out@);
    out
}

/// The end of the first `:]` at or after `j` in `c`, if any: the index of
/// its `:`.
pub open spec fn find_class_end(c: Seq<char>, j: nat) -> Option<nat>
    decreases c.len() - j,
{
    if j + 1 >= c.len() {
        None
    } else if c[j as int] == ':' && c[(j + 1) as int] == ']' {
        Some(j)
    } else {
        find_class_end(c, j + 1)
    }
}

pub proof fn lemma_find_class_end(c: Seq<char>, j: nat)
    ensures
        find_class_end(c, j) matches Some(k) ==> j <= k && k + 1 < c.len(),
    decreases c.len() - j,
{
    if j + 1 < c.len() && !(c[j as int] == ':' && c[(j + 1) as int] == ']') {
        lemma_find_class_end(c, j + 1);
    }
}

/// The characters a POSIX class name stands for inside brackets.
pub open spec fn posix_class(name: Seq<char>) -> Option<Seq<char>> {
    if name == "alnum"@ {
        Some("0-9A-Za-z"@)
    } else if name == "alpha"@ {
        Some("A-Za-z"@)
    } else if name == "digit"@ {
        Some("0-9"@)
    } else if name == "lower"@ {
        Some("a-z"@)
    } else if name == "upper"@ {
        Some("A-Z"@)
    } else if name == "xdigit"@ {
        Some("0-9A-Fa-f"@)
    } else if name == "space"@ {
        Some("\t\n\r\x0B\x0C "@)
    } else if name == "punct"@ {
        Some("!\"#$%&'()*+,\\-./:;<=>?@\\[\\\\\\]\\^_`{|}~"@)
    } else if name == "blank"@ {
        Some("\t "@)
    } else if name == "cntrl"@ {
        Some("\x00-\x1F\x7F"@)
    } else if name == "graph"@ {
        Some("!-~"@)
    } else if name == "print"@ {
        Some(" -~"@)
    } else {
        None
    }
}

fn posix_class_exec(name: &[char]) -> (r: Option<Vec<char>>)
    ensures
        match r {
            Some(v) => posix_class(name@) == Some(v@),
            None => posix_class(name@) is None,
        },
{
    if chars_eq_str(name, "alnum") {
        Some(chars_of("0-9A-Za-z"))
    } else if chars_eq_str(name, "alpha") {
        Some(chars_of("A-Za-z"))
    } else if chars_eq_str(name, "digit") {
        Some(chars_of("0-9"))
    } else if chars_eq_str(name, "lower") {
        Some(chars_of("a-z"))
    } else if chars_eq_str(name, "upper") {
        Some(chars_of("A-Z"))
    } else if chars_eq_str(name, "xdigit") {
        Some(chars_of("0-9A-Fa-f"))
    } else if chars_eq_str(name, "space") {
        Some(chars_of("\t\n\r\x0B\x0C "))
    } else if chars_eq_str(name, "punct") {
        Some(chars_of("!\"#$%&'()*+,\\-./:;<=>?@\\[\\\\\\]\\^_`{|}~"))
    } else if chars_eq_str(name, "blank") {
        Some(chars_of("\t "))
    } else if chars_eq_str(name, "cntrl") {
        Some(chars_of("\x00-\x1F\x7F"))
    } else if chars_eq_str(name, "graph") {
        Some(chars_of("!-~"))
    } else if chars_eq_str(name, "print") {
        Some(chars_of(" -~"))
    } else {
        None
    }
}

/// The pattern from `i` on with each `[:name:]` inside a bracket expression
/// replaced by the characters it stands for; `inside` says whether `i` is
/// within a bracket expression.
pub open spec fn posix_from(c: Seq<char>, i: nat, inside: bool) -> Seq<char>
    decreases c.len() - i,
{
    if i >= c.len() {
        Seq::empty()
    } else if !inside {
        if c[i as int] == '[' {
            seq!['['] + posix_from(c, i + 1, true)
        } else {
            seq![c[i as int]] + posix_from(c, i + 1, false)
        }
    } else if c[i as int] == ']' {
        seq![']'] + posix_from(c, i + 1, false)
    } else {
        let class = if c[i as int] == '[' && i + 1 < c.len() && c[(i + 1) as int] == ':' {
            match find_class_end(c, i + 2) {
                Some(j) => match posix_class(c.subrange((i + 2) as int, j as int)) {
                    Some(rep) => Some((rep, j + 2)),
                    None => None,
                },
                None => None,
            }
        } else {
            None
        };
        match class {
            Some((rep, next)) => {
                proof {
                    lemma_find_class_end(c, i + 2);
                }
                rep + posix_from(c, next, true)
            },
            None => seq![c[i as int]] + posix_from(c, i + 1, true),
        }
    }
}

fn find_class_end_exec(c: &[char], j: usize) -> (r: Option<usize>)
    ensures
        match r {
            Some(k) => find_class_end(c@, j as nat) == Some(k as nat),
            None => find_class_end(c@, j as nat) is None,
        },
{
    let mut k = j;
    while k < c.len() && k + 1 < c.len()
        invariant
            j <= k,
            find_class_end(c@, k as nat) == find_class_end(c@, j as nat),
        decreases c@.len() - k,
    {
        if c[k] == ':' && c[k + 1] == ']' {
            return Some(k);
        }
        k = k + 1;
    }
    None
}

/// Replaces each POSIX class inside a bracket expression by the characters
/// it stands for.
pub fn expand_posix_classes(c: &[char]) -> (out: Vec<char>)
    ensures
        out@ == posix_from(c@, 0, false),
{
    let mut out: Vec<char> = Vec::new();
    let mut i: usize = 0;
    let mut inside = false;
    while i < c.len()
        invariant
            i <= c@.len(),
            out@ + posix_from(c@, i as nat, inside) == posix_from(c@, 0, false),
        decreases c@.len() - i,
    {
        let ghost before = out@;
        let ghost old_i = i;
        let ghost old_inside = inside;
        if !inside {
            out.push(c[i]);
            if c[i] == '[' {
                inside = true;
            }
            i = i + 1;
        } else if c[i] == ']' {
            out.push(']');
            inside = false;
            i = i + 1;
        } else {
            let mut done = false;
            if c[i] == '[' && i + 1 < c.len() && c[i + 1] == ':' {
                match find_class_end_exec(c, i + 2) {
                    Some(j) => {
                        proof {
                            lemma_find_class_end(c@, (i + 2) as nat);
                        }
                        let name = super::text::slice_chars(c, i + 2, j);
                        match posix_class_exec(&name) {
                            Some(rep) => {
                                super::text::push_chars(&mut out, &rep);
                                i = j + 2;
                                done = true;
                            },
                            None => {},
                        }
                    },
                    None => {},
                }
            }
            if !done {
                out.push(c[i]);
                i = i + 1;
            }
        }
        proof {
            assert(out@ + posix_from(c@, i as nat, inside) =~= before + posix_from(
                c@,
                old_i as nat,
                old_inside,
            ));
        }
    }
    assert(out@ + Seq::<char>::empty() =~= out@);
    out
}

/// The body of a bracket expression from `k` on: an escaped character is
/// kept with its backslash, and the body ends at the first unescaped `]`
/// (or at the end). Gives the body and the index after it.
pub open spec fn class_body(c: Seq<char>, k: nat) -> (Seq<char>, nat)
    decreases c.len() - k,
{
    if k >= c.len() {
        (Seq::empty(), c.len())
    } else if c[k as int] == '\\' {
        if k + 1 < c.len() {
            let (b, e) = class_body(c, k + 2);
            (seq!['\\', c[(k + 1) as int]] + b, e)
        } else {
            (seq!['\\'], c.len())
        }
    } else if c[k as int] == ']' {
        (Seq::empty(), k + 1)
    } else {
        let (b, e) = class_body(c, k + 1);
        (seq![c[k as int]] + b, e)
    }
}

pub proof fn lemma_class_body(c: Seq<char>, k: nat)
    ensures
        k < class_body(c, k).1 || (k >= c.len() && class_body(c, k).1 == c.len()),
        class_body(c, k).1 <= c.len() || k >= c.len(),
    decreases c.len() - k,
{
    if k < c.len() {
        if c[k as int] == '\\' {
            if k + 1 < c.len() {
                lemma_class_body(c, k + 2);
            }
        } else if c[k as int] != ']' {
            lemma_class_body(c, k + 1);
        }
    }
}

/// `s` without its `/` characters.
pub open spec fn drop_slashes(s: Seq<char>) -> Seq<char>
    decreases s.len(),
{
    if s.len() == 0 {
        Seq::empty()
    } else if s.last() == '/' {
        drop_slashes(s.drop_last())
    } else {
        drop_slashes(s.drop_last()).push(s.last())
    }
}

/// The pattern from `i` on with bracket expressions kept from matching `/`:
/// a negated class gains a `/` it lacks, any other class loses its `/`.
pub open spec fn confine_from(c: Seq<char>, i: nat) -> Seq<char>
    decreases c.len() - i,
{
    if i >= c.len() {
        Seq::empty()
    } else if c[i as int] == '[' {
        let neg = i + 1 < c.len() && c[(i + 1) as int] == '!';
        let k: nat = if neg {
            i + 2
        } else {
            i + 1
        };
        let (body, e) = class_body(c, k);
        let inner = if neg {
            if body.contains('/') {
                body
            } else {
                body.push('/')
            }
        } else {
            drop_slashes(body)
        };
        proof {
            lemma_class_body(c, k);
        }
        seq!['['] + (if neg {
            seq!['!']
        } else {
            Seq::empty()
        }) + inner + seq![']'] + confine_from(c, e)
    } else {
        seq![c[i as int]] + confine_from(c, i + 1)
    }
}

fn class_body_exec(c: &[char], k: usize) -> (r: (Vec<char>, usize))
    requires
        k <= c@.len(),
    ensures
        (r.0@, r.1 as nat) == class_body(c@, k as nat),
{
    let mut body: Vec<char> = Vec::new();
    let mut j = k;
    while j < c.len()
        invariant
            k <= j <= c@.len(),
            ({
                let (b, e) = class_body(c@, j as nat);
                class_body(c@, k as nat) == (body@ + b, e)
            }),
        decreases c@.len() - j,
    {
        let ghost before = body@;
        let ghost old_j = j;
        if c[j] == '\\' {
            body.push('\\');
            if j + 1 < c.len() {
                body.push(c[j + 1]);
                j = j + 2;
                proof {
                    let (b, e) = class_body(c@, j as nat);
                    assert(body@ + b =~= before + (seq!['\\', c@[old_j + 1]] + b));
                }
            } else {
                proof {
                    assert(body@ =~= before + seq!['\\']);
                }
                return (body, c.len());
            }
        } else if c[j] == ']' {
            proof {
                assert(body@ + Seq::<char>::empty() =~= body@);
            }
            return (body, j + 1);
        } else {
            body.push(c[j]);
            j = j + 1;
            proof {
                let (b, e) = class_body(c@, j as nat);
                assert(body@ + b =~= before + (seq![c@[old_j as int]] + b));
            }
        }
    }
    assert(body@ + Seq::<char>::empty() =~= body@);
    (body, c.len())
}

fn drop_slashes_exec(s: &[char]) -> (r: Vec<char>)
    ensures
        r@ == drop_slashes(s@),
{
    let mut r: Vec<char> = Vec::new();
    let mut i: usize = 0;
    while i < s.len()
        invariant
            i <= s@.len(),
            r@ == drop_slashes(s@.take(i as int)),
        decreases s@.len() - i,
    {
        proof {
            assert(s@.take(i + 1).drop_last() =~= s@.take(i as int));
        }
        if s[i] != '/' {
            r.push(s[i]);
        }
        i = i + 1;
    }
    assert(s@.take(s@.len() as int) =~= s@);
    r
}

/// Keeps bracket expressions from matching `/`: a negated class gains a `/`
/// it lacks, any other class loses its `/`.
pub fn confine_char_classes(c: &[char]) -> (out: Vec<char>)
    ensures
        out@ == confine_from(c@, 0),
{
    let mut out: Vec<char> = Vec::new();
    let mut i: usize = 0;
    while i < c.len()
        invariant
            i <= c@.len(),
            out@ + confine_from(c@, i as nat) == confine_from(c@, 0),
        decreases c@.len() - i,
    {
        let ghost before = out@;
        let ghost old_i = i;
        if c[i] == '[' {
            out.push('[');
            let neg = i + 1 < c.len() && c[i + 1] == '!';
            let k = if neg {
                out.push('!');
                i + 2
            } else {
                i + 1
            };
            let (body, e) = class_body_exec(c, k);
            proof {
                lemma_class_body(c@, k as nat);
            }
            let inner = if neg {
                if super::token::contains_char(&body, '/') {
                    body
                } else {
                    let mut b = body;
                    b.push('/');
                    b
                }
            } else {
                drop_slashes_exec(&body)
            };
            super::text::push_chars(&mut out, &inner);
            out.push(']');
            i = e;
        } else {
            out.push(c[i]);
            i = i + 1;
        }
        proof {
            assert(out@ + confine_from(c@, i as nat) =~= before + confine_from(c@, old_i as nat));
        }
    }
    assert(out@ + Seq::<char>::empty() =~= out@);
    out
}

/// The first pass over a pattern, which copies it: escapes, bracket
/// expressions and `**` are carried over whole, and no character changes.
pub fn translate(c: &[char]) -> (out: Vec<char>)
    ensures
        out@ == c@,
{
    let mut out: Vec<char> = Vec::new();
    let mut i: usize = 0;
    while i < c.len()
        invariant
            i <= c@.len(),
            out@ == c@.take(i as int),
        decreases c@.len() - i,
    {
        let ghost start = i;
        let ch = c[i];
        out.push(ch);
        i = i + 1;
        if ch == '\\' {
            if i < c.len() {
                out.push(c[i]);
                i = i + 1;
            }
        } else if ch == '[' {
            let ghost i0 = i;
            while i < c.len()
                invariant
                    i0 <= i <= c@.len(),
                    out@ == c@.take(i as int),
                decreases c@.len() - i,
            {
                let d = c[i];
                out.push(d);
                i = i + 1;
                assert(out@ =~= c@.take(i as int));
                if d == '\\' {
                    if i < c.len() {
                        out.push(c[i]);
                        i = i + 1;
                        assert(out@ =~= c@.take(i as int));
                    }
                    continue;
                }
                if d == ']' {
                    break;
                }
            }
        } else if ch == '*' {
            if i < c.len() && c[i] == '*' {
                out.push('*');
                i = i + 1;
            }
        }
        assert(out@ =~= c@.take(i as int));
        assert(i > start);
    }
    assert(c@.take(c@.len() as int) =~= c@);
    out
}

/// The globset glob an rsync pattern becomes: `\\[` and `\\]` are set
/// aside, POSIX classes expanded, classes kept from matching `/`, and the
/// escaped brackets restored.
pub open spec fn glob_of(pat: Seq<char>) -> Seq<char> {
    let t = replace_pair(replace_pair(pat, '\\', '[', '\u{1}'), '\\', ']', '\u{2}');
    let p = confine_from(posix_from(t, 0, false), 0);
    expand_char(expand_char(p, '\u{1}', '\\', '['), '\u{2}', '\\', ']')
}

/// The error a pattern whose glob cannot be used gives: globset's, or an
/// invalid rule for a glob of `MAX_GLOB_LEN` characters or more.
pub open spec fn glob_err(pat: Seq<char>) -> ErrV {
    if glob_of(pat).len() < MAX_GLOB_LEN {
        ErrV::Glob
    } else {
        ErrV::InvalidRule(pat)
    }
}

/// Compiles an rsync pattern into the glob that matches it. A glob that
/// globset refuses gives globset's error; a glob of `MAX_GLOB_LEN`
/// characters or more is refused as an invalid rule.
pub fn compile_glob(pat: &str) -> (r: Result<String, ParseError>)
    ensures
        match r {
            Ok(g) => g@ == glob_of(pat@) && glob_ok(g@),
            Err(e) => !glob_ok(glob_of(pat@)) && e@ == glob_err(pat@),
        },
{
    let c = chars_of(pat);
    let c = translate(&c);
    let t = replace_pair_exec(&c, '\\', '[', '\u{1}');
    let t = replace_pair_exec(&t, '\\', ']', '\u{2}');
    let p = expand_posix_classes(&t);
    let p = confine_char_classes(&p);
    let p = expand_char_exec(&p, '\u{1}', '\\', '[');
    let p = expand_char_exec(&p, '\u{2}', '\\', ']');
    if p.len() >= MAX_GLOB_LEN {
        return Err(ParseError::InvalidRule(pat.to_string()));
    }
    let g = string_of(&p);
    match build_glob(g.as_str()) {
        Ok(()) => Ok(g),
        Err(e) => Err(ParseError::Glob(e)),
    }
}

/// Whether the bracket-expression text `t` admits `c`: `x-y` admits the
/// characters from `x` to `y`, `\x` admits `x`, and any other character
/// admits itself.
pub open spec fn class_has(t: Seq<char>, c: char) -> bool
    decreases t.len(),
{
    if t.len() == 0 {
        false
    } else if t[0] == '\\' && t.len() >= 2 {
        t[1] == c || class_has(t.skip(2), c)
    } else if t.len() >= 3 && t[1] == '-' {
        ((t[0] as u32) <= (c as u32) && (c as u32) <= (t[2] as u32)) || class_has(t.skip(3), c)
    } else {
        t[0] == c || class_has(t.skip(1), c)
    }
}

/// The POSIX character classes of the C locale, by character code.
pub open spec fn posix_set(name: Seq<char>, c: char) -> bool {
    let v = c as u32;
    let digit = 48 <= v <= 57;
    let upper = 65 <= v <= 90;
    let lower = 97 <= v <= 122;
    let graph = 33 <= v <= 126;
    if name == "alnum"@ {
        digit || upper || lower
    } else if name == "alpha"@ {
        upper || lower
    } else if name == "digit"@ {
        digit
    } else if name == "lower"@ {
        lower
    } else if name == "upper"@ {
        upper
    } else if name == "xdigit"@ {
        digit || 65 <= v <= 70 || 97 <= v <= 102
    } else if name == "space"@ {
        9 <= v <= 13 || v == 32
    } else if name == "punct"@ {
        graph && !(digit || upper || lower)
    } else if name == "blank"@ {
        v == 9 || v == 32
    } else if name == "cntrl"@ {
        v <= 31 || v == 127
    } else if name == "graph"@ {
        graph
    } else if name == "print"@ {
        32 <= v <= 126
    } else {
        false
    }
}

/// Each POSIX class a pattern names inside brackets becomes a bracket text
/// that admits exactly the characters of that class: `[:digit:]` admits
/// the ten digits `0` to `9`, `[:alpha:]` the ASCII letters, and so on.
#[verifier::spinoff_prover]
#[verifier::rlimit(60)]
pub proof fn lemma_posix_classes_admit_their_sets(name: Seq<char>, c: char)
    ensures
        match posix_class(name) {
            Some(t) => class_has(t, c) <==> posix_set(name, c),
            None => true,
        },
{
    reveal_strlit("alnum");
    reveal_strlit("alpha");
    reveal_strlit("digit");
    reveal_strlit("lower");
    reveal_strlit("upper");
    reveal_strlit("xdigit");
    reveal_strlit("space");
    reveal_strlit("punct");
    reveal_strlit("blank");
    reveal_strlit("cntrl");
    reveal_strlit("graph");
    reveal_strlit("print");
    reveal_strlit("0-9A-Za-z");
    reveal_strlit("A-Za-z");
    reveal_strlit("0-9");
    reveal_strlit("a-z");
    reveal_strlit("A-Z");
    reveal_strlit("0-9A-Fa-f");
    reveal_strlit("\t\n\r\x0B\x0C ");
    reveal_strlit("!\"#$%&'()*+,\\-./:;<=>?@\\[\\\\\\]\\^_`{|}~");
    reveal_strlit("\t ");
    reveal_strlit("\x00-\x1F\x7F");
    reveal_strlit("!-~");
    reveal_strlit(" -~");
    reveal_with_fuel(class_has, 40);
}

} // verus!
