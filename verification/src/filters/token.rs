//! Tokens of the rule syntax: merge-rule modifiers, rule kinds, and the
//! split of a modifier run from the rest of a rule.

use vstd::prelude::*;

use super::rule::PerDir;
use super::text::{chars_of, is_whitespace, is_ws};

verus! {

/// A modifier of a merge rule that changes how its file is read.
#[derive(Clone, Copy, Debug, PartialEq, Eq, Structural)]
pub enum MergeModifier {
    IncludeOnly,
    ExcludeOnly,
    NoInherit,
    WordSplit,
    CvsMode,
}

/// The per-directory merge description after `m` is applied to `pd`.
pub open spec fn apply_modifier(m: MergeModifier, pd: PerDir) -> PerDir {
    match m {
        MergeModifier::IncludeOnly => PerDir { sign: Some('+'), ..pd },
        MergeModifier::ExcludeOnly => PerDir { sign: Some('-'), ..pd },
        MergeModifier::NoInherit => PerDir { inherit: false, ..pd },
        MergeModifier::WordSplit => PerDir { word_split: true, ..pd },
        MergeModifier::CvsMode => PerDir { cvs: true, ..pd },
    }
}

impl MergeModifier {
    /// Records this modifier in `pd`.
    pub fn apply(self, pd: &mut PerDir)
        ensures
            *final(pd) == apply_modifier(self, *old(pd)),
    {
        match self {
            MergeModifier::IncludeOnly => pd.sign = Some('+'),
            MergeModifier::ExcludeOnly => pd.sign = Some('-'),
            MergeModifier::NoInherit => pd.inherit = false,
            MergeModifier::WordSplit => pd.word_split = true,
            MergeModifier::CvsMode => pd.cvs = true,
        }
    }
}

/// What a pattern rule does with the paths it matches.
#[derive(Clone, Copy, Debug, PartialEq, Eq, Structural)]
pub enum RuleKind {
    Include,
    Exclude,
    Protect,
}

/// The end of the run of `allowed` characters in `s` that starts at `i`.
pub open spec fn mods_end(s: Seq<char>, allowed: Seq<char>, i: nat) -> nat
    decreases s.len() - i,
{
    if i < s.len() && allowed.contains(s[i as int]) {
        mods_end(s, allowed, i + 1)
    } else {
        i
    }
}

pub proof fn lemma_mods_end(s: Seq<char>, allowed: Seq<char>, i: nat)
    requires
        i <= s.len(),
    ensures
        i <= mods_end(s, allowed, i) <= s.len(),
        forall|j: int| i <= j < mods_end(s, allowed, i) ==> allowed.contains(s[j]),
    decreases s.len() - i,
{
    if i < s.len() && allowed.contains(s[i as int]) {
        lemma_mods_end(s, allowed, i + 1);
    }
}

/// Where the modifiers of `s` end and where the rest begins: a leading
/// whitespace character means no modifiers; otherwise an optional `,` and
/// a run of `allowed` characters, then one space or tab is skipped.
pub open spec fn split_mods_at(s: Seq<char>, allowed: Seq<char>) -> (nat, nat) {
    if s.len() == 0 {
        (0, 0)
    } else if is_ws(s[0]) {
        (0, 1)
    } else {
        let start: nat = if s[0] == ',' {
            1
        } else {
            0
        };
        let idx = mods_end(s, allowed, start);
        if idx < s.len() && (s[idx as int] == ' ' || s[idx as int] == '\t') {
            (idx, idx + 1)
        } else {
            (idx, idx)
        }
    }
}

/// The modifiers of `s` and the rest of it.
pub open spec fn split_mods_spec(s: Seq<char>, allowed: Seq<char>) -> (Seq<char>, Seq<char>) {
    let (m, r) = split_mods_at(s, allowed);
    (s.take(m as int), s.skip(r as int))
}

pub open spec fn all_ascii(s: Seq<char>) -> bool {
    forall|i: int| 0 <= i < s.len() ==> (s[i] as u32) < 128
}

/// Where the modifiers of `s` end and where the rest begins.
pub fn split_mods_index(s: &[char], allowed: &[char]) -> (r: (usize, usize))
    ensures
        r.0 == split_mods_at(s@, allowed@).0,
        r.1 == split_mods_at(s@, allowed@).1,
        r.0 <= r.1 <= s@.len(),
{
    if s.len() == 0 {
        return (0, 0);
    }
    if is_whitespace(s[0]) {
        return (0, 1);
    }
    let mut idx: usize = if s[0] == ',' {
        1
    } else {
        0
    };
    let ghost start = idx as nat;
    proof {
        lemma_mods_end(s@, allowed@, start);
    }
    while idx < s.len() && contains_char(allowed, s[idx])
        invariant
            start <= idx <= s@.len(),
            mods_end(s@, allowed@, idx as nat) == mods_end(s@, allowed@, start),
        decreases s@.len() - idx,
    {
        idx = idx + 1;
    }
    if idx < s.len() && (s[idx] == ' ' || s[idx] == '\t') {
        (idx, idx + 1)
    } else {
        (idx, idx)
    }
}

/// Whether `c` occurs in `s`.
pub fn contains_char(s: &[char], c: char) -> (r: bool)
    ensures
        r == s@.contains(c),
{
    let mut i: usize = 0;
    while i < s.len()
        invariant
            i <= s@.len(),
            forall|j: int| 0 <= j < i ==> s@[j] != c,
        decreases s@.len() - i,
    {
        if s[i] == c {
            assert(s@[i as int] == c);
            return true;
        }
        i = i + 1;
    }
    false
}

/// The UTF-8 bytes of `c`.
pub open spec fn utf8_bytes(c: char) -> Seq<u8> {
    let v = c as u32;
    if v < 0x80 {
        seq![v as u8]
    } else if v < 0x800 {
        seq![(0xC0 + v / 64) as u8, (0x80 + v % 64) as u8]
    } else if v < 0x10000 {
        seq![(0xE0 + v / 4096) as u8, (0x80 + (v / 64) % 64) as u8, (0x80 + v % 64) as u8]
    } else {
        seq![
            (0xF0 + v / 262144) as u8,
            (0x80 + (v / 4096) % 64) as u8,
            (0x80 + (v / 64) % 64) as u8,
            (0x80 + v % 64) as u8,
        ]
    }
}

/// The UTF-8 bytes of the text `s`.
pub open spec fn utf8_of(s: Seq<char>) -> Seq<u8>
    decreases s.len(),
{
    if s.len() == 0 {
        Seq::empty()
    } else {
        utf8_of(s.drop_last()) + utf8_bytes(s.last())
    }
}

/// Whether every byte of `c` is a byte of the text `allowed`.
pub open spec fn bytes_taken(c: char, allowed: Seq<char>) -> bool {
    forall|k: int| 0 <= k < utf8_bytes(c).len() ==> utf8_of(allowed).contains(
        #[trigger] utf8_bytes(c)[k],
    )
}

/// The end of the run, from `i`, of characters of `s` all of whose bytes
/// are bytes of `allowed`.
pub open spec fn byte_mods_end(s: Seq<char>, allowed: Seq<char>, i: nat) -> nat
    decreases s.len() - i,
{
    if i < s.len() && bytes_taken(s[i as int], allowed) {
        byte_mods_end(s, allowed, i + 1)
    } else {
        i
    }
}

/// Where the modifiers end and the rest begins when modifiers are compared
/// byte by byte with the bytes of `allowed`; see `split_mods_at`.
pub open spec fn byte_split_at(s: Seq<char>, allowed: Seq<char>) -> (nat, nat) {
    if s.len() == 0 {
        (0, 0)
    } else if is_ws(s[0]) {
        (0, 1)
    } else {
        let start: nat = if s[0] == ',' {
            1
        } else {
            0
        };
        let idx = byte_mods_end(s, allowed, start);
        if idx < s.len() && (s[idx as int] == ' ' || s[idx as int] == '\t') {
            (idx, idx + 1)
        } else {
            (idx, idx)
        }
    }
}

/// Whether the byte-wise run of modifiers would stop inside a character of
/// `s`: the character it stops at starts with a byte of `allowed` but has
/// another byte that is not one. Slicing there panics.
pub open spec fn split_inside_char(s: Seq<char>, allowed: Seq<char>) -> bool {
    &&& s.len() > 0
    &&& !is_ws(s[0])
    &&& {
        let start: nat = if s[0] == ',' {
            1
        } else {
            0
        };
        let idx = byte_mods_end(s, allowed, start);
        idx < s.len() && utf8_of(allowed).contains(utf8_bytes(s[idx as int])[0])
    }
}

/// The UTF-8 bytes of `c`.
fn encode_char(c: char) -> (r: Vec<u8>)
    ensures
        r@ == utf8_bytes(c),
{
    let v = c as u32;
    let mut r: Vec<u8> = Vec::new();
    if v < 0x80 {
        r.push(v as u8);
    } else if v < 0x800 {
        r.push((0xC0 + v / 64) as u8);
        r.push((0x80 + v % 64) as u8);
    } else if v < 0x10000 {
        r.push((0xE0 + v / 4096) as u8);
        r.push((0x80 + (v / 64) % 64) as u8);
        r.push((0x80 + v % 64) as u8);
    } else {
        r.push((0xF0 + v / 262144) as u8);
        r.push((0x80 + (v / 4096) % 64) as u8);
        r.push((0x80 + (v / 64) % 64) as u8);
        r.push((0x80 + v % 64) as u8);
    }
    assert(r@ =~= utf8_bytes(c));
    r
}

/// The UTF-8 bytes of `s`.
fn encode_chars(s: &[char]) -> (r: Vec<u8>)
    ensures
        r@ == utf8_of(s@),
{
    let mut r: Vec<u8> = Vec::new();
    let mut i: usize = 0;
    while i < s.len()
        invariant
            i <= s@.len(),
            r@ == utf8_of(s@.take(i as int)),
        decreases s@.len() - i,
    {
        let b = encode_char(s[i]);
        let mut k: usize = 0;
        let ghost before = r@;
        while k < b.len()
            invariant
                k <= b@.len(),
                r@ == before + b@.take(k as int),
            decreases b@.len() - k,
        {
            r.push(b[k]);
            k = k + 1;
            assert(r@ =~= before + b@.take(k as int));
        }
        proof {
            assert(b@.take(b@.len() as int) =~= b@);
            assert(s@.take(i + 1).drop_last() =~= s@.take(i as int));
        }
        i = i + 1;
    }
    assert(s@.take(s@.len() as int) =~= s@);
    r
}

fn contains_byte(v: &Vec<u8>, b: u8) -> (r: bool)
    ensures
        r == v@.contains(b),
{
    let mut i: usize = 0;
    while i < v.len()
        invariant
            i <= v@.len(),
            forall|j: int| 0 <= j < i ==> v@[j] != b,
        decreases v@.len() - i,
    {
        if v[i] == b {
            assert(v@[i as int] == b);
            return true;
        }
        i = i + 1;
    }
    false
}

fn bytes_taken_exec(c: char, ab: &Vec<u8>, Ghost(allowed): Ghost<Seq<char>>) -> (r: bool)
    requires
        ab@ == utf8_of(allowed),
    ensures
        r == bytes_taken(c, allowed),
{
    let b = encode_char(c);
    let mut k: usize = 0;
    while k < b.len()
        invariant
            k <= b@.len(),
            b@ == utf8_bytes(c),
            ab@ == utf8_of(allowed),
            forall|j: int| 0 <= j < k ==> utf8_of(allowed).contains(#[trigger] utf8_bytes(c)[j]),
        decreases b@.len() - k,
    {
        if !contains_byte(ab, b[k]) {
            return false;
        }
        k = k + 1;
    }
    true
}

/// Splits a rule body into its modifiers (characters of `allowed`, after an
/// optional `,`) and the rest, from which one separating space or tab is
/// dropped. A body that starts with whitespace has no modifiers.
///
/// Modifiers are compared byte by byte with the UTF-8 of `allowed`, so a
/// character is taken when each of its bytes occurs in `allowed`. When `allowed`
/// or `s` is ASCII this is the same as comparing characters. Where the run
/// would stop inside a character, slicing the text panics; those inputs
/// (`split_inside_char`) are left out.
pub fn split_mods<'a>(s: &'a str, allowed: &str) -> (r: (&'a str, &'a str))
    requires
        !split_inside_char(s@, allowed@),
    ensures
        r.0@ == s@.take(byte_split_at(s@, allowed@).0 as int),
        r.1@ == s@.skip(byte_split_at(s@, allowed@).1 as int),
{
    let sc = chars_of(s);
    let n = sc.len();
    if n == 0 {
        proof {
            assert(s@.take(0) =~= s@);
            assert(s@.skip(0) =~= s@);
        }
        return (s.substring_char(0, 0), s.substring_char(0, 0));
    }
    if is_whitespace(sc[0]) {
        proof {
            assert(s@.subrange(1, n as int) =~= s@.skip(1));
            assert(s@.subrange(0, 0) =~= s@.take(0));
        }
        return (s.substring_char(0, 0), s.substring_char(1, n));
    }
    let ac = chars_of(allowed);
    let ab = encode_chars(&ac);
    let mut idx: usize = if sc[0] == ',' {
        1
    } else {
        0
    };
    let ghost start = idx as nat;
    while idx < n && bytes_taken_exec(sc[idx], &ab, Ghost(allowed@))
        invariant
            start <= idx <= s@.len(),
            n == s@.len(),
            sc@ == s@,
            ab@ == utf8_of(allowed@),
            byte_mods_end(s@, allowed@, idx as nat) == byte_mods_end(s@, allowed@, start),
        decreases s@.len() - idx,
    {
        idx = idx + 1;
    }
    let rest = if idx < n && (sc[idx] == ' ' || sc[idx] == '\t') {
        idx + 1
    } else {
        idx
    };
    proof {
        assert(s@.subrange(0, idx as int) =~= s@.take(idx as int));
        assert(s@.subrange(rest as int, n as int) =~= s@.skip(rest as int));
    }
    (s.substring_char(0, idx), s.substring_char(rest, n))
}

/// When `allowed` is ASCII, comparing bytes is comparing characters: the
/// byte-wise split is the split of `split_mods_at`, and it never stops
/// inside a character.
pub proof fn lemma_ascii_split_by_chars(s: Seq<char>, allowed: Seq<char>)
    requires
        all_ascii(allowed),
    ensures
        byte_split_at(s, allowed) == split_mods_at(s, allowed),
        !split_inside_char(s, allowed),
{
    lemma_ascii_bytes(allowed);
    assert forall|c: char| bytes_taken(c, allowed) <==> allowed.contains(c) by {
        lemma_ascii_taken(c, allowed);
    }
    assert forall|c: char| utf8_of(allowed).contains(#[trigger] utf8_bytes(c)[0])
        ==> bytes_taken(c, allowed) by {
        lemma_ascii_taken(c, allowed);
    }
    if s.len() > 0 && !is_ws(s[0]) {
        let start: nat = if s[0] == ',' {
            1
        } else {
            0
        };
        lemma_mods_ends_agree(s, allowed, start);
    }
}

proof fn lemma_mods_ends_agree(s: Seq<char>, allowed: Seq<char>, i: nat)
    requires
        forall|c: char| bytes_taken(c, allowed) <==> allowed.contains(c),
    ensures
        byte_mods_end(s, allowed, i) == mods_end(s, allowed, i),
        byte_mods_end(s, allowed, i) < s.len() ==> !bytes_taken(
            s[byte_mods_end(s, allowed, i) as int],
            allowed,
        ),
    decreases s.len() - i,
{
    if i < s.len() && bytes_taken(s[i as int], allowed) {
        lemma_mods_ends_agree(s, allowed, i + 1);
    }
}

/// The bytes of an ASCII text are its characters.
proof fn lemma_ascii_bytes(allowed: Seq<char>)
    requires
        all_ascii(allowed),
    ensures
        utf8_of(allowed).len() == allowed.len(),
        forall|j: int| 0 <= j < allowed.len() ==> #[trigger] utf8_of(allowed)[j] as u32 == allowed[j] as u32,
    decreases allowed.len(),
{
    if allowed.len() > 0 {
        let t = allowed.drop_last();
        assert forall|i: int| 0 <= i < t.len() implies (t[i] as u32) < 128 by {
            assert(t[i] == allowed[i]);
        }
        lemma_ascii_bytes(t);
        assert((allowed.last() as u32) < 128);
        assert forall|j: int| 0 <= j < allowed.len() implies #[trigger] utf8_of(allowed)[j] as u32
            == allowed[j] as u32 by {
            if j < t.len() {
                assert(utf8_of(allowed)[j] == utf8_of(t)[j]);
                assert(t[j] == allowed[j]);
            }
        }
    }
}

/// Characters with the same code are equal.
proof fn lemma_char_u32_eq(a: char, b: char)
    requires
        a as u32 == b as u32,
    ensures
        a == b,
{
    assert(a as int == b as int);
}

/// For ASCII `allowed`, a character is taken exactly when it is one of
/// `allowed`, and a character whose first byte occurs in `allowed` is taken.
proof fn lemma_ascii_taken(c: char, allowed: Seq<char>)
    requires
        all_ascii(allowed),
        utf8_of(allowed).len() == allowed.len(),
        forall|j: int| 0 <= j < allowed.len() ==> #[trigger] utf8_of(allowed)[j] as u32 == allowed[j] as u32,
    ensures
        bytes_taken(c, allowed) <==> allowed.contains(c),
        utf8_of(allowed).contains(utf8_bytes(c)[0]) ==> bytes_taken(c, allowed),
{
    let v = c as u32;
    let ab = utf8_of(allowed);
    if v < 0x80 {
        assert(utf8_bytes(c)[0] as u32 == v);
        if allowed.contains(c) {
            let j = choose|j: int| 0 <= j < allowed.len() && allowed[j] == c;
            assert(ab[j] as u32 == v);
            assert(ab[j] == utf8_bytes(c)[0]);
        }
        if ab.contains(utf8_bytes(c)[0]) {
            let j = choose|j: int| 0 <= j < ab.len() && ab[j] == utf8_bytes(c)[0];
            assert(utf8_of(allowed)[j] as u32 == allowed[j] as u32);
            assert(ab[j] as u32 == v);
            assert(allowed[j] as u32 == v);
            lemma_char_u32_eq(allowed[j], c);
            assert(allowed.contains(c));
        }
    } else {
        assert(utf8_bytes(c)[0] >= 0xC0);
        if ab.contains(utf8_bytes(c)[0]) {
            let j = choose|j: int| 0 <= j < ab.len() && ab[j] == utf8_bytes(c)[0];
            assert((allowed[j] as u32) < 128);
        }
        assert(!bytes_taken(c, allowed));
        if allowed.contains(c) {
            let j = choose|j: int| 0 <= j < allowed.len() && allowed[j] == c;
            assert((allowed[j] as u32) < 128);
        }
    }
}

} // verus!
