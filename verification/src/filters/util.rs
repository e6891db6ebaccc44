//! Line-level helpers of the rule syntax: the decoding of one line with its
//! escapes and comments, the trimming of line ends, and lists of patterns.

use vstd::prelude::*;

use super::text::{chars_of, is_whitespace, is_ws, lines, lines_of, string_of, views_of};

verus! {

/// Where the scan of a line stands after some of its characters.
pub struct DecodeScan {
    pub out: Seq<char>,
    pub escaped: bool,
    pub started: bool,
    /// The length of `out` up to its last character that must be kept.
    pub keep: nat,
    /// A comment was seen before the line started.
    pub comment: bool,
}

pub open spec fn decode_scan_init() -> DecodeScan {
    DecodeScan { out: Seq::empty(), escaped: false, started: false, keep: 0, comment: false }
}

/// One character of the scan: a backslash escapes the next character
/// (which is kept as it is), leading whitespace is skipped, a `#` before
/// the line starts makes it a comment, and trailing whitespace is not kept.
pub open spec fn decode_step(st: DecodeScan, c: char) -> DecodeScan {
    if st.comment {
        st
    } else if st.escaped {
        DecodeScan { out: st.out.push(c), escaped: false, keep: st.out.len() + 1, ..st }
    } else if !st.started {
        if is_ws(c) {
            st
        } else if c == '\\' {
            DecodeScan { escaped: true, ..st }
        } else if c == '#' {
            DecodeScan { comment: true, ..st }
        } else {
            DecodeScan { out: st.out.push(c), started: true, keep: st.out.len() + 1, ..st }
        }
    } else if c == '\\' {
        DecodeScan { escaped: true, ..st }
    } else {
        DecodeScan {
            out: st.out.push(c),
            keep: if is_ws(c) {
                st.keep
            } else {
                st.out.len() + 1
            },
            ..st
        }
    }
}

pub open spec fn decode_scan(raw: Seq<char>, n: nat) -> DecodeScan
    decreases n,
{
    if n == 0 {
        decode_scan_init()
    } else {
        decode_step(decode_scan(raw, (n - 1) as nat), raw[n - 1])
    }
}

/// The pattern a line holds, if any: `None` for a blank line or a comment.
/// A backslash at the very end is kept.
pub open spec fn decode_line_spec(raw: Seq<char>) -> Option<Seq<char>> {
    let st = decode_scan(raw, raw.len());
    if st.comment {
        None
    } else {
        let out = if st.escaped {
            st.out.push('\\')
        } else {
            st.out
        };
        let keep = if st.escaped {
            st.out.len() + 1
        } else {
            st.keep
        };
        let r = out.take(keep as int);
        if r.len() == 0 {
            None
        } else {
            Some(r)
        }
    }
}

/// The pattern a line holds, as characters.
pub fn decode_line_chars(raw: &[char]) -> (r: Option<Vec<char>>)
    ensures
        match r {
            Some(v) => decode_line_spec(raw@) == Some(v@),
            None => decode_line_spec(raw@) is None,
        },
{
    let mut out: Vec<char> = Vec::new();
    let mut escaped = false;
    let mut started = false;
    let mut keep: usize = 0;
    let mut i: usize = 0;
    while i < raw.len()
        invariant
            i <= raw@.len(),
            ({
                let st = decode_scan(raw@, i as nat);
                &&& !st.comment
                &&& st.out == out@
                &&& st.escaped == escaped
                &&& st.started == started
                &&& st.keep == keep
            }),
            keep <= out@.len(),
            out@.len() <= i,
        decreases raw@.len() - i,
    {
        let c = raw[i];
        if escaped {
            out.push(c);
            keep = out.len();
            escaped = false;
        } else if !started {
            if is_whitespace(c) {
            } else if c == '\\' {
                escaped = true;
            } else if c == '#' {
                proof {
                    assert(decode_scan(raw@, (i + 1) as nat).comment);
                    lemma_comment_stays(raw@, (i + 1) as nat, raw@.len());
                }
                return None;
            } else {
                started = true;
                out.push(c);
                keep = out.len();
            }
        } else if c == '\\' {
            escaped = true;
        } else {
            out.push(c);
            if !is_whitespace(c) {
                keep = out.len();
            }
        }
        i = i + 1;
    }
    if escaped {
        out.push('\\');
        keep = out.len();
    }
    out.truncate(keep);
    if out.len() == 0 {
        None
    } else {
        Some(out)
    }
}

proof fn lemma_comment_stays(raw: Seq<char>, n: nat, m: nat)
    requires
        n <= m,
        decode_scan(raw, n).comment,
    ensures
        decode_scan(raw, m).comment,
    decreases m - n,
{
    if n < m {
        lemma_comment_stays(raw, n, (m - 1) as nat);
    }
}

/// The pattern a line holds: leading whitespace skipped, trailing
/// whitespace dropped, backslash escapes resolved, and `None` for a blank
/// line or a line whose first character is `#`.
pub fn decode_line(raw: &str) -> (r: Option<String>)
    ensures
        match r {
            Some(s) => decode_line_spec(raw@) == Some(s@),
            None => decode_line_spec(raw@) is None,
        },
{
    let c = chars_of(raw);
    match decode_line_chars(&c) {
        Some(v) => Some(string_of(&v)),
        None => None,
    }
}

/// `s` without its trailing `'\\n'` and `'\\r'` bytes.
pub open spec fn trim_newlines_spec(s: Seq<u8>) -> Seq<u8>
    decreases s.len(),
{
    if s.len() > 0 && (s.last() == 10u8 || s.last() == 13u8) {
        trim_newlines_spec(s.drop_last())
    } else {
        s
    }
}

/// `s` without its trailing `'\\n'` and `'\\r'` bytes.
pub fn trim_newlines(s: &[u8]) -> (r: &[u8])
    ensures
        r@ == trim_newlines_spec(s@),
{
    let mut n = s.len();
    assert(s@.take(n as int) =~= s@);
    while n > 0 && (s[n - 1] == 10 || s[n - 1] == 13)
        invariant
            n <= s@.len(),
            trim_newlines_spec(s@.take(n as int)) == trim_newlines_spec(s@),
        decreases n,
    {
        proof {
            assert(s@.take(n as int).drop_last() =~= s@.take(n - 1));
        }
        n = n - 1;
    }
    proof {
        assert(s@.take(n as int) =~= s@.subrange(0, n as int));
        assert(s@.take(s@.len() as int) =~= s@);
    }
    s.split_at(n).0
}

/// What `String::from_utf8_lossy` makes of `bytes`: the text they encode,
/// with U+FFFD in place of each invalid sequence.
pub uninterp spec fn utf8_lossy(bytes: Seq<u8>) -> Seq<char>;

/// `String::from_utf8_lossy`, as characters. The standard library documents
/// that valid UTF-8 comes back as the text it encodes; what replaces an
/// invalid sequence is not stated here beyond the name `utf8_lossy`.
#[verifier::external_body]
pub(crate) fn decode_utf8_lossy(bytes: &[u8]) -> (r: Vec<char>)
    ensures
        r@ == utf8_lossy(bytes@),
        vstd::utf8::valid_utf8(bytes@) ==> r@ == vstd::utf8::decode_utf8(bytes@),
{
    String::from_utf8_lossy(bytes).chars().collect()
}

/// The text `bytes` stand for, as `String::from_utf8_lossy` gives it: for
/// valid UTF-8, the characters it encodes.
pub open spec fn lossy_text(bytes: Seq<u8>) -> Seq<char> {
    if vstd::utf8::valid_utf8(bytes) {
        vstd::utf8::decode_utf8(bytes)
    } else {
        utf8_lossy(bytes)
    }
}

/// The text `bytes` stand for (see `lossy_text`).
pub fn decode_text(bytes: &[u8]) -> (r: Vec<char>)
    ensures
        r@ == lossy_text(bytes@),
{
    decode_utf8_lossy(bytes)
}

/// The parts of `s` between `sep` bytes, from index `start` on, as
/// `slice::split` gives them: `n` separators make `n + 1` parts.
pub open spec fn split_parts(s: Seq<u8>, sep: u8, start: nat) -> Seq<Seq<u8>>
    decreases s.len() + 1 - start,
{
    if start > s.len() {
        Seq::empty()
    } else {
        let e = find_byte(s, sep, start);
        if e >= s.len() {
            seq![s.subrange(start as int, s.len() as int)]
        } else {
            proof {
                lemma_find_byte(s, sep, start);
            }
            seq![s.subrange(start as int, e as int)] + split_parts(s, sep, e + 1)
        }
    }
}

pub open spec fn find_byte(s: Seq<u8>, c: u8, i: nat) -> nat
    decreases s.len() - i,
{
    if i >= s.len() {
        s.len()
    } else if s[i as int] == c {
        i
    } else {
        find_byte(s, c, i + 1)
    }
}

pub proof fn lemma_find_byte(s: Seq<u8>, c: u8, i: nat)
    requires
        i <= s.len(),
    ensures
        i <= find_byte(s, c, i) <= s.len(),
    decreases s.len() - i,
{
    if i < s.len() && s[i as int] != c {
        lemma_find_byte(s, c, i + 1);
    }
}

/// The index of the first `c` at or after `i` in `s`, or `s.len()`.
pub fn find_byte_from(s: &[u8], c: u8, i: usize) -> (r: usize)
    requires
        i <= s@.len(),
    ensures
        r == find_byte(s@, c, i as nat),
        i <= r <= s@.len(),
{
    let mut j = i;
    while j < s.len() && s[j] != c
        invariant
            i <= j <= s@.len(),
            find_byte(s@, c, j as nat) == find_byte(s@, c, i as nat),
        decreases s@.len() - j,
    {
        j = j + 1;
    }
    j
}

/// The non-empty NUL-separated items of `parts`, line ends trimmed, as text.
pub open spec fn nul_items(parts: Seq<Seq<u8>>) -> Seq<Seq<char>>
    decreases parts.len(),
{
    if parts.len() == 0 {
        Seq::empty()
    } else {
        let rest = nul_items(parts.drop_last());
        let t = trim_newlines_spec(parts.last());
        if t.len() == 0 {
            rest
        } else {
            rest.push(lossy_text(t))
        }
    }
}

/// The patterns that the lines hold, in order.
pub open spec fn decoded_lines(ls: Seq<Seq<char>>) -> Seq<Seq<char>>
    decreases ls.len(),
{
    if ls.len() == 0 {
        Seq::empty()
    } else {
        let rest = decoded_lines(ls.drop_last());
        match decode_line_spec(ls.last()) {
            Some(p) => rest.push(p),
            None => rest,
        }
    }
}

/// The patterns of a list: with `from0`, the NUL-separated items; else the
/// decoded lines of the text.
pub open spec fn parse_list_spec(input: Seq<u8>, from0: bool) -> Seq<Seq<char>> {
    if from0 {
        nul_items(split_parts(input, 0, 0))
    } else {
        decoded_lines(lines(lossy_text(input)))
    }
}

pub open spec fn strings_view(v: Seq<String>) -> Seq<Seq<char>> {
    v.map_values(|s: String| s@)
}

/// The NUL-separated parts of `input`.
pub(crate) fn split_nul(input: &[u8]) -> (r: Vec<Vec<u8>>)
    ensures
        r@.map_values(|p: Vec<u8>| p@) == split_parts(input@, 0, 0),
{
    let mut r: Vec<Vec<u8>> = Vec::new();
    let mut start: usize = 0;
    loop
        invariant
            start <= input@.len(),
            r@.map_values(|p: Vec<u8>| p@) + split_parts(input@, 0, start as nat) == split_parts(
                input@,
                0,
                0,
            ),
        decreases input@.len() - start,
    {
        let e = find_byte_from(input, 0, start);
        let part = super::super::filelist::bytes::copy_range(input, start, e);
        let ghost before = r@.map_values(|p: Vec<u8>| p@);
        let ghost rest = split_parts(input@, 0, start as nat);
        r.push(part);
        proof {
            assert(r@.map_values(|p: Vec<u8>| p@) =~= before.push(part@));
        }
        if e >= input.len() {
            proof {
                assert(rest =~= seq![part@]);
                assert(r@.map_values(|p: Vec<u8>| p@) =~= before + rest);
                assert(split_parts(input@, 0, (input@.len() + 1) as nat) =~= Seq::<Seq<u8>>::empty());
            }
            assert(r@.map_values(|p: Vec<u8>| p@) =~= split_parts(input@, 0, 0));
            return r;
        }
        proof {
            assert(before + rest =~= r@.map_values(|p: Vec<u8>| p@) + split_parts(
                input@,
                0,
                (e + 1) as nat,
            ));
        }
        start = e + 1;
    }
}

/// The patterns of a list. With `from0` the items are separated by NUL
/// bytes, and each loses its trailing line-end bytes; otherwise each line is
/// decoded as a rule line is. Blank items and comment lines give nothing.
pub fn parse_list(input: &[u8], from0: bool) -> (r: Vec<String>)
    ensures
        strings_view(r@) == parse_list_spec(input@, from0),
{
    let mut out: Vec<String> = Vec::new();
    if from0 {
        let parts = split_nul(input);
        let ghost ps = split_parts(input@, 0, 0);
        let mut i: usize = 0;
        while i < parts.len()
            invariant
                i <= parts@.len(),
                parts@.map_values(|p: Vec<u8>| p@) == ps,
                strings_view(out@) == nul_items(ps.take(i as int)),
            decreases parts@.len() - i,
        {
            let t = trim_newlines(parts[i].as_slice());
            proof {
                assert(ps.take(i + 1).drop_last() =~= ps.take(i as int));
                assert(ps.take(i + 1).last() == parts@[i as int]@);
            }
            if t.len() > 0 {
                let chars = decode_text(t);
                let ghost before = out@;
                out.push(string_of(&chars));
                proof {
                    assert(strings_view(out@) =~= strings_view(before).push(chars@));
                }
            }
            i = i + 1;
        }
        proof {
            assert(ps.take(parts@.len() as int) =~= ps);
        }
    } else {
        let text = decode_text(input);
        let ls = lines_of(&text);
        let ghost lv = lines(text@);
        let mut i: usize = 0;
        while i < ls.len()
            invariant
                i <= ls@.len(),
                views_of(ls@) == lv,
                strings_view(out@) == decoded_lines(lv.take(i as int)),
            decreases ls@.len() - i,
        {
            proof {
                assert(lv.take(i + 1).drop_last() =~= lv.take(i as int));
                assert(lv.take(i + 1).last() == ls@[i as int]@);
            }
            match decode_line_chars(ls[i].as_slice()) {
                Some(p) => {
                    let ghost before = out@;
                    out.push(string_of(&p));
                    proof {
                        assert(strings_view(out@) =~= strings_view(before).push(p@));
                    }
                },
                None => {},
            }
            i = i + 1;
        }
        proof {
            assert(lv.take(ls@.len() as int) =~= lv);
        }
    }
    out
}

} // verus!
