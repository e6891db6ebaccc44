//! The file-list wire format, stated as mathematics: what the encoder
//! writes, what the decoder reads, and the law that ties them together.

use vstd::prelude::*;

use super::bytes::{byte_of, from_le32, le32, lemma_le32_roundtrip, u32_of};
use super::decoder::DecodeError;
use super::entry::EntryView;

verus! {

/// The state an encoder carries from one entry to the next.
pub struct EncoderView {
    pub prev_path: Seq<u8>,
    pub uid_table: Map<u32, u8>,
    pub gid_table: Map<u32, u8>,
}

impl EncoderView {
    pub open spec fn fresh() -> EncoderView {
        EncoderView { prev_path: Seq::empty(), uid_table: Map::empty(), gid_table: Map::empty() }
    }
}

/// Length of the longest common prefix of `a` and `b`, counting from `i`.
pub open spec fn common_prefix_from(a: Seq<u8>, b: Seq<u8>, i: nat) -> nat
    decreases a.len() - i,
{
    if i < a.len() && i < b.len() && a[i as int] == b[i as int] {
        common_prefix_from(a, b, i + 1)
    } else {
        i
    }
}

/// Length of the longest common prefix of `a` and `b`.
pub open spec fn common_prefix_len(a: Seq<u8>, b: Seq<u8>) -> nat {
    common_prefix_from(a, b, 0)
}

pub proof fn lemma_common_prefix_step(a: Seq<u8>, b: Seq<u8>, i: nat)
    requires
        i < a.len(),
        i < b.len(),
        a[i as int] == b[i as int],
    ensures
        common_prefix_from(a, b, i + 1) == common_prefix_from(a, b, i),
{
}

/// The longest common prefix is a common prefix, no longer than either side.
pub proof fn lemma_common_prefix_from_bounds(a: Seq<u8>, b: Seq<u8>, i: nat)
    requires
        i <= a.len(),
        i <= b.len(),
        forall|j: int| 0 <= j < i ==> a[j] == b[j],
    ensures
        i <= common_prefix_from(a, b, i) <= a.len(),
        common_prefix_from(a, b, i) <= b.len(),
        forall|j: int| 0 <= j < common_prefix_from(a, b, i) ==> a[j] == b[j],
    decreases a.len() - i,
{
    if i < a.len() && i < b.len() && a[i as int] == b[i as int] {
        lemma_common_prefix_from_bounds(a, b, i + 1);
    }
}

pub proof fn lemma_common_prefix_bounds(a: Seq<u8>, b: Seq<u8>)
    ensures
        common_prefix_len(a, b) <= a.len(),
        common_prefix_len(a, b) <= b.len(),
        a.take(common_prefix_len(a, b) as int) == b.take(common_prefix_len(a, b) as int),
{
    lemma_common_prefix_from_bounds(a, b, 0);
    let n = common_prefix_len(a, b) as int;
    assert(a.take(n) =~= b.take(n));
}

/// The bytes that stand for `id` in the wire form, and the table after it:
/// a known id is its one-byte index; a new one is `0xFF` and its four
/// little-endian bytes, and takes the next index.
#[verifier::opaque]
pub open spec fn encode_id_spec(id: u32, table: Map<u32, u8>) -> (Seq<u8>, Map<u32, u8>) {
    if table.contains_key(id) {
        (seq![table[id]], table)
    } else {
        (seq![0xFFu8] + le32(id), table.insert(id, byte_of(table.len())))
    }
}

/// One extended attribute on the wire: a one-byte name length, the name,
/// a four-byte value length and the value.
pub open spec fn encode_xattr_spec(x: (Seq<u8>, Seq<u8>)) -> Seq<u8> {
    seq![byte_of(x.0.len())] + x.0 + le32(u32_of(x.1.len())) + x.1
}

pub open spec fn encode_xattrs_spec(xs: Seq<(Seq<u8>, Seq<u8>)>) -> Seq<u8>
    decreases xs.len(),
{
    if xs.len() == 0 {
        Seq::empty()
    } else {
        encode_xattr_spec(xs[0]) + encode_xattrs_spec(xs.drop_first())
    }
}

pub proof fn lemma_encode_xattrs_take(xs: Seq<(Seq<u8>, Seq<u8>)>, i: int)
    requires
        0 <= i < xs.len(),
    ensures
        encode_xattrs_spec(xs.take(i + 1)) == encode_xattrs_spec(xs.take(i)) + encode_xattr_spec(
            xs[i],
        ),
    decreases i,
{
    if i == 0 {
        let one = xs.take(1);
        assert(one.drop_first().len() == 0);
        assert(encode_xattrs_spec(one.drop_first()) == Seq::<u8>::empty());
        assert(encode_xattrs_spec(xs.take(0)) == Seq::<u8>::empty());
        assert(one[0] == xs[0]);
        assert(encode_xattrs_spec(one) =~= encode_xattr_spec(xs[0]));
    } else {
        let t = xs.drop_first();
        lemma_encode_xattrs_take(t, i - 1);
        assert(xs.take(i + 1).drop_first() =~= t.take(i));
        assert(xs.take(i).drop_first() =~= t.take(i - 1));
        assert(encode_xattrs_spec(xs.take(i + 1)) =~= encode_xattr_spec(xs[0])
            + encode_xattrs_spec(t.take(i)));
        assert(encode_xattrs_spec(xs.take(i)) =~= encode_xattr_spec(xs[0]) + encode_xattrs_spec(
            t.take(i - 1),
        ));
    }
}

/// The hard-link part of an entry: a tag byte, and for a linked entry its
/// group id, which shares the gid table.
#[verifier::opaque]
pub open spec fn encode_hardlink_spec(h: Option<u32>, table: Map<u32, u8>) -> (
    Seq<u8>,
    Map<u32, u8>,
) {
    match h {
        Some(g) => {
            let (b, t) = encode_id_spec(g, table);
            (seq![1u8] + b, t)
        },
        None => (seq![0u8], table),
    }
}

/// The bytes after the hard-link part: the attribute count, the attributes,
/// and the ACL and default ACL, each with a four-byte length.
#[verifier::opaque]
pub open spec fn encode_tail_spec(e: EntryView) -> Seq<u8> {
    seq![byte_of(e.xattrs.len())] + (encode_xattrs_spec(e.xattrs) + (le32(u32_of(e.acl.len()))
        + e.acl + (le32(u32_of(e.default_acl.len())) + e.default_acl)))
}

/// The bytes of one entry, and the encoder state after it. The path is sent
/// as the length of the prefix it shares with the previous path and the rest.
pub open spec fn encode_entry_spec(st: EncoderView, e: EntryView) -> (Seq<u8>, EncoderView) {
    let common = byte_of(common_prefix_len(st.prev_path, e.path));
    let suffix = e.path.skip(common as int);
    let (uidb, ut) = encode_id_spec(e.uid, st.uid_table);
    let (gidb, gt1) = encode_id_spec(e.gid, st.gid_table);
    let (hlb, gt2) = encode_hardlink_spec(e.hardlink, gt1);
    let bytes = seq![common, byte_of(suffix.len())] + (suffix + (uidb + (gidb + (hlb
        + encode_tail_spec(e)))));
    (bytes, EncoderView { prev_path: e.path, uid_table: ut, gid_table: gt2 })
}

} // verus!

verus! {

/// The state a decoder carries from one entry to the next.
pub struct DecoderView {
    pub prev_path: Seq<u8>,
    pub uid_table: Seq<u32>,
    pub gid_table: Seq<u32>,
}

impl DecoderView {
    pub open spec fn fresh() -> DecoderView {
        DecoderView { prev_path: Seq::empty(), uid_table: Seq::empty(), gid_table: Seq::empty() }
    }
}

/// Reads an id: `0xFF` and four bytes introduce a new id, which joins the
/// table; any other byte is an index into the table.
#[verifier::opaque]
pub open spec fn decode_id_spec(input: Seq<u8>, table: Seq<u32>, is_uid: bool) -> Result<
    (u32, Seq<u8>, Seq<u32>),
    DecodeError,
> {
    if input.len() == 0 {
        Err(DecodeError::ShortInput)
    } else if input[0] == 0xFFu8 {
        if input.len() < 5 {
            Err(DecodeError::ShortInput)
        } else {
            let id = from_le32(input.subrange(1, 5));
            Ok((id, input.skip(5), table.push(id)))
        }
    } else if input[0] as int >= table.len() {
        if is_uid {
            Err(DecodeError::BadUid(input[0]))
        } else {
            Err(DecodeError::BadGid(input[0]))
        }
    } else {
        Ok((table[input[0] as int], input.skip(1), table))
    }
}

/// Reads the hard-link tag and, for tag 1, the group id.
#[verifier::opaque]
pub open spec fn decode_hardlink_spec(input: Seq<u8>, table: Seq<u32>) -> Result<
    (Option<u32>, Seq<u8>, Seq<u32>),
    DecodeError,
> {
    if input.len() == 0 {
        Err(DecodeError::ShortInput)
    } else if input[0] == 1u8 {
        match decode_id_spec(input.skip(1), table, false) {
            Err(e) => Err(e),
            Ok((g, rest, t)) => Ok((Some(g), rest, t)),
        }
    } else {
        Ok((None, input.skip(1), table))
    }
}

/// Reads a four-byte length and that many bytes.
pub open spec fn take_blob_spec(input: Seq<u8>) -> Option<(Seq<u8>, Seq<u8>)> {
    if input.len() < 4 {
        None
    } else {
        let n = from_le32(input.take(4)) as int;
        let rest = input.skip(4);
        if rest.len() < n {
            None
        } else {
            Some((rest.take(n), rest.skip(n)))
        }
    }
}

/// Reads one extended attribute.
pub open spec fn decode_xattr_spec(input: Seq<u8>) -> Option<((Seq<u8>, Seq<u8>), Seq<u8>)> {
    if input.len() == 0 {
        None
    } else {
        let n = input[0] as int;
        let rest = input.skip(1);
        if rest.len() < n {
            None
        } else {
            match take_blob_spec(rest.skip(n)) {
                None => None,
                Some((v, r)) => Some(((rest.take(n), v), r)),
            }
        }
    }
}

/// Reads `count` extended attributes.
pub open spec fn decode_xattrs_spec(input: Seq<u8>, count: nat) -> Option<
    (Seq<(Seq<u8>, Seq<u8>)>, Seq<u8>),
>
    decreases count,
{
    if count == 0 {
        Some((Seq::empty(), input))
    } else {
        match decode_xattr_spec(input) {
            None => None,
            Some((x, r)) => match decode_xattrs_spec(r, (count - 1) as nat) {
                None => None,
                Some((xs, r2)) => Some((seq![x] + xs, r2)),
            },
        }
    }
}

/// Reads what follows the hard-link part: the attribute count, the
/// attributes, the ACL and the default ACL. Bytes after them are not read.
#[verifier::opaque]
pub open spec fn decode_tail_spec(input: Seq<u8>) -> Option<
    (Seq<(Seq<u8>, Seq<u8>)>, Seq<u8>, Seq<u8>),
> {
    if input.len() == 0 {
        None
    } else {
        match decode_xattrs_spec(input.skip(1), input[0] as nat) {
            None => None,
            Some((xs, r)) => match take_blob_spec(r) {
                None => None,
                Some((acl, r2)) => match take_blob_spec(r2) {
                    None => None,
                    Some((dacl, _)) => Some((xs, acl, dacl)),
                },
            },
        }
    }
}

/// The inputs on which decoding would index the previous path out of
/// bounds: a complete path part whose shared-prefix length exceeds the
/// previous path.
pub open spec fn decode_out_of_bounds(st: DecoderView, input: Seq<u8>) -> bool {
    &&& input.len() >= 2
    &&& input.len() - 2 >= input[1] as int
    &&& input[0] as int > st.prev_path.len()
}

/// Reads the uid, the gid and the hard-link part; gives what was read and
/// both id tables afterwards (ids read before a failure stay in them).
#[verifier::opaque]
pub open spec fn decode_ids_spec(input: Seq<u8>, uids: Seq<u32>, gids: Seq<u32>) -> (
    Result<(u32, u32, Option<u32>, Seq<u8>), DecodeError>,
    Seq<u32>,
    Seq<u32>,
) {
    match decode_id_spec(input, uids, true) {
        Err(e) => (Err(e), uids, gids),
        Ok((uid, r2, ut)) => match decode_id_spec(r2, gids, false) {
            Err(e) => (Err(e), ut, gids),
            Ok((gid, r3, gt)) => match decode_hardlink_spec(r3, gt) {
                Err(e) => (Err(e), ut, gt),
                Ok((h, r4, gt2)) => (Ok((uid, gid, h, r4)), ut, gt2),
            },
        },
    }
}

/// What decoding `input` gives, and the decoder state after it. Ids read
/// before a failure stay in their tables; the previous path changes only
/// when an entry is decoded.
pub open spec fn decode_entry_spec(st: DecoderView, input: Seq<u8>) -> (
    Result<EntryView, DecodeError>,
    DecoderView,
) {
    if input.len() < 2 {
        (Err(DecodeError::ShortInput), st)
    } else {
        let common = input[0] as int;
        let sl = input[1] as int;
        let r0 = input.skip(2);
        if r0.len() < sl {
            (Err(DecodeError::ShortInput), st)
        } else {
            let path = st.prev_path.take(common) + r0.take(sl);
            let (ids, ut, gt) = decode_ids_spec(r0.skip(sl), st.uid_table, st.gid_table);
            let failed = DecoderView { prev_path: st.prev_path, uid_table: ut, gid_table: gt };
            match ids {
                Err(e) => (Err(e), failed),
                Ok((uid, gid, h, r4)) => match decode_tail_spec(r4) {
                    None => (Err(DecodeError::ShortInput), failed),
                    Some((xs, acl, dacl)) => (
                        Ok(
                            EntryView {
                                path,
                                uid,
                                gid,
                                hardlink: h,
                                xattrs: xs,
                                acl,
                                default_acl: dacl,
                            },
                        ),
                        DecoderView { prev_path: path, uid_table: ut, gid_table: gt },
                    ),
                },
            }
        }
    }
}

} // verus!

verus! {

/// The encoder's id table and the decoder's id list describe the same
/// assignment of indices: the id at index `i` of the list is mapped to `i`.
pub open spec fn tables_in_sync(m: Map<u32, u8>, v: Seq<u32>) -> bool {
    &&& m.dom().finite()
    &&& m.len() == v.len()
    &&& v.len() <= 255
    &&& forall|i: int| 0 <= i < v.len() ==> #[trigger] m.contains_key(v[i]) && m[v[i]] == i
    &&& forall|k: u32| #[trigger] m.contains_key(k) ==> m[k] < v.len() && v[m[k] as int] == k
}

/// An encoder and a decoder that have seen the same entries.
pub open spec fn in_sync(e: EncoderView, d: DecoderView) -> bool {
    &&& e.prev_path == d.prev_path
    &&& tables_in_sync(e.uid_table, d.uid_table)
    &&& tables_in_sync(e.gid_table, d.gid_table)
}

/// An entry whose lengths fit the fields the wire gives them, and each of
/// whose new ids gets an index below `0xFF` (the index is the size of its
/// table; the hard-link group id comes after the gid in the gid table).
pub open spec fn encodable(st: EncoderView, entry: EntryView) -> bool {
    &&& entry.path.len() < 256
    &&& entry.xattrs.len() < 256
    &&& forall|i: int|
        0 <= i < entry.xattrs.len() ==> (#[trigger] entry.xattrs[i]).0.len() < 256
            && entry.xattrs[i].1.len() < 0x1_0000_0000
    &&& entry.acl.len() < 0x1_0000_0000
    &&& entry.default_acl.len() < 0x1_0000_0000
    &&& (!st.uid_table.contains_key(entry.uid) ==> st.uid_table.len() < 255)
    &&& (!st.gid_table.contains_key(entry.gid) ==> st.gid_table.len() < 255)
    &&& entry.hardlink matches Some(g) ==> (!encode_id_spec(entry.gid, st.gid_table).1.contains_key(g)
        ==> encode_id_spec(entry.gid, st.gid_table).1.len() < 255)
}

proof fn lemma_id_roundtrip(id: u32, m: Map<u32, u8>, v: Seq<u32>, rest: Seq<u8>, is_uid: bool)
    requires
        tables_in_sync(m, v),
        !m.contains_key(id) ==> v.len() < 255,
    ensures
        ({
            let (b, m2) = encode_id_spec(id, m);
            match decode_id_spec(b + rest, v, is_uid) {
                Ok((id2, rest2, v2)) => id2 == id && rest2 == rest && tables_in_sync(m2, v2)
                    && v2.len() <= v.len() + 1,
                Err(_) => false,
            }
        }),
{
    reveal(encode_id_spec);
    reveal(decode_id_spec);
    let (b, m2) = encode_id_spec(id, m);
    let input = b + rest;
    if m.contains_key(id) {
        assert(input[0] == m[id]);
        assert(m[id] < v.len());
        assert(input.skip(1) =~= rest);
    } else {
        lemma_le32_roundtrip(id);
        assert(input[0] == 0xFFu8);
        assert(input.subrange(1, 5) =~= le32(id));
        assert(input.skip(5) =~= rest);
        let v2 = v.push(id);
        assert(byte_of(m.len()) == v.len());
        assert(m2.len() == m.len() + 1);
        assert forall|i: int| 0 <= i < v2.len() implies #[trigger] m2.contains_key(v2[i])
            && m2[v2[i]] == i by {
            if i < v.len() {
                assert(m.contains_key(v[i]));
            }
        }
        assert forall|k: u32| #[trigger] m2.contains_key(k) implies m2[k] < v2.len() && v2[m2[k] as int]
            == k by {
            if k != id {
                assert(m.contains_key(k));
            }
        }
    }
}

proof fn lemma_split(a: Seq<u8>, b: Seq<u8>)
    ensures
        (a + b).take(a.len() as int) == a,
        (a + b).skip(a.len() as int) == b,
{
    assert((a + b).take(a.len() as int) =~= a);
    assert((a + b).skip(a.len() as int) =~= b);
}

proof fn lemma_assoc(a: Seq<u8>, b: Seq<u8>, c: Seq<u8>)
    ensures
        a + b + c == a + (b + c),
{
    assert(a + b + c =~= a + (b + c));
}

proof fn lemma_blob_roundtrip(b: Seq<u8>, rest: Seq<u8>)
    requires
        b.len() < 0x1_0000_0000,
    ensures
        take_blob_spec(le32(u32_of(b.len())) + b + rest) == Some((b, rest)),
{
    let h = le32(u32_of(b.len()));
    lemma_le32_roundtrip(u32_of(b.len()));
    lemma_assoc(h, b, rest);
    lemma_split(h, b + rest);
    lemma_split(b, rest);
}

proof fn lemma_xattr_roundtrip(x: (Seq<u8>, Seq<u8>), rest: Seq<u8>)
    requires
        x.0.len() < 256,
        x.1.len() < 0x1_0000_0000,
    ensures
        decode_xattr_spec(encode_xattr_spec(x) + rest) == Some((x, rest)),
{
    let n = x.0.len();
    let h = seq![byte_of(n)];
    let blob = le32(u32_of(x.1.len())) + x.1;
    let body = x.0 + (blob + rest);
    let input = h + body;
    assert(encode_xattr_spec(x) + rest == input) by {
        assert(encode_xattr_spec(x) + rest =~= input);
    }
    assert(byte_of(n) as int == n as int);
    assert(input[0] == byte_of(n));
    lemma_split(h, body);
    lemma_split(x.0, blob + rest);
    lemma_blob_roundtrip(x.1, rest);
}

proof fn lemma_xattrs_roundtrip(xs: Seq<(Seq<u8>, Seq<u8>)>, rest: Seq<u8>)
    requires
        forall|i: int|
            0 <= i < xs.len() ==> (#[trigger] xs[i]).0.len() < 256 && xs[i].1.len()
                < 0x1_0000_0000,
    ensures
        decode_xattrs_spec(encode_xattrs_spec(xs) + rest, xs.len()) == Some((xs, rest)),
    decreases xs.len(),
{
    if xs.len() == 0 {
        assert(encode_xattrs_spec(xs) + rest =~= rest);
        assert(xs =~= Seq::<(Seq<u8>, Seq<u8>)>::empty());
    } else {
        let x = xs[0];
        let t = xs.drop_first();
        assert forall|i: int| 0 <= i < t.len() implies (#[trigger] t[i]).0.len() < 256
            && t[i].1.len() < 0x1_0000_0000 by {
            assert(t[i] == xs[i + 1]);
        }
        lemma_xattrs_roundtrip(t, rest);
        let tail = encode_xattrs_spec(t) + rest;
        lemma_assoc(encode_xattr_spec(x), encode_xattrs_spec(t), rest);
        lemma_xattr_roundtrip(x, tail);
        assert(seq![x] + t =~= xs);
    }
}

#[verifier::spinoff_prover]
#[verifier::rlimit(40)]
proof fn lemma_tail_roundtrip(e: EntryView)
    requires
        e.xattrs.len() < 256,
        forall|i: int|
            0 <= i < e.xattrs.len() ==> (#[trigger] e.xattrs[i]).0.len() < 256
                && e.xattrs[i].1.len() < 0x1_0000_0000,
        e.acl.len() < 0x1_0000_0000,
        e.default_acl.len() < 0x1_0000_0000,
    ensures
        decode_tail_spec(encode_tail_spec(e)) == Some((e.xattrs, e.acl, e.default_acl)),
{
    reveal(encode_tail_spec);
    reveal(decode_tail_spec);
    let xs = e.xattrs;
    let h = seq![byte_of(xs.len())];
    let ex = encode_xattrs_spec(xs);
    let b2 = le32(u32_of(e.default_acl.len())) + e.default_acl;
    let b1 = le32(u32_of(e.acl.len())) + e.acl + b2;
    assert(byte_of(xs.len()) as nat == xs.len());
    let input = h + (ex + b1);
    assert(input[0] == byte_of(xs.len()));
    lemma_split(h, ex + b1);
    assert(input.skip(1) == ex + b1);
    lemma_xattrs_roundtrip(xs, b1);
    assert(decode_xattrs_spec(input.skip(1), input[0] as nat) == Some((xs, b1)));
    lemma_blob_roundtrip(e.acl, b2);
    lemma_blob_roundtrip(e.default_acl, Seq::<u8>::empty());
    assert(b2 + Seq::<u8>::empty() =~= b2);
}

proof fn lemma_hardlink_roundtrip(
    h: Option<u32>,
    m: Map<u32, u8>,
    v: Seq<u32>,
    rest: Seq<u8>,
)
    requires
        tables_in_sync(m, v),
        h matches Some(g) ==> (!m.contains_key(g) ==> v.len() < 255),
    ensures
        ({
            let (b, m2) = encode_hardlink_spec(h, m);
            match decode_hardlink_spec(b + rest, v) {
                Ok((h2, rest2, v2)) => h2 == h && rest2 == rest && tables_in_sync(m2, v2)
                    && v2.len() <= v.len() + 1,
                Err(_) => false,
            }
        }),
{
    reveal(encode_hardlink_spec);
    reveal(decode_hardlink_spec);
    match h {
        Some(g) => {
            let (b, t) = encode_id_spec(g, m);
            lemma_id_roundtrip(g, m, v, rest, false);
            lemma_split(seq![1u8], b + rest);
            assert(seq![1u8] + b + rest =~= seq![1u8] + (b + rest));
        },
        None => {
            lemma_split(seq![0u8], rest);
        },
    }
}

/// Whatever an encoder writes, a decoder that has seen the same entries
/// reads back as the same entry, and afterwards the two are still in sync.
/// This holds for every entry whose lengths fit the wire's fields and whose
/// new ids each get an index below `0xFF`.
proof fn lemma_ids_roundtrip(e: EncoderView, d: DecoderView, entry: EntryView, rest: Seq<u8>)
    requires
        in_sync(e, d),
        encodable(e, entry),
    ensures
        ({
            let (uidb, ut) = encode_id_spec(entry.uid, e.uid_table);
            let (gidb, gt1) = encode_id_spec(entry.gid, e.gid_table);
            let (hlb, gt2) = encode_hardlink_spec(entry.hardlink, gt1);
            let (ids, uv, gv) = decode_ids_spec(
                uidb + (gidb + (hlb + rest)),
                d.uid_table,
                d.gid_table,
            );
            &&& ids == Ok::<(u32, u32, Option<u32>, Seq<u8>), DecodeError>(
                (entry.uid, entry.gid, entry.hardlink, rest),
            )
            &&& tables_in_sync(ut, uv)
            &&& tables_in_sync(gt2, gv)
        }),
{
    let (uidb, ut) = encode_id_spec(entry.uid, e.uid_table);
    let (gidb, gt1) = encode_id_spec(entry.gid, e.gid_table);
    let (hlb, gt2) = encode_hardlink_spec(entry.hardlink, gt1);
    reveal(decode_ids_spec);
    let r3 = hlb + rest;
    let r2 = gidb + r3;
    lemma_id_roundtrip(entry.uid, e.uid_table, d.uid_table, r2, true);
    lemma_id_roundtrip(entry.gid, e.gid_table, d.gid_table, r3, false);
    let gv = match decode_id_spec(r2, d.gid_table, false) {
        Ok((_, _, t)) => t,
        Err(_) => d.gid_table,
    };
    lemma_hardlink_roundtrip(entry.hardlink, gt1, gv, rest);
}

/// Whatever an encoder writes, a decoder that has seen the same entries
/// reads back as the same entry, and afterwards the two are still in sync.
/// This holds for every entry whose lengths fit the wire's fields and whose
/// new ids each get an index below `0xFF`.
pub proof fn lemma_decode_encode_roundtrip(e: EncoderView, d: DecoderView, entry: EntryView)
    requires
        in_sync(e, d),
        encodable(e, entry),
    ensures
        ({
            let (bytes, e2) = encode_entry_spec(e, entry);
            let (res, d2) = decode_entry_spec(d, bytes);
            &&& !decode_out_of_bounds(d, bytes)
            &&& res == Ok::<EntryView, DecodeError>(entry)
            &&& in_sync(e2, d2)
        }),
{
    let (bytes, e2) = encode_entry_spec(e, entry);
    lemma_common_prefix_bounds(e.prev_path, entry.path);
    let cp = common_prefix_len(e.prev_path, entry.path);
    let common = byte_of(cp);
    assert(common == cp);
    let suffix = entry.path.skip(common as int);
    let (uidb, ut) = encode_id_spec(entry.uid, e.uid_table);
    let (gidb, gt1) = encode_id_spec(entry.gid, e.gid_table);
    let (hlb, gt2) = encode_hardlink_spec(entry.hardlink, gt1);
    let r4 = encode_tail_spec(entry);
    let r1 = uidb + (gidb + (hlb + r4));
    let r0 = suffix + r1;
    let h = seq![common, byte_of(suffix.len())];
    assert(bytes == h + r0);
    lemma_split(h, r0);
    lemma_split(suffix, r1);
    assert(byte_of(suffix.len()) as int == suffix.len());
    assert(bytes[0] == common && bytes[1] == byte_of(suffix.len()));
    assert(d.prev_path.take(common as int) + suffix =~= entry.path);
    lemma_ids_roundtrip(e, d, entry, r4);
    lemma_tail_roundtrip(entry);
}

} // verus!
