//! The receiving side of the file-list wire format.

use vstd::prelude::*;

use super::bytes::{copy_range, push_range, u32_from_le};
use super::entry::{xattrs_view, Entry, EntryView};
use super::wire::{
    decode_entry_spec, decode_hardlink_spec, decode_id_spec, decode_ids_spec, decode_out_of_bounds,
    decode_tail_spec, decode_xattr_spec, decode_xattrs_spec, take_blob_spec, DecoderView,
};

verus! {

/// Decodes entries in the order an [`Encoder`](super::Encoder) wrote them.
#[derive(Debug)]
pub struct Decoder {
    prev_path: Vec<u8>,
    uid_table: Vec<u32>,
    gid_table: Vec<u32>,
}

/// Why an entry could not be decoded.
#[derive(Debug, Clone, Copy, PartialEq, Eq, Structural)]
pub enum DecodeError {
    /// The input ends before the entry does.
    ShortInput,
    /// A uid index that names no uid seen so far.
    BadUid(u8),
    /// A gid (or hard-link group) index that names no id seen so far.
    BadGid(u8),
}

impl View for Decoder {
    type V = DecoderView;

    closed spec fn view(&self) -> DecoderView {
        DecoderView {
            prev_path: self.prev_path@,
            uid_table: self.uid_table@,
            gid_table: self.gid_table@,
        }
    }
}

/// Reads an id at `pos`; on success gives the position after it.
fn decode_id(input: &[u8], pos: usize, table: &mut Vec<u32>, is_uid: bool) -> (r: Result<
    (u32, usize),
    DecodeError,
>)
    requires
        pos <= input@.len(),
    ensures
        match r {
            Ok((id, next)) => {
                &&& pos <= next <= input@.len()
                &&& decode_id_spec(input@.skip(pos as int), old(table)@, is_uid) == Ok::<
                    (u32, Seq<u8>, Seq<u32>),
                    DecodeError,
                >((id, input@.skip(next as int), final(table)@))
            },
            Err(e) => {
                &&& decode_id_spec(input@.skip(pos as int), old(table)@, is_uid) == Err::<
                    (u32, Seq<u8>, Seq<u32>),
                    DecodeError,
                >(e)
                &&& final(table)@ == old(table)@
            },
        },
{
    let ghost rest = input@.skip(pos as int);
    reveal(decode_id_spec);
    if pos >= input.len() {
        return Err(DecodeError::ShortInput);
    }
    let tag = input[pos];
    if tag == 0xFF {
        if input.len() - pos < 5 {
            return Err(DecodeError::ShortInput);
        }
        let id = u32_from_le(input, pos + 1);
        table.push(id);
        proof {
            assert(rest.subrange(1, 5) =~= input@.subrange(pos + 1, pos + 5));
            assert(rest.skip(5) =~= input@.skip(pos + 5));
        }
        Ok((id, pos + 5))
    } else {
        let idx = tag as usize;
        if idx >= table.len() {
            return Err(if is_uid {
                DecodeError::BadUid(tag)
            } else {
                DecodeError::BadGid(tag)
            });
        }
        proof {
            assert(rest.skip(1) =~= input@.skip(pos + 1));
        }
        Ok((table[idx], pos + 1))
    }
}

/// Reads a four-byte length and that many bytes at `pos`.
fn take_blob(input: &[u8], pos: usize) -> (r: Option<(Vec<u8>, usize)>)
    requires
        pos <= input@.len(),
    ensures
        match r {
            Some((b, next)) => {
                &&& pos <= next <= input@.len()
                &&& take_blob_spec(input@.skip(pos as int)) == Some((b@, input@.skip(next as int)))
            },
            None => take_blob_spec(input@.skip(pos as int)) is None,
        },
{
    let ghost rest = input@.skip(pos as int);
    if input.len() - pos < 4 {
        return None;
    }
    let n = u32_from_le(input, pos) as usize;
    proof {
        assert(rest.take(4) =~= input@.subrange(pos as int, pos + 4));
    }
    let start = pos + 4;
    if input.len() - start < n {
        return None;
    }
    let b = copy_range(input, start, start + n);
    proof {
        assert(rest.skip(4).take(n as int) =~= b@);
        assert(rest.skip(4).skip(n as int) =~= input@.skip(start + n));
    }
    Some((b, start + n))
}

/// Reads one extended attribute at `pos`.
fn decode_xattr(input: &[u8], pos: usize) -> (r: Option<((Vec<u8>, Vec<u8>), usize)>)
    requires
        pos <= input@.len(),
    ensures
        match r {
            Some((x, next)) => {
                &&& pos <= next <= input@.len()
                &&& decode_xattr_spec(input@.skip(pos as int)) == Some(
                    ((x.0@, x.1@), input@.skip(next as int)),
                )
            },
            None => decode_xattr_spec(input@.skip(pos as int)) is None,
        },
{
    let ghost rest = input@.skip(pos as int);
    if pos >= input.len() {
        return None;
    }
    let n = input[pos] as usize;
    let start = pos + 1;
    if input.len() - start < n {
        return None;
    }
    let name = copy_range(input, start, start + n);
    proof {
        assert(rest.skip(1).take(n as int) =~= name@);
        assert(rest.skip(1).skip(n as int) =~= input@.skip(start + n));
    }
    match take_blob(input, start + n) {
        None => None,
        Some((value, next)) => Some(((name, value), next)),
    }
}

/// Reads the attribute count, the attributes and both ACLs at `pos`.
fn decode_tail(input: &[u8], pos: usize) -> (r: Option<(Vec<(Vec<u8>, Vec<u8>)>, Vec<u8>, Vec<u8>)>)
    requires
        pos <= input@.len(),
    ensures
        match r {
            Some((xs, acl, dacl)) => decode_tail_spec(input@.skip(pos as int)) == Some(
                (xattrs_view(xs@), acl@, dacl@),
            ),
            None => decode_tail_spec(input@.skip(pos as int)) is None,
        },
{
    let ghost rest = input@.skip(pos as int);
    reveal(decode_tail_spec);
    if pos >= input.len() {
        return None;
    }
    let xcnt = input[pos] as usize;
    let mut p = pos + 1;
    proof {
        assert(rest.skip(1) =~= input@.skip(p as int));
    }
    let mut xattrs: Vec<(Vec<u8>, Vec<u8>)> = Vec::new();
    let mut k: usize = 0;
    while k < xcnt
        invariant
            k <= xcnt,
            xcnt == rest[0] as nat,
            pos < p <= input@.len(),
            rest == input@.skip(pos as int),
            decode_xattrs_spec(rest.skip(1), xcnt as nat) == match decode_xattrs_spec(
                input@.skip(p as int),
                (xcnt - k) as nat,
            ) {
                None => None,
                Some((ys, r)) => Some((xattrs_view(xattrs@) + ys, r)),
            },
        decreases xcnt - k,
    {
        match decode_xattr(input, p) {
            None => {
                proof {
                    reveal(decode_tail_spec);
                }
                return None;
            },
            Some((x, next)) => {
                let ghost before = xattrs@;
                xattrs.push(x);
                proof {
                    assert(xattrs_view(xattrs@) =~= xattrs_view(before).push((x.0@, x.1@)));
                    match decode_xattrs_spec(input@.skip(next as int), (xcnt - k - 1) as nat) {
                        None => {},
                        Some((ys, r)) => {
                            assert(xattrs_view(before) + (seq![(x.0@, x.1@)] + ys)
                                =~= xattrs_view(xattrs@) + ys);
                        },
                    }
                }
                p = next;
                k = k + 1;
            },
        }
    }
    assert(decode_xattrs_spec(input@.skip(p as int), 0) == Some(
        (Seq::<(Seq<u8>, Seq<u8>)>::empty(), input@.skip(p as int)),
    ));
    assert(xattrs_view(xattrs@) + Seq::<(Seq<u8>, Seq<u8>)>::empty() =~= xattrs_view(xattrs@));
    match take_blob(input, p) {
        None => None,
        Some((acl, p2)) => match take_blob(input, p2) {
            None => None,
            Some((dacl, _)) => Some((xattrs, acl, dacl)),
        },
    }
}

/// Reads the uid, the gid and the hard-link part at `pos`.
fn decode_ids(input: &[u8], pos: usize, uids: &mut Vec<u32>, gids: &mut Vec<u32>) -> (r: Result<
    (u32, u32, Option<u32>, usize),
    DecodeError,
>)
    requires
        pos <= input@.len(),
    ensures
        ({
            let (ids, ut, gt) = decode_ids_spec(input@.skip(pos as int), old(uids)@, old(gids)@);
            &&& final(uids)@ == ut
            &&& final(gids)@ == gt
            &&& match r {
                Ok((uid, gid, h, next)) => {
                    &&& pos <= next <= input@.len()
                    &&& ids == Ok::<(u32, u32, Option<u32>, Seq<u8>), DecodeError>(
                        (uid, gid, h, input@.skip(next as int)),
                    )
                },
                Err(e) => ids == Err::<(u32, u32, Option<u32>, Seq<u8>), DecodeError>(e),
            }
        }),
{
    reveal(decode_ids_spec);
    reveal(decode_hardlink_spec);
    let (uid, pos) = match decode_id(input, pos, uids, true) {
        Ok(v) => v,
        Err(e) => {
            return Err(e);
        },
    };
    let (gid, pos) = match decode_id(input, pos, gids, false) {
        Ok(v) => v,
        Err(e) => {
            return Err(e);
        },
    };
    if pos >= input.len() {
        return Err(DecodeError::ShortInput);
    }
    let tag = input[pos];
    let pos = pos + 1;
    proof {
        assert(input@.skip(pos - 1).skip(1) =~= input@.skip(pos as int));
    }
    if tag == 1 {
        match decode_id(input, pos, gids, false) {
            Ok((g, next)) => Ok((uid, gid, Some(g), next)),
            Err(e) => Err(e),
        }
    } else {
        Ok((uid, gid, None, pos))
    }
}

impl Decoder {
    pub fn new() -> (r: Self)
        ensures
            r@ == DecoderView::fresh(),
    {
        Decoder { prev_path: Vec::new(), uid_table: Vec::new(), gid_table: Vec::new() }
    }

    /// Whether `input` names more of the previous path than there is; a
    /// decoder cannot take such an entry.
    pub fn overruns_previous_path(&self, input: &[u8]) -> (r: bool)
        ensures
            r == decode_out_of_bounds(self@, input@),
    {
        input.len() >= 2 && input.len() - 2 >= input[1] as usize && input[0] as usize
            > self.prev_path.len()
    }

    /// Decodes one entry. Bytes after the entry are not read.
    pub fn decode_entry(&mut self, input: &[u8]) -> (r: Result<Entry, DecodeError>)
        requires
            !decode_out_of_bounds(old(self)@, input@),
        ensures
            ({
                let (res, st) = decode_entry_spec(old(self)@, input@);
                &&& final(self)@ == st
                &&& match r {
                    Ok(e) => res == Ok::<EntryView, DecodeError>(e@),
                    Err(err) => res == Err::<EntryView, DecodeError>(err),
                }
            }),
    {
        if input.len() < 2 {
            return Err(DecodeError::ShortInput);
        }
        let common = input[0] as usize;
        let suff_len = input[1] as usize;
        if input.len() - 2 < suff_len {
            return Err(DecodeError::ShortInput);
        }
        let mut path = copy_range(&self.prev_path, 0, common);
        push_range(&mut path, input, 2, 2 + suff_len);
        let pos = 2 + suff_len;
        proof {
            let r0 = input@.skip(2);
            assert(r0.take(suff_len as int) =~= input@.subrange(2, pos as int));
            assert(r0.skip(suff_len as int) =~= input@.skip(pos as int));
            assert(path@ =~= self.prev_path@.take(common as int) + r0.take(suff_len as int));
        }
        let (uid, gid, hardlink, pos) = match decode_ids(
            input,
            pos,
            &mut self.uid_table,
            &mut self.gid_table,
        ) {
            Ok(v) => v,
            Err(e) => {
                return Err(e);
            },
        };
        let (xattrs, acl, default_acl) = match decode_tail(input, pos) {
            Some(t) => t,
            None => {
                return Err(DecodeError::ShortInput);
            },
        };
        self.prev_path = copy_range(&path, 0, path.len());
        proof {
            assert(path@.subrange(0, path@.len() as int) =~= path@);
        }
        Ok(Entry { path, uid, gid, hardlink, xattrs, acl, default_acl })
    }
}

} // verus!
