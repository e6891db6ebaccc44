//! The sending side of the file-list wire format.

use std::collections::HashMap;
use vstd::prelude::*;

use super::bytes::{copy_range, le32, len_u32, push_all, u32_to_le};
use super::entry::{xattrs_view, Entry};
use super::wire::{
    common_prefix_from, common_prefix_len, lemma_common_prefix_bounds, encode_entry_spec, encode_id_spec, encode_xattr_spec,
    encode_hardlink_spec, encode_tail_spec, encode_xattrs_spec, lemma_common_prefix_step, lemma_encode_xattrs_take, EncoderView,
};

verus! {

broadcast use vstd::std_specs::hash::group_hash_axioms;

/// Encodes entries one after another, sharing path prefixes with the
/// previous entry and ids with earlier entries.
#[derive(Debug)]
pub struct Encoder {
    prev_path: Vec<u8>,
    uid_table: HashMap<u32, u8>,
    gid_table: HashMap<u32, u8>,
}

impl View for Encoder {
    type V = EncoderView;

    closed spec fn view(&self) -> EncoderView {
        EncoderView {
            prev_path: self.prev_path@,
            uid_table: self.uid_table@,
            gid_table: self.gid_table@,
        }
    }
}

/// Length of the longest common prefix of `a` and `b`.
fn common_prefix(a: &[u8], b: &[u8]) -> (r: usize)
    ensures
        r == common_prefix_len(a@, b@),
{
    let mut i: usize = 0;
    while i < a.len() && i < b.len() && a[i] == b[i]
        invariant
            i <= a@.len(),
            i <= b@.len(),
            common_prefix_from(a@, b@, i as nat) == common_prefix_len(a@, b@),
        decreases a@.len() - i,
    {
        proof {
            lemma_common_prefix_step(a@, b@, i as nat);
        }
        i = i + 1;
    }
    i
}

/// The wire form of `id` against `table`, recording a new id in the table.
fn encode_id(id: u32, table: &mut HashMap<u32, u8>) -> (r: Vec<u8>)
    ensures
        (r@, final(table)@) == encode_id_spec(id, old(table)@),
{
    reveal(encode_id_spec);
    match table.get(&id) {
        Some(idx) => {
            let mut out: Vec<u8> = Vec::new();
            out.push(*idx);
            assert(out@ =~= seq![*idx]);
            out
        },
        None => {
            let idx = (table.len() % 256) as u8;
            table.insert(id, idx);
            let mut out: Vec<u8> = Vec::new();
            out.push(0xFF);
            let b = u32_to_le(id);
            push_all(&mut out, &b);
            assert(out@ =~= seq![0xFFu8] + le32(id));
            out
        },
    }
}

/// The attribute count, the attributes and both ACLs of `entry`.
fn encode_tail(entry: &Entry) -> (out: Vec<u8>)
    ensures
        out@ == encode_tail_spec(entry@),
{
    reveal(encode_tail_spec);
    let mut out: Vec<u8> = Vec::new();
    out.push((entry.xattrs.len() % 256) as u8);
    let ghost xs = xattrs_view(entry.xattrs@);
    let ghost start = out@;
    let mut i: usize = 0;
    while i < entry.xattrs.len()
        invariant
            i <= entry.xattrs@.len(),
            xs == xattrs_view(entry.xattrs@),
            out@ == start + encode_xattrs_spec(xs.take(i as int)),
        decreases entry.xattrs@.len() - i,
    {
        let pair = &entry.xattrs[i];
        let name = &pair.0;
        let value = &pair.1;
        let ghost before = out@;
        out.push((name.len() % 256) as u8);
        push_all(&mut out, name.as_slice());
        let vl = u32_to_le(len_u32(value.len()));
        push_all(&mut out, &vl);
        push_all(&mut out, value.as_slice());
        proof {
            lemma_encode_xattrs_take(xs, i as int);
            assert(xs[i as int] == (name@, value@));
            assert(out@ =~= before + encode_xattr_spec(xs[i as int]));
        }
        i = i + 1;
    }
    assert(xs.take(xs.len() as int) =~= xs);
    let ghost mid = out@;
    let al = u32_to_le(len_u32(entry.acl.len()));
    push_all(&mut out, &al);
    push_all(&mut out, entry.acl.as_slice());
    let dl = u32_to_le(len_u32(entry.default_acl.len()));
    push_all(&mut out, &dl);
    push_all(&mut out, entry.default_acl.as_slice());
    assert(out@ =~= encode_tail_spec(entry@));
    out
}

impl Encoder {
    pub fn new() -> (r: Self)
        ensures
            r@ == EncoderView::fresh(),
    {
        Encoder { prev_path: Vec::new(), uid_table: HashMap::new(), gid_table: HashMap::new() }
    }

    /// Encodes one entry and remembers its path and ids for the next one.
    pub fn encode_entry(&mut self, entry: &Entry) -> (r: Vec<u8>)
        ensures
            (r@, final(self)@) == encode_entry_spec(old(self)@, entry@),
    {
        let mut out: Vec<u8> = Vec::new();
        let cp = common_prefix(&self.prev_path, &entry.path);
        let common = (cp % 256) as u8;
        proof {
            lemma_common_prefix_bounds(self.prev_path@, entry.path@);
        }
        let suffix_len = entry.path.len() - common as usize;
        out.push(common);
        out.push((suffix_len % 256) as u8);
        let suffix = copy_range(&entry.path, common as usize, entry.path.len());
        push_all(&mut out, &suffix);
        let ghost head = out@;
        let uidb = encode_id(entry.uid, &mut self.uid_table);
        push_all(&mut out, &uidb);
        let gidb = encode_id(entry.gid, &mut self.gid_table);
        push_all(&mut out, &gidb);
        proof {
            reveal(encode_hardlink_spec);
        }
        match entry.hardlink {
            Some(group) => {
                out.push(1);
                let hb = encode_id(group, &mut self.gid_table);
                push_all(&mut out, &hb);
            },
            None => {
                out.push(0);
            },
        }
        let tail = encode_tail(entry);
        push_all(&mut out, &tail);
        self.prev_path = copy_range(&entry.path, 0, entry.path.len());
        proof {
            assert(entry.path@.subrange(0, entry.path@.len() as int) =~= entry.path@);
            assert(entry.path@.subrange(common as int, entry.path@.len() as int) =~= entry.path@.skip(common as int));
            let spec = encode_entry_spec(old(self)@, entry@);
            assert(out@ =~= spec.0);
        }
        out
    }
}

} // verus!
