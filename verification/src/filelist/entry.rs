//! A file-list entry and the grouping of entries that share an inode.

use vstd::prelude::*;

use super::bytes::copy_range;

verus! {

/// One entry of the file list as it travels on the wire.
#[derive(Debug, Clone, PartialEq, Eq)]
pub struct Entry {
    pub path: Vec<u8>,
    pub uid: u32,
    pub gid: u32,
    pub hardlink: Option<u32>,
    pub xattrs: Vec<(Vec<u8>, Vec<u8>)>,
    pub acl: Vec<u8>,
    pub default_acl: Vec<u8>,
}

/// The mathematical content of an [`Entry`].
pub struct EntryView {
    pub path: Seq<u8>,
    pub uid: u32,
    pub gid: u32,
    pub hardlink: Option<u32>,
    pub xattrs: Seq<(Seq<u8>, Seq<u8>)>,
    pub acl: Seq<u8>,
    pub default_acl: Seq<u8>,
}

pub open spec fn xattrs_view(x: Seq<(Vec<u8>, Vec<u8>)>) -> Seq<(Seq<u8>, Seq<u8>)> {
    x.map_values(|p: (Vec<u8>, Vec<u8>)| (p.0@, p.1@))
}

impl View for Entry {
    type V = EntryView;

    open spec fn view(&self) -> EntryView {
        EntryView {
            path: self.path@,
            uid: self.uid,
            gid: self.gid,
            hardlink: self.hardlink,
            xattrs: xattrs_view(self.xattrs@),
            acl: self.acl@,
            default_acl: self.default_acl@,
        }
    }
}

/// An entry as read from the file system, before hard links are grouped.
#[derive(Debug, Clone)]
pub struct InodeEntry {
    pub path: Vec<u8>,
    pub uid: u32,
    pub gid: u32,
    pub dev: u64,
    pub ino: u64,
    pub xattrs: Vec<(Vec<u8>, Vec<u8>)>,
    pub acl: Vec<u8>,
    pub default_acl: Vec<u8>,
}

/// The inode an entry names.
pub open spec fn inode_key(e: InodeEntry) -> (u64, u64) {
    (e.dev, e.ino)
}

/// How many of the first `n` entries name inode `k`.
pub open spec fn inode_count(s: Seq<InodeEntry>, k: (u64, u64), n: nat) -> nat
    decreases n,
{
    if n == 0 {
        0
    } else {
        inode_count(s, k, (n - 1) as nat) + if n - 1 < s.len() && inode_key(s[n - 1]) == k {
            1nat
        } else {
            0nat
        }
    }
}

/// An inode named by more than one entry.
pub open spec fn is_linked(s: Seq<InodeEntry>, k: (u64, u64)) -> bool {
    inode_count(s, k, s.len()) > 1
}

/// The linked inodes among the first `n` entries, in the order in which
/// each first appears.
pub open spec fn linked_inodes(s: Seq<InodeEntry>, n: nat) -> Seq<(u64, u64)>
    decreases n,
{
    if n == 0 {
        Seq::empty()
    } else {
        let p = linked_inodes(s, (n - 1) as nat);
        let k = inode_key(s[n - 1]);
        if is_linked(s, k) && !p.contains(k) {
            p.push(k)
        } else {
            p
        }
    }
}

/// The entry that `e` becomes: its own fields, and the hard-link group it
/// was given.
pub open spec fn grouped_entry(e: InodeEntry, hardlink: Option<u32>) -> EntryView {
    EntryView {
        path: e.path@,
        uid: e.uid,
        gid: e.gid,
        hardlink,
        xattrs: xattrs_view(e.xattrs@),
        acl: e.acl@,
        default_acl: e.default_acl@,
    }
}

/// The index of the first occurrence of `k` in `q` (`q.len()` if none).
pub open spec fn position_in(q: Seq<(u64, u64)>, k: (u64, u64)) -> nat
    decreases q.len(),
{
    if q.len() == 0 {
        0
    } else if q[0] == k {
        0
    } else {
        1 + position_in(q.drop_first(), k)
    }
}

proof fn lemma_position_in(q: Seq<(u64, u64)>, k: (u64, u64), g: int)
    requires
        0 <= g <= q.len(),
        g < q.len() ==> q[g] == k,
        forall|t: int| 0 <= t < g ==> q[t] != k,
    ensures
        position_in(q, k) == g,
    decreases q.len(),
{
    if q.len() > 0 && g > 0 {
        let r = q.drop_first();
        assert forall|t: int| 0 <= t < g - 1 implies r[t] != k by {
            assert(r[t] == q[t + 1]);
        }
        lemma_position_in(r, k, g - 1);
    }
}

proof fn lemma_position_in_push(p: Seq<(u64, u64)>, x: (u64, u64), k: (u64, u64))
    requires
        p.contains(k),
    ensures
        position_in(p.push(x), k) == position_in(p, k),
    decreases p.len(),
{
    if p[0] != k {
        let t = choose|t: int| 0 <= t < p.len() && p[t] == k;
        assert(p.drop_first()[t - 1] == k);
        assert(p.push(x).drop_first() =~= p.drop_first().push(x));
        lemma_position_in_push(p.drop_first(), x, k);
    }
}

proof fn lemma_linked_inodes_len(s: Seq<InodeEntry>, n: nat)
    ensures
        linked_inodes(s, n).len() <= n,
    decreases n,
{
    if n > 0 {
        lemma_linked_inodes_len(s, (n - 1) as nat);
    }
}

fn copy_xattrs(x: &Vec<(Vec<u8>, Vec<u8>)>) -> (r: Vec<(Vec<u8>, Vec<u8>)>)
    ensures
        xattrs_view(r@) == xattrs_view(x@),
{
    let mut r: Vec<(Vec<u8>, Vec<u8>)> = Vec::new();
    let mut i: usize = 0;
    while i < x.len()
        invariant
            i <= x@.len(),
            xattrs_view(r@) == xattrs_view(x@).take(i as int),
        decreases x@.len() - i,
    {
        let pair = &x[i];
        let n = copy_range(pair.0.as_slice(), 0, pair.0.len());
        let v = copy_range(pair.1.as_slice(), 0, pair.1.len());
        proof {
            assert(pair.0@.subrange(0, pair.0@.len() as int) =~= pair.0@);
            assert(pair.1@.subrange(0, pair.1@.len() as int) =~= pair.1@);
        }
        let ghost before = r@;
        r.push((n, v));
        proof {
            assert(xattrs_view(r@) =~= xattrs_view(before).push((pair.0@, pair.1@)));
            assert(xattrs_view(x@)[i as int] == (pair.0@, pair.1@));
        }
        i = i + 1;
        assert(xattrs_view(r@) =~= xattrs_view(x@).take(i as int));
    }
    assert(xattrs_view(x@).take(x@.len() as int) =~= xattrs_view(x@));
    r
}

/// How many entries name inode `k`.
fn count_inode(entries: &[InodeEntry], k: (u64, u64)) -> (r: usize)
    ensures
        r == inode_count(entries@, k, entries@.len() as nat),
{
    let mut c: usize = 0;
    let mut i: usize = 0;
    while i < entries.len()
        invariant
            i <= entries@.len(),
            c == inode_count(entries@, k, i as nat),
            c <= i,
        decreases entries@.len() - i,
    {
        if entries[i].dev == k.0 && entries[i].ino == k.1 {
            c = c + 1;
        }
        i = i + 1;
    }
    c
}

/// Gives every entry whose inode is shared with another entry the number
/// of its hard-link group, groups being numbered from 0 in the order in
/// which their first member appears; an entry with an inode of its own
/// gets no group.
pub fn group_by_inode(entries: &[InodeEntry]) -> (out: Vec<Entry>)
    requires
        entries@.len() <= u32::MAX,
    ensures
        out@.len() == entries@.len(),
        forall|i: int|
            0 <= i < entries@.len() ==> (#[trigger] out@[i])@ == grouped_entry(
                entries@[i],
                if is_linked(entries@, inode_key(entries@[i])) {
                    Some(
                        position_in(
                            linked_inodes(entries@, entries@.len() as nat),
                            inode_key(entries@[i]),
                        ) as u32,
                    )
                } else {
                    None
                },
            ),
{
    let ghost s = entries@;
    let mut groups: Vec<(u64, u64)> = Vec::new();
    let mut out: Vec<Entry> = Vec::new();
    let mut i: usize = 0;
    while i < entries.len()
        invariant
            s == entries@,
            s.len() <= u32::MAX,
            i <= s.len(),
            groups@ == linked_inodes(s, i as nat),
            out@.len() == i,
            forall|j: int|
                0 <= j < i ==> (#[trigger] out@[j])@ == grouped_entry(
                    s[j],
                    if is_linked(s, inode_key(s[j])) {
                        Some(position_in(linked_inodes(s, i as nat), inode_key(s[j])) as u32)
                    } else {
                        None
                    },
                ),
            forall|j: int|
                0 <= j < i && is_linked(s, inode_key(s[j])) ==> linked_inodes(
                    s,
                    i as nat,
                ).contains(inode_key(s[j])),
        decreases s.len() - i,
    {
        let e = &entries[i];
        let k = (e.dev, e.ino);
        let ghost p = linked_inodes(s, i as nat);
        let linked = count_inode(entries, k) > 1;
        let mut pos: usize = 0;
        if linked {
            while pos < groups.len() && !(groups[pos].0 == k.0 && groups[pos].1 == k.1)
                invariant
                    pos <= groups@.len(),
                    forall|t: int| 0 <= t < pos ==> groups@[t] != k,
                decreases groups@.len() - pos,
            {
                pos = pos + 1;
            }
            if pos == groups.len() {
                proof {
                    assert(!p.contains(k));
                }
                groups.push(k);
            }
        }
        proof {
            lemma_linked_inodes_len(s, (i + 1) as nat);
        }
        let hardlink = if linked {
            Some(pos as u32)
        } else {
            None
        };
        out.push(
            Entry {
                path: copy_range(e.path.as_slice(), 0, e.path.len()),
                uid: e.uid,
                gid: e.gid,
                hardlink,
                xattrs: copy_xattrs(&e.xattrs),
                acl: copy_range(e.acl.as_slice(), 0, e.acl.len()),
                default_acl: copy_range(e.default_acl.as_slice(), 0, e.default_acl.len()),
            },
        );
        proof {
            assert(e.path@.subrange(0, e.path@.len() as int) =~= e.path@);
            assert(e.acl@.subrange(0, e.acl@.len() as int) =~= e.acl@);
            assert(e.default_acl@.subrange(0, e.default_acl@.len() as int) =~= e.default_acl@);
            let q = linked_inodes(s, (i + 1) as nat);
            assert(q == groups@);
            assert(k == inode_key(s[i as int]));
            if linked {
                assert(q[pos as int] == k);
                lemma_position_in(q, k, pos as int);
            }
            assert forall|j: int|
                0 <= j < i + 1 && is_linked(s, inode_key(s[j])) implies q.contains(
                inode_key(s[j]),
            ) by {
                if j < i {
                    let t = choose|t: int| 0 <= t < p.len() && p[t] == inode_key(s[j]);
                    assert(q[t] == inode_key(s[j]));
                } else {
                    assert(q[pos as int] == k);
                }
            }
            assert forall|j: int|
                0 <= j < i + 1 implies (#[trigger] out@[j])@ == grouped_entry(
                s[j],
                if is_linked(s, inode_key(s[j])) {
                    Some(position_in(q, inode_key(s[j])) as u32)
                } else {
                    None
                },
            ) by {
                if j < i && is_linked(s, inode_key(s[j])) {
                    if q != p {
                        lemma_position_in_push(p, k, inode_key(s[j]));
                    }
                }
            }
        }
        i = i + 1;
    }
    proof {
        assert(s.len() as nat == i as nat);
    }
    out
}

} // verus!
