//! Paths as text: their components and file name, as `std::path::Path`
//! splits a Unix path.

use vstd::prelude::*;

use super::text::{find_char_from, find_from, lemma_find_from, slice_chars, views_of};

verus! {

/// The parts of `s` between `sep` characters from `start` on, as
/// `str::split` gives them: `n` separators make `n + 1` parts.
pub open spec fn split_from(s: Seq<char>, sep: char, start: nat) -> Seq<Seq<char>>
    decreases s.len() + 1 - start,
{
    if start > s.len() {
        Seq::empty()
    } else {
        let e = find_from(s, sep, start);
        if e >= s.len() {
            seq![s.subrange(start as int, s.len() as int)]
        } else {
            proof {
                lemma_find_from(s, sep, start);
            }
            seq![s.subrange(start as int, e as int)] + split_from(s, sep, e + 1)
        }
    }
}

pub open spec fn split_on(s: Seq<char>, sep: char) -> Seq<Seq<char>> {
    split_from(s, sep, 0)
}

/// The parts of `s` between `sep` characters.
pub fn split_chars(s: &[char], sep: char) -> (r: Vec<Vec<char>>)
    ensures
        views_of(r@) == split_on(s@, sep),
        r@.len() >= 1,
{
    let mut r: Vec<Vec<char>> = Vec::new();
    let mut start: usize = 0;
    loop
        invariant
            start <= s@.len(),
            views_of(r@) + split_from(s@, sep, start as nat) == split_on(s@, sep),
        decreases s@.len() - start,
    {
        let e = find_char_from(s, sep, start);
        let part = slice_chars(s, start, e);
        let ghost before = views_of(r@);
        let ghost rest = split_from(s@, sep, start as nat);
        r.push(part);
        proof {
            assert(views_of(r@) =~= before.push(part@));
        }
        if e >= s.len() {
            proof {
                assert(rest =~= seq![part@]);
            }
            assert(views_of(r@) =~= split_on(s@, sep));
            return r;
        }
        proof {
            assert(before + rest =~= views_of(r@) + split_from(s@, sep, (e + 1) as nat));
        }
        start = e + 1;
    }
}

/// The parts that stay components: neither empty nor `.`.
pub open spec fn normal_parts(segs: Seq<Seq<char>>) -> Seq<Seq<char>>
    decreases segs.len(),
{
    if segs.len() == 0 {
        Seq::empty()
    } else {
        let rest = normal_parts(segs.drop_last());
        let s = segs.last();
        if s.len() == 0 || s == seq!['.'] {
            rest
        } else {
            rest.push(s)
        }
    }
}

/// The components of a Unix path as `Path::components` gives them, each as
/// its text: a leading `/` is the root component `/`, a leading `.` the
/// current-directory component `.`, and after that every non-empty part
/// other than `.`; repeated and trailing slashes give nothing.
pub open spec fn path_components(p: Seq<char>) -> Seq<Seq<char>> {
    let segs = split_on(p, '/');
    if p.len() > 0 && p[0] == '/' {
        seq![seq!['/']] + normal_parts(segs.drop_first())
    } else if segs.len() > 0 && segs[0] == seq!['.'] {
        seq![seq!['.']] + normal_parts(segs.drop_first())
    } else {
        normal_parts(segs)
    }
}

/// The file name of a path, as `Path::file_name` gives it: its last
/// component, unless that is the root, `.` or `..`.
pub open spec fn file_name(p: Seq<char>) -> Option<Seq<char>> {
    let cs = path_components(p);
    if cs.len() == 0 {
        None
    } else {
        let l = cs.last();
        if l == seq!['/'] || l == seq!['.'] || l == seq!['.', '.'] {
            None
        } else {
            Some(l)
        }
    }
}

fn is_dot(s: &[char]) -> (r: bool)
    ensures
        r == (s@ == seq!['.']),
{
    let r = s.len() == 1 && s[0] == '.';
    proof {
        if s@.len() == 1 && s@[0] == '.' {
            assert(s@ =~= seq!['.']);
        }
    }
    r
}

fn normal_parts_exec(segs: &Vec<Vec<char>>, from: usize, out: &mut Vec<Vec<char>>)
    requires
        from <= segs@.len(),
    ensures
        views_of(final(out)@) == views_of(old(out)@) + normal_parts(views_of(segs@).skip(from as int)),
{
    let ghost sv = views_of(segs@).skip(from as int);
    let mut i = from;
    let ghost start = views_of(out@);
    while i < segs.len()
        invariant
            from <= i <= segs@.len(),
            sv == views_of(segs@).skip(from as int),
            views_of(out@) == start + normal_parts(sv.take(i - from)),
        decreases segs@.len() - i,
    {
        proof {
            assert(sv.take(i - from + 1).drop_last() =~= sv.take(i - from));
            assert(sv.take(i - from + 1).last() == segs@[i as int]@);
        }
        let s = &segs[i];
        if s.len() > 0 && !is_dot(s.as_slice()) {
            let ghost before = views_of(out@);
            out.push(slice_chars(s.as_slice(), 0, s.len()));
            proof {
                assert(s@.subrange(0, s@.len() as int) =~= s@);
                assert(views_of(out@) =~= before.push(s@));
            }
        }
        i = i + 1;
    }
    proof {
        assert(sv.take(segs@.len() - from) =~= sv);
    }
}

/// The components of the Unix path `p`.
pub fn components_of(p: &[char]) -> (r: Vec<Vec<char>>)
    ensures
        views_of(r@) == path_components(p@),
{
    let segs = split_chars(p, '/');
    let mut out: Vec<Vec<char>> = Vec::new();
    proof {
        assert(views_of(out@) =~= Seq::<Seq<char>>::empty());
    }
    if p.len() > 0 && p[0] == '/' {
        let mut root: Vec<char> = Vec::new();
        root.push('/');
        out.push(root);
        proof {
            assert(views_of(out@) =~= seq![seq!['/']]);
            assert(views_of(segs@).skip(1) =~= views_of(segs@).drop_first());
        }
        normal_parts_exec(&segs, 1, &mut out);
    } else if is_dot(segs[0].as_slice()) {
        let mut dot: Vec<char> = Vec::new();
        dot.push('.');
        out.push(dot);
        proof {
            assert(views_of(out@) =~= seq![seq!['.']]);
            assert(views_of(segs@).skip(1) =~= views_of(segs@).drop_first());
        }
        normal_parts_exec(&segs, 1, &mut out);
    } else {
        proof {
            assert(views_of(segs@).skip(0) =~= views_of(segs@));
        }
        normal_parts_exec(&segs, 0, &mut out);
        proof {
            assert(Seq::<Seq<char>>::empty() + normal_parts(views_of(segs@)) =~= normal_parts(
                views_of(segs@),
            ));
        }
    }
    out
}

/// The file name of the Unix path `p`.
pub fn file_name_of(p: &[char]) -> (r: Option<Vec<char>>)
    ensures
        match r {
            Some(v) => file_name(p@) == Some(v@),
            None => file_name(p@) is None,
        },
{
    let cs = components_of(p);
    if cs.len() == 0 {
        return None;
    }
    let l = &cs[cs.len() - 1];
    proof {
        assert(views_of(cs@).last() == l@);
    }
    let is_root = l.len() == 1 && l[0] == '/';
    let is_dot = l.len() == 1 && l[0] == '.';
    let is_dotdot = l.len() == 2 && l[0] == '.' && l[1] == '.';
    proof {
        if is_root {
            assert(l@ =~= seq!['/']);
        }
        if is_dot {
            assert(l@ =~= seq!['.']);
        }
        if is_dotdot {
            assert(l@ =~= seq!['.', '.']);
        }
        if l@ == seq!['/'] || l@ == seq!['.'] || l@ == seq!['.', '.'] {
            assert(l@.len() <= 2);
        }
    }
    if is_root || is_dot || is_dotdot {
        None
    } else {
        Some(slice_chars(l.as_slice(), 0, l.len()))
    }
}

} // verus!
