//! Path handling on raw bytes, following the Unix rules of `std::path`:
//! a path is split on `/`; empty pieces and `.` pieces are dropped, except
//! that a leading `/` yields a root component and a relative path whose first
//! piece is `.` yields a current-directory component; `..` is kept as a
//! parent-directory component.  Each component is represented by the bytes
//! that `Component::as_os_str` gives for it (`/`, `.`, `..`, or the name).

use vstd::prelude::*;

verus! {

pub open spec fn slash() -> u8 {
    0x2fu8
}

pub open spec fn dot() -> u8 {
    0x2eu8
}

/// The pieces of `p` between the `/` separators, empty pieces included
/// (so there is always at least one piece).
pub open spec fn split_slash(p: Seq<u8>) -> Seq<Seq<u8>>
    decreases p.len(),
{
    if p.len() == 0 {
        seq![Seq::<u8>::empty()]
    } else {
        let prev = split_slash(p.drop_last());
        if p.last() == slash() {
            prev.push(Seq::<u8>::empty())
        } else {
            prev.update(prev.len() - 1, prev.last().push(p.last()))
        }
    }
}

/// A piece that names a file or directory (a `Normal` component).
pub open spec fn is_normal_piece(s: Seq<u8>) -> bool {
    &&& s.len() > 0
    &&& s != seq![dot()]
    &&& s != seq![dot(), dot()]
}

/// A piece that survives as a component when it is not the first one:
/// everything but empty pieces and `.`.
pub open spec fn is_kept_piece(s: Seq<u8>) -> bool {
    s.len() > 0 && s != seq![dot()]
}

/// The normal pieces of `pieces`, in order.
pub open spec fn keep_normal(pieces: Seq<Seq<u8>>) -> Seq<Seq<u8>>
    decreases pieces.len(),
{
    if pieces.len() == 0 {
        Seq::empty()
    } else {
        let k = keep_normal(pieces.drop_last());
        if is_normal_piece(pieces.last()) {
            k.push(pieces.last())
        } else {
            k
        }
    }
}

/// The pieces of `pieces` that are kept as components, in order.
pub open spec fn keep_components(pieces: Seq<Seq<u8>>) -> Seq<Seq<u8>>
    decreases pieces.len(),
{
    if pieces.len() == 0 {
        Seq::empty()
    } else {
        let k = keep_components(pieces.drop_last());
        if is_kept_piece(pieces.last()) {
            k.push(pieces.last())
        } else {
            k
        }
    }
}

/// The `Normal` components of a path, as raw bytes.
pub open spec fn normal_names(p: Seq<u8>) -> Seq<Seq<u8>> {
    keep_normal(split_slash(p))
}

/// The root or current-directory component that starts a path, if any.
pub open spec fn leading_component(p: Seq<u8>) -> Seq<Seq<u8>> {
    if p.len() > 0 && p[0] == slash() {
        seq![seq![slash()]]
    } else if split_slash(p)[0] == seq![dot()] {
        seq![seq![dot()]]
    } else {
        Seq::empty()
    }
}

/// All components of a path, each as the bytes of its `as_os_str`.
/// Two paths are equal as `Path`s exactly when these sequences are equal.
pub open spec fn path_components(p: Seq<u8>) -> Seq<Seq<u8>> {
    leading_component(p) + keep_components(split_slash(p))
}

pub open spec fn byte_seqs(v: Seq<Vec<u8>>) -> Seq<Seq<u8>> {
    v.map_values(|b: Vec<u8>| b@)
}

proof fn lemma_split_nonempty(p: Seq<u8>)
    ensures
        split_slash(p).len() >= 1,
    decreases p.len(),
{
    if p.len() > 0 {
        lemma_split_nonempty(p.drop_last());
    }
}

/// Appending `/` and a slash-free `name` to a path adds `name` as one more
/// piece.
pub proof fn lemma_split_append_piece(p: Seq<u8>, name: Seq<u8>)
    requires
        forall|i: int| 0 <= i < name.len() ==> name[i] != slash(),
    ensures
        split_slash(p + seq![slash()] + name) == split_slash(p).push(name),
    decreases name.len(),
{
    if name.len() == 0 {
        assert(p + seq![slash()] + name =~= p.push(slash()));
        assert(p.push(slash()).drop_last() =~= p);
        assert(name =~= Seq::<u8>::empty());
    } else {
        let shorter = name.drop_last();
        lemma_split_append_piece(p, shorter);
        let q = p + seq![slash()] + name;
        assert(q.drop_last() =~= p + seq![slash()] + shorter);
        assert(q.last() == name.last());
        assert(name.last() != slash());
        assert(shorter.push(name.last()) =~= name);
        let prev = split_slash(p).push(shorter);
        assert(prev.last() == shorter);
        assert(split_slash(q) == prev.update(prev.len() - 1, prev.last().push(q.last())));
        assert(split_slash(p).push(shorter).update(
            split_slash(p).len() as int,
            shorter.push(name.last()),
        ) =~= split_slash(p).push(name));
    }
}

/// Appending `/` and a file name to a path adds exactly that name to the
/// path's `Normal` components.  A file name is any non-empty piece without
/// `/` other than `.` and `..`; a name that begins with a dot (`.hidden`) is
/// one like any other.
pub proof fn law_normal_names_append(p: Seq<u8>, name: Seq<u8>)
    requires
        name.len() > 0,
        name != seq![0x2eu8],
        name != seq![0x2eu8, 0x2eu8],
        forall|i: int| 0 <= i < name.len() ==> name[i] != 0x2fu8,
    ensures
        normal_names(p + seq![0x2fu8] + name) == normal_names(p).push(name),
{
    lemma_split_append_piece(p, name);
    let pieces = split_slash(p).push(name);
    assert(pieces.drop_last() =~= split_slash(p));
    assert(pieces.last() == name);
}

/// Appending `/` and a name to a non-empty path adds exactly that name as
/// its last component, as `Path::join` does; a name that begins with a dot
/// is kept like any other, and so is `..`.
pub proof fn law_path_components_append(p: Seq<u8>, name: Seq<u8>)
    requires
        p.len() > 0,
        name.len() > 0,
        name != seq![0x2eu8],
        forall|i: int| 0 <= i < name.len() ==> name[i] != 0x2fu8,
    ensures
        path_components(p + seq![0x2fu8] + name) == path_components(p).push(name),
{
    let q = p + seq![0x2fu8] + name;
    lemma_split_append_piece(p, name);
    lemma_split_nonempty(p);
    assert(q[0] == p[0]);
    assert(split_slash(q)[0] == split_slash(p)[0]);
    assert(leading_component(q) == leading_component(p));
    let pieces = split_slash(p).push(name);
    assert(pieces.drop_last() =~= split_slash(p));
    assert(pieces.last() == name);
    assert(keep_components(pieces) == keep_components(split_slash(p)).push(name));
    assert(path_components(q) =~= path_components(p).push(name));
}

/// Two different names under the same non-empty path make two different
/// paths: `dir/.bashrc` is not `dir/.profile`.
pub proof fn law_distinct_children_differ(p: Seq<u8>, a: Seq<u8>, b: Seq<u8>)
    requires
        p.len() > 0,
        a.len() > 0,
        b.len() > 0,
        a != seq![0x2eu8],
        b != seq![0x2eu8],
        forall|i: int| 0 <= i < a.len() ==> a[i] != 0x2fu8,
        forall|i: int| 0 <= i < b.len() ==> b[i] != 0x2fu8,
        a != b,
    ensures
        path_components(p + seq![0x2fu8] + a) != path_components(p + seq![0x2fu8] + b),
{
    law_path_components_append(p, a);
    law_path_components_append(p, b);
    assert(path_components(p).push(a).last() == a);
    assert(path_components(p).push(b).last() == b);
}

/// Splits `p` on `/`, keeping empty pieces.
pub fn split_pieces(p: &[u8]) -> (pieces: Vec<Vec<u8>>)
    ensures
        byte_seqs(pieces@) == split_slash(p@),
{
    let mut done: Vec<Vec<u8>> = Vec::new();
    let mut cur: Vec<u8> = Vec::new();
    let mut i: usize = 0;
    assert(p@.take(0) =~= Seq::<u8>::empty());
    while i < p.len()
        invariant
            i <= p@.len(),
            byte_seqs(done@).push(cur@) == split_slash(p@.take(i as int)),
        decreases p@.len() - i,
    {
        let b = p[i];
        proof {
            lemma_split_nonempty(p@.take(i as int));
            assert(p@.take(i as int + 1).drop_last() =~= p@.take(i as int));
        }
        if b == 0x2f {
            let piece = cur;
            done.push(piece);
            cur = Vec::new();
            assert(byte_seqs(done@).push(cur@) =~= split_slash(p@.take(i as int + 1)));
        } else {
            cur.push(b);
            assert(byte_seqs(done@).push(cur@) =~= split_slash(p@.take(i as int + 1)));
        }
        i = i + 1;
    }
    assert(p@.take(i as int) =~= p@);
    done.push(cur);
    assert(byte_seqs(done@) =~= split_slash(p@));
    done
}

/// Byte-wise equality.
pub fn bytes_eq(a: &[u8], b: &[u8]) -> (r: bool)
    ensures
        r == (a@ == b@),
{
    if a.len() != b.len() {
        return false;
    }
    let mut i: usize = 0;
    while i < a.len()
        invariant
            a@.len() == b@.len(),
            i <= a@.len(),
            forall|j: int| 0 <= j < i ==> a@[j] == b@[j],
        decreases a@.len() - i,
    {
        if a[i] != b[i] {
            return false;
        }
        i = i + 1;
    }
    assert(a@ =~= b@);
    true
}

fn is_normal(piece: &Vec<u8>) -> (r: bool)
    ensures
        r == is_normal_piece(piece@),
{
    let n = piece.len();
    if n == 0 {
        false
    } else if n == 1 && piece[0] == 0x2e {
        assert(piece@ =~= seq![dot()]);
        false
    } else if n == 2 && piece[0] == 0x2e && piece[1] == 0x2e {
        assert(piece@ =~= seq![dot(), dot()]);
        false
    } else {
        assert(piece@ != seq![dot()]) by {
            if n == 1 {
                assert(piece@[0] != seq![dot()][0]);
            }
        };
        assert(piece@ != seq![dot(), dot()]) by {
            if n == 2 {
                if piece@[0] != dot() {
                    assert(piece@[0] != seq![dot(), dot()][0]);
                } else {
                    assert(piece@[1] != seq![dot(), dot()][1]);
                }
            }
        };
        true
    }
}

fn is_kept(piece: &Vec<u8>) -> (r: bool)
    ensures
        r == is_kept_piece(piece@),
{
    let n = piece.len();
    if n == 0 {
        false
    } else if n == 1 && piece[0] == 0x2e {
        assert(piece@ =~= seq![dot()]);
        false
    } else {
        assert(piece@ != seq![dot()]) by {
            if n == 1 {
                assert(piece@[0] != seq![dot()][0]);
            }
        };
        true
    }
}

/// The `Normal` components of `p`, as raw bytes, in order.
pub fn normal_component_bytes(p: &[u8]) -> (names: Vec<Vec<u8>>)
    ensures
        byte_seqs(names@) == normal_names(p@),
{
    let pieces = split_pieces(p);
    let ghost ps = byte_seqs(pieces@);
    let mut out: Vec<Vec<u8>> = Vec::new();
    let mut i: usize = 0;
    assert(ps.take(0) =~= Seq::<Seq<u8>>::empty());
    while i < pieces.len()
        invariant
            ps == byte_seqs(pieces@),
            i <= pieces@.len(),
            byte_seqs(out@) == keep_normal(ps.take(i as int)),
        decreases pieces@.len() - i,
    {
        assert(ps.take(i as int + 1).drop_last() =~= ps.take(i as int));
        assert(ps.take(i as int + 1).last() == pieces@[i as int]@);
        if is_normal(&pieces[i]) {
            let piece = copy_bytes(&pieces[i]);
            out.push(piece);
            assert(byte_seqs(out@) =~= keep_normal(ps.take(i as int + 1)));
        } else {
            assert(byte_seqs(out@) =~= keep_normal(ps.take(i as int + 1)));
        }
        i = i + 1;
    }
    assert(ps.take(i as int) =~= ps);
    out
}

/// All components of `p`, each as the bytes of its `as_os_str`.
pub fn components(p: &[u8]) -> (comps: Vec<Vec<u8>>)
    ensures
        byte_seqs(comps@) == path_components(p@),
{
    let pieces = split_pieces(p);
    let ghost ps = byte_seqs(pieces@);
    proof {
        lemma_split_nonempty(p@);
    }
    let mut out: Vec<Vec<u8>> = Vec::new();
    if p.len() > 0 && p[0] == 0x2f {
        let mut root: Vec<u8> = Vec::new();
        root.push(0x2f);
        out.push(root);
    } else if pieces[0].len() == 1 && pieces[0][0] == 0x2e {
        let mut cur: Vec<u8> = Vec::new();
        cur.push(0x2e);
        out.push(cur);
        assert(ps[0] =~= seq![dot()]);
    } else {
        assert(ps[0] != seq![dot()]) by {
            if ps[0].len() == 1 {
                assert(ps[0][0] != seq![dot()][0]);
            }
        };
    }
    let ghost lead = byte_seqs(out@);
    assert(lead =~= leading_component(p@));
    let mut i: usize = 0;
    assert(ps.take(0) =~= Seq::<Seq<u8>>::empty());
    while i < pieces.len()
        invariant
            ps == byte_seqs(pieces@),
            i <= pieces@.len(),
            byte_seqs(out@) == lead + keep_components(ps.take(i as int)),
        decreases pieces@.len() - i,
    {
        assert(ps.take(i as int + 1).drop_last() =~= ps.take(i as int));
        assert(ps.take(i as int + 1).last() == pieces@[i as int]@);
        if is_kept(&pieces[i]) {
            let piece = copy_bytes(&pieces[i]);
            let ghost before = byte_seqs(out@);
            out.push(piece);
            assert(keep_components(ps.take(i as int + 1)) == keep_components(ps.take(i as int)).push(ps[i as int]));
            assert(byte_seqs(out@) =~= before.push(ps[i as int]));
            assert(byte_seqs(out@) =~= lead + keep_components(ps.take(i as int + 1)));
        } else {
            assert(byte_seqs(out@) =~= lead + keep_components(ps.take(i as int + 1)));
        }
        i = i + 1;
    }
    assert(ps.take(i as int) =~= ps);
    out
}

/// A fresh copy of `v`.
pub fn copy_bytes(v: &[u8]) -> (r: Vec<u8>)
    ensures
        r@ == v@,
{
    let mut r: Vec<u8> = Vec::new();
    let mut i: usize = 0;
    while i < v.len()
        invariant
            i <= v@.len(),
            r@ == v@.take(i as int),
        decreases v@.len() - i,
    {
        r.push(v[i]);
        i = i + 1;
        assert(r@ =~= v@.take(i as int));
    }
    assert(v@.take(i as int) =~= v@);
    r
}

/// Element-wise equality of two component lists.
pub fn components_eq(a: &Vec<Vec<u8>>, b: &Vec<Vec<u8>>) -> (r: bool)
    ensures
        r == (byte_seqs(a@) == byte_seqs(b@)),
{
    if a.len() != b.len() {
        assert(byte_seqs(a@).len() != byte_seqs(b@).len());
        return false;
    }
    let mut i: usize = 0;
    while i < a.len()
        invariant
            a@.len() == b@.len(),
            i <= a@.len(),
            forall|j: int| 0 <= j < i ==> a@[j]@ == b@[j]@,
        decreases a@.len() - i,
    {
        if !bytes_eq(a[i].as_slice(), b[i].as_slice()) {
            assert(byte_seqs(a@)[i as int] != byte_seqs(b@)[i as int]);
            return false;
        }
        i = i + 1;
    }
    assert(byte_seqs(a@) =~= byte_seqs(b@));
    true
}

/// Whether `a` and `b` name the same path, comparing component by component
/// as `Path`'s equality does.
pub fn same_path(a: &[u8], b: &[u8]) -> (r: bool)
    ensures
        r == (path_components(a@) == path_components(b@)),
{
    let ca = components(a);
    let cb = components(b);
    components_eq(&ca, &cb)
}

/// `p` is a prefix of `s`.
pub open spec fn has_prefix(s: Seq<u8>, p: Seq<u8>) -> bool {
    p.len() <= s.len() && s.take(p.len() as int) == p
}

/// Whether `s` starts with the bytes `p`.
pub fn bytes_start_with(s: &[u8], p: &[u8]) -> (r: bool)
    ensures
        r == has_prefix(s@, p@),
{
    if p.len() > s.len() {
        return false;
    }
    let mut i: usize = 0;
    while i < p.len()
        invariant
            p@.len() <= s@.len(),
            i <= p@.len(),
            forall|j: int| 0 <= j < i ==> s@[j] == p@[j],
        decreases p@.len() - i,
    {
        if s[i] != p[i] {
            assert(s@.take(p@.len() as int)[i as int] != p@[i as int]);
            return false;
        }
        i = i + 1;
    }
    assert(s@.take(p@.len() as int) =~= p@);
    true
}

} // verus!
