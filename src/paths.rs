//! Paths as sequences of components, relative-path keys and their rendering.
use vstd::prelude::*;

verus! {

/// The mathematical form of a path: the bytes of each component, in order.
pub open spec fn path_view(p: Seq<Vec<u8>>) -> Seq<Seq<u8>> {
    p.map_values(|c: Vec<u8>| c@)
}

/// Whether `root` is a leading run of components of `path`.
pub open spec fn is_under(path: Seq<Seq<u8>>, root: Seq<Seq<u8>>) -> bool {
    root.len() <= path.len() && path.take(root.len() as int) == root
}

/// The key of `path` relative to `root`: the components after the root's.
pub open spec fn strip_root(path: Seq<Seq<u8>>, root: Seq<Seq<u8>>) -> Seq<Seq<u8>> {
    path.skip(root.len() as int)
}

/// Whether two byte strings are equal.
pub fn bytes_eq(a: &Vec<u8>, b: &Vec<u8>) -> (r: bool)
    ensures
        r == (a@ == b@),
{
    if a.len() != b.len() {
        return false;
    }
    let mut i: usize = 0;
    while i < a.len()
        invariant
            a.len() == b.len(),
            0 <= i <= a.len(),
            a@.take(i as int) == b@.take(i as int),
        decreases a.len() - i,
    {
        if a[i] != b[i] {
            assert(a@[i as int] != b@[i as int]);
            return false;
        }
        assert(a@.take(i as int + 1) == a@.take(i as int).push(a@[i as int]));
        assert(b@.take(i as int + 1) == b@.take(i as int).push(b@[i as int]));
        i = i + 1;
    }
    assert(a@ == a@.take(a.len() as int));
    assert(b@ == b@.take(b.len() as int));
    true
}

/// Whether two paths have the same components.
pub fn path_eq(a: &Vec<Vec<u8>>, b: &Vec<Vec<u8>>) -> (r: bool)
    ensures
        r == (path_view(a@) == path_view(b@)),
{
    if a.len() != b.len() {
        assert(path_view(a@).len() != path_view(b@).len());
        return false;
    }
    let mut i: usize = 0;
    while i < a.len()
        invariant
            a.len() == b.len(),
            0 <= i <= a.len(),
            path_view(a@).take(i as int) == path_view(b@).take(i as int),
        decreases a.len() - i,
    {
        if !bytes_eq(&a[i], &b[i]) {
            assert(path_view(a@)[i as int] != path_view(b@)[i as int]);
            return false;
        }
        assert(path_view(a@).take(i as int + 1) == path_view(a@).take(i as int).push(
            path_view(a@)[i as int],
        ));
        assert(path_view(b@).take(i as int + 1) == path_view(b@).take(i as int).push(
            path_view(b@)[i as int],
        ));
        i = i + 1;
    }
    assert(path_view(a@) == path_view(a@).take(a.len() as int));
    assert(path_view(b@) == path_view(b@).take(b.len() as int));
    true
}

/// The key of `path` relative to `root`, or `None` where `path` does not
/// lie under `root`. A root matches whole components only: `a/bc` does not
/// lie under `a/b`.
pub fn relative_key(path: &Vec<Vec<u8>>, root: &Vec<Vec<u8>>) -> (r: Option<Vec<Vec<u8>>>)
    ensures
        r.is_some() == is_under(path_view(path@), path_view(root@)),
        r.is_some() ==> path_view(r->0@) == strip_root(path_view(path@), path_view(root@)),
{
    let ghost pv = path_view(path@);
    let ghost rv = path_view(root@);
    if root.len() > path.len() {
        return None;
    }
    let mut i: usize = 0;
    while i < root.len()
        invariant
            root.len() <= path.len(),
            0 <= i <= root.len(),
            pv == path_view(path@),
            rv == path_view(root@),
            pv.take(i as int) == rv.take(i as int),
        decreases root.len() - i,
    {
        if !bytes_eq(&path[i], &root[i]) {
            assert(pv.take(root.len() as int)[i as int] != rv[i as int]);
            return None;
        }
        assert(pv.take(i as int + 1) == pv.take(i as int).push(pv[i as int]));
        assert(rv.take(i as int + 1) == rv.take(i as int).push(rv[i as int]));
        i = i + 1;
    }
    assert(rv == rv.take(root.len() as int));
    let mut key: Vec<Vec<u8>> = Vec::new();
    let mut j: usize = root.len();
    while j < path.len()
        invariant
            root.len() <= j <= path.len(),
            pv == path_view(path@),
            pv.len() == path.len(),
            key.len() == j - root.len(),
            path_view(key@) == pv.subrange(root.len() as int, j as int),
        decreases path.len() - j,
    {
        let c = path[j].clone();
        assert(c@ == path@[j as int]@);
        let ghost prev = key@;
        key.push(c);
        assert(key@ == prev.push(c));
        assert forall|t: int| 0 <= t < key@.len() implies path_view(key@)[t] == pv.subrange(
            root.len() as int,
            j as int + 1,
        )[t] by {
            if t < prev.len() {
                assert(path_view(prev)[t] == pv.subrange(root.len() as int, j as int)[t]);
            }
        }
        assert(path_view(key@) =~= pv.subrange(root.len() as int, j as int + 1));
        j = j + 1;
    }
    Some(key)
}

/// A path written with `/` between its components.
pub open spec fn join_path(k: Seq<Seq<u8>>) -> Seq<u8>
    decreases k.len(),
{
    if k.len() == 0 {
        Seq::empty()
    } else if k.len() == 1 {
        k[0]
    } else {
        join_path(k.drop_last()) + seq![47u8] + k.last()
    }
}

/// Writes a path with `/` between its components.
pub fn render_path(k: &Vec<Vec<u8>>) -> (r: Vec<u8>)
    ensures
        r@ == join_path(path_view(k@)),
{
    let ghost kv = path_view(k@);
    let mut out: Vec<u8> = Vec::new();
    let mut i: usize = 0;
    while i < k.len()
        invariant
            0 <= i <= k.len(),
            kv == path_view(k@),
            out@ == join_path(kv.take(i as int)),
        decreases k.len() - i,
    {
        assert(kv.take(i as int + 1).drop_last() == kv.take(i as int));
        if i > 0 {
            out.push(47u8);
        }
        let mut j: usize = 0;
        let ghost before = out@;
        while j < k[i].len()
            invariant
                0 <= i < k.len(),
                0 <= j <= k[i as int]@.len(),
                out@ == before + k[i as int]@.take(j as int),
            decreases k[i as int]@.len() - j,
        {
            out.push(k[i][j]);
            assert(k[i as int]@.take(j as int + 1) == k[i as int]@.take(j as int).push(k[i as int]@[j as int]));
            j = j + 1;
        }
        assert(k[i as int]@.take(j as int) == k[i as int]@);
        assert(kv[i as int] == k[i as int]@);
        i = i + 1;
    }
    assert(kv.take(k.len() as int) == kv);
    out
}

} // verus!
