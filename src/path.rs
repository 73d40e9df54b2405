//! Paths as platform-native byte strings, and how child paths are formed.
use vstd::prelude::*;

verus! {

/// The platform path separator (`/`).
pub const SEPARATOR: u8 = 0x2f;

/// A directory entry name: non-empty, and without a separator byte.
pub open spec fn is_entry_name(name: Seq<u8>) -> bool {
    &&& name.len() > 0
    &&& forall|i: int| 0 <= i < name.len() ==> name[i] != SEPARATOR
}

/// The path of the entry `name` inside the directory `parent`.
pub open spec fn child_path(parent: Seq<u8>, name: Seq<u8>) -> Seq<u8> {
    parent + seq![SEPARATOR] + name
}

/// A child path determines its parent and its name.
pub proof fn lemma_child_path_injective(p1: Seq<u8>, n1: Seq<u8>, p2: Seq<u8>, n2: Seq<u8>)
    requires
        is_entry_name(n1),
        is_entry_name(n2),
        child_path(p1, n1) == child_path(p2, n2),
    ensures
        p1 == p2,
        n1 == n2,
{
    let c = child_path(p1, n1);
    assert(c == child_path(p2, n2));
    if n1.len() < n2.len() {
        let k = c.len() - n1.len() - 1;
        assert(c[k] == SEPARATOR);
        assert(c[k] == n2[n2.len() - n1.len() - 1]);
    } else if n2.len() < n1.len() {
        let k = c.len() - n2.len() - 1;
        assert(c[k] == SEPARATOR);
        assert(c[k] == n1[n1.len() - n2.len() - 1]);
    }
    assert(p1.len() == p2.len());
    assert(p1 =~= c.subrange(0, p1.len() as int));
    assert(p2 =~= c.subrange(0, p2.len() as int));
    assert(n1 =~= c.subrange(c.len() - n1.len(), c.len() as int));
    assert(n2 =~= c.subrange(c.len() - n2.len(), c.len() as int));
}

/// Builds `parent` + separator + `name`, byte for byte.
pub fn join_child(parent: &Vec<u8>, name: &Vec<u8>) -> (r: Vec<u8>)
    ensures
        r@ == child_path(parent@, name@),
{
    let mut r = copy_path(parent);
    r.push(SEPARATOR);
    let ghost head = r@;
    r.extend_from_slice(name.as_slice());
    assert forall|i: int| 0 <= i < r@.len() implies r@[i] == child_path(parent@, name@)[i] by {
        if i >= head.len() {
            assert(vstd::pervasive::cloned::<u8>(name@[i - head.len()], r@[i]));
        }
    }
    assert(r@ =~= child_path(parent@, name@));
    r
}

/// Whether `name` can stand as one entry of a directory listing.
pub fn check_entry_name(name: &Vec<u8>) -> (r: bool)
    ensures
        r == is_entry_name(name@),
{
    if name.len() == 0 {
        return false;
    }
    let mut i: usize = 0;
    while i < name.len()
        invariant
            i <= name.len(),
            forall|k: int| 0 <= k < i ==> name@[k] != SEPARATOR,
        decreases name.len() - i,
    {
        if name[i] == SEPARATOR {
            return false;
        }
        i += 1;
    }
    true
}

/// Byte-for-byte equality of two paths.
pub fn same_path(a: &Vec<u8>, b: &Vec<u8>) -> (r: bool)
    ensures
        r == (a@ == b@),
{
    if a.len() != b.len() {
        return false;
    }
    let mut i: usize = 0;
    while i < a.len()
        invariant
            i <= a.len(),
            a.len() == b.len(),
            forall|k: int| 0 <= k < i ==> a@[k] == b@[k],
        decreases a.len() - i,
    {
        if a[i] != b[i] {
            return false;
        }
        i += 1;
    }
    assert(a@ =~= b@);
    true
}


/// A fresh copy of a path.
pub fn copy_path(p: &Vec<u8>) -> (r: Vec<u8>)
    ensures
        r@ == p@,
{
    let r = p.clone();
    assert forall|i: int| 0 <= i < r@.len() implies r@[i] == p@[i] by {
        assert(vstd::pervasive::cloned::<u8>(p[i], r[i]));
    }
    assert(r@ =~= p@);
    r
}

/// Byte-lexicographic order: `a` sorts strictly before `b`.
pub open spec fn bytes_lt(a: Seq<u8>, b: Seq<u8>) -> bool
    decreases a.len(),
{
    if b.len() == 0 {
        false
    } else if a.len() == 0 {
        true
    } else if a[0] != b[0] {
        a[0] < b[0]
    } else {
        bytes_lt(a.drop_first(), b.drop_first())
    }
}

/// Compares two paths byte-lexicographically.
pub fn compare_paths(a: &Vec<u8>, b: &Vec<u8>) -> (r: std::cmp::Ordering)
    ensures
        r == std::cmp::Ordering::Less <==> bytes_lt(a@, b@),
        r == std::cmp::Ordering::Greater <==> bytes_lt(b@, a@),
        r == std::cmp::Ordering::Equal <==> a@ == b@,
{
    let mut i: usize = 0;
    assert(a@.subrange(0, a@.len() as int) =~= a@);
    assert(b@.subrange(0, b@.len() as int) =~= b@);
    while i < a.len() && i < b.len()
        invariant
            i <= a.len(),
            i <= b.len(),
            a@.subrange(0, i as int) == b@.subrange(0, i as int),
            bytes_lt(a@, b@) == bytes_lt(a@.subrange(i as int, a@.len() as int), b@.subrange(i as int, b@.len() as int)),
            bytes_lt(b@, a@) == bytes_lt(b@.subrange(i as int, b@.len() as int), a@.subrange(i as int, a@.len() as int)),
        decreases a.len() - i,
    {
        let x = a[i];
        let y = b[i];
        let ghost ra = a@.subrange(i as int, a@.len() as int);
        let ghost rb = b@.subrange(i as int, b@.len() as int);
        if x < y {
            assert(ra[0] == x && rb[0] == y);
            assert(a@[i as int] != b@[i as int]);
            return std::cmp::Ordering::Less;
        }
        if y < x {
            assert(ra[0] == x && rb[0] == y);
            assert(a@[i as int] != b@[i as int]);
            return std::cmp::Ordering::Greater;
        }
        assert(ra.drop_first() =~= a@.subrange(i + 1, a@.len() as int));
        assert(rb.drop_first() =~= b@.subrange(i + 1, b@.len() as int));
        assert(a@.subrange(0, i + 1) =~= a@.subrange(0, i as int).push(x));
        assert(b@.subrange(0, i + 1) =~= b@.subrange(0, i as int).push(y));
        i += 1;
    }
    let ghost ra = a@.subrange(i as int, a@.len() as int);
    let ghost rb = b@.subrange(i as int, b@.len() as int);
    if a.len() < b.len() {
        assert(a@.len() != b@.len());
        std::cmp::Ordering::Less
    } else if b.len() < a.len() {
        assert(a@.len() != b@.len());
        std::cmp::Ordering::Greater
    } else {
        assert(a@ =~= a@.subrange(0, i as int));
        assert(b@ =~= b@.subrange(0, i as int));
        assert(ra.len() == 0 && rb.len() == 0);
        std::cmp::Ordering::Equal
    }
}

} // verus!
