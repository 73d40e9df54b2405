//! What a walk returns: the recorded entries and the path-bytes metric.
use vstd::prelude::*;

use crate::path::{bytes_lt, compare_paths, same_path};

verus! {

/// A sequence of entries, each path seen as its bytes.
pub open spec fn entry_views<O>(entries: Seq<(Vec<u8>, O)>) -> Seq<(Seq<u8>, O)> {
    entries.map_values(|e: (Vec<u8>, O)| (e.0@, e.1))
}

/// The paths of a sequence of entries.
pub open spec fn keys_of<O>(entries: Seq<(Vec<u8>, O)>) -> Seq<Seq<u8>> {
    entries.map_values(|e: (Vec<u8>, O)| e.0@)
}

/// The sum of the byte lengths of the paths of a sequence of entries.
pub open spec fn total_bytes<O>(entries: Seq<(Vec<u8>, O)>) -> int
    decreases entries.len(),
{
    if entries.len() == 0 {
        0
    } else {
        total_bytes(entries.drop_last()) + entries.last().0@.len()
    }
}

/// Entries sorted byte-lexicographically by path.
pub open spec fn sorted_by_path<O>(entries: Seq<(Vec<u8>, O)>) -> bool {
    forall|i: int, j: int|
        0 <= i < j < entries.len() ==> !bytes_lt(#[trigger] entries[j].0@, #[trigger] entries[i].0@)
}

/// The results of a walk: each visited path with what the visitor returned
/// for it, and the total byte length of all those paths (useful to size an
/// output buffer).
pub struct WalkResults<O> {
    /// All paths visited, with the visitor's output, in no particular order.
    pub paths: Vec<(Vec<u8>, O)>,
    /// The sum of the byte lengths of all paths visited.
    pub total_path_sizes: u64,
}

impl<O> WalkResults<O> {
    /// Well-formed results: no path twice, and the metric matches the paths.
    pub open spec fn wf(&self) -> bool {
        &&& keys_of(self.paths@).no_duplicates()
        &&& self.total_path_sizes == total_bytes(self.paths@)
    }
}

impl<O: Copy> WalkResults<O> {
    /// The number of paths visited.
    pub fn len(&self) -> (r: usize)
        ensures
            r == self.paths@.len(),
    {
        self.paths.len()
    }

    /// What the visitor returned for `path`, if the walk visited it.
    pub fn get(&self, path: &Vec<u8>) -> (r: Option<O>)
        ensures
            r matches Some(v) ==> exists|i: int|
                0 <= i < self.paths@.len() && (#[trigger] self.paths@[i]).0@ == path@
                    && self.paths@[i].1 == v,
            r is None ==> forall|i: int|
                0 <= i < self.paths@.len() ==> (#[trigger] self.paths@[i]).0@ != path@,
    {
        let mut i: usize = 0;
        while i < self.paths.len()
            invariant
                i <= self.paths@.len(),
                forall|k: int| 0 <= k < i ==> (#[trigger] self.paths@[k]).0@ != path@,
            decreases self.paths@.len() - i,
        {
            if same_path(&self.paths[i].0, path) {
                assert(self.paths@[i as int].0@ == path@);
                return Some(self.paths[i].1);
            }
            i += 1;
        }
        None
    }

    /// The same entries, sorted byte-lexicographically by path.
    pub fn paths_ordered(&self) -> (r: Vec<(Vec<u8>, O)>)
        ensures
            entry_views(r@).to_multiset() == entry_views(self.paths@).to_multiset(),
            r@.len() == self.paths@.len(),
            sorted_by_path(r@),
    {
        let mut out: Vec<(Vec<u8>, O)> = Vec::with_capacity(self.paths.len());
        let mut i: usize = 0;
        while i < self.paths.len()
            invariant
                i <= self.paths@.len(),
                out@.len() == i,
                entry_views(out@) == entry_views(self.paths@.subrange(0, i as int)),
            decreases self.paths@.len() - i,
        {
            let p = crate::path::copy_path(&self.paths[i].0);
            let v = self.paths[i].1;
            let ghost before = out@;
            out.push((p, v));
            assert(out@ == before.push((p, v)));
            assert forall|k: int| 0 <= k < i + 1 implies #[trigger] entry_views(out@)[k]
                == entry_views(self.paths@.subrange(0, i + 1))[k] by {
                if k < i {
                    assert(entry_views(before)[k] == entry_views(self.paths@.subrange(0, i as int))[k]);
                }
            }
            assert(entry_views(out@) =~= entry_views(self.paths@.subrange(0, i + 1)));
            i += 1;
        }
        assert(self.paths@.subrange(0, i as int) =~= self.paths@);
        sort_entries(&mut out);
        out
    }
}

/// Relies on slice::sort_by: sorts the entries by the given comparison, which
/// is a total order here (byte-lexicographic order of the paths), keeping
/// every entry.
#[verifier::external_body]
fn sort_entries<O>(v: &mut Vec<(Vec<u8>, O)>)
    ensures
        entry_views(final(v)@).to_multiset() == entry_views(old(v)@).to_multiset(),
        final(v)@.len() == old(v)@.len(),
        sorted_by_path(final(v)@),
{
    v.sort_by(|a, b| compare_paths(&a.0, &b.0));
}

} // verus!
