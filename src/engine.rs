//! The walk engine: the work queue, each worker's progress through a task,
//! the termination protocol and the result store.
//!
//! The work queue is a global injector, into which the children of every
//! directory listed are pushed, and one local deque per worker. A worker
//! takes its next task from the front of its own deque; when that is empty,
//! it steals a batch from the front of the injector into its deque and takes
//! the first of the batch; when the injector is empty too, it steals the
//! front task of the first peer whose deque holds one.
//!
//! The engine makes every decision of a walk; the caller performs the
//! filesystem calls and the visitor calls that the engine asks for, from as
//! many threads as there are workers, and reports back. A worker asks for a
//! task with `next_task`, reports the link-stat with `classified`, the
//! listing (for a directory) with `listed`, and the visitor's output with
//! `visited`. A worker may stop when `next_task` answers `Finished`: then no
//! task is queued and no worker holds one, so no more work can appear.
use std::collections::VecDeque;
use vstd::prelude::*;

use crate::classify::{classify, Classification, Listing, StatOutcome, WalkError};
use crate::path::{
    child_path, copy_path, is_entry_name, join_child, lemma_child_path_injective, same_path,
};
use crate::results::{entry_views, keys_of, total_bytes, WalkResults};

verus! {

/// Where one worker stands.
pub enum Phase {
    /// Holds no task.
    Idle,
    /// Was handed this path and must report its link-stat.
    Classifying(Vec<u8>),
    /// Found this path to be a directory and must report its listing.
    Listing(Vec<u8>),
    /// Must call the visitor on this path and report its output.
    Visiting(Vec<u8>, bool),
}

/// Where one path stands in the walk.
pub enum Status {
    /// Queued in this queue (a worker's local deque, or the injector at
    /// the index one past the last worker), not yet handed to a worker.
    Queued(usize),
    /// Held by this worker, awaiting its link-stat.
    Classifying(usize),
    /// Held by this worker, awaiting its listing.
    Listing(usize),
    /// Held by this worker, awaiting the visitor's output.
    Visiting(usize),
    /// Recorded in the results.
    Done,
    /// Dropped: it could not be classified, or vanished before listing.
    Skipped,
}

/// What `next_task` tells a worker.
pub enum Step {
    /// Link-stat this path and report it with `classified`.
    Task(Vec<u8>),
    /// No task is queued, but a worker holds one and may queue more.
    Wait,
    /// No task is queued and no worker holds one: the walk is over.
    Finished,
}

/// What a worker must do next with the path it holds.
pub enum Action {
    /// List this directory and report it with `listed`.
    List(Vec<u8>),
    /// Call the visitor on this path and directory flag and report its
    /// output with `visited`.
    Visit(Vec<u8>, bool),
    /// Nothing: the path is dropped, ask for the next task.
    Skip,
}

/// The names of a listing, as bytes.
pub open spec fn name_views(names: Seq<Vec<u8>>) -> Seq<Seq<u8>> {
    names.map_values(|n: Vec<u8>| n@)
}

/// The paths that a listing of `parent` gives.
pub open spec fn children_of(parent: Seq<u8>, names: Seq<Seq<u8>>) -> Seq<Seq<u8>> {
    names.map_values(|n: Seq<u8>| child_path(parent, n))
}

/// A listing that the engine accepts: entry names, none twice.
pub open spec fn valid_names(names: Seq<Vec<u8>>) -> bool {
    &&& forall|i: int| 0 <= i < names.len() ==> is_entry_name(#[trigger] names[i]@)
    &&& name_views(names).no_duplicates()
}

/// Appending a new element keeps a sequence free of duplicates.
proof fn lemma_push_no_duplicates(s: Seq<Seq<u8>>, x: Seq<u8>)
    requires
        s.no_duplicates(),
        !s.contains(x),
    ensures
        s.push(x).no_duplicates(),
{
    let t = s.push(x);
    assert forall|i: int, j: int| 0 <= i < t.len() && 0 <= j < t.len() && i != j implies t[i] != t[j] by {
        if i < s.len() && j < s.len() {
            assert(t[i] == s[i] && t[j] == s[j]);
        } else if i < s.len() {
            assert(t[i] == s[i]);
        } else if j < s.len() {
            assert(t[j] == s[j]);
        }
    }
}

/// The path a phase holds, and the status it gives that path.
pub open spec fn phase_status(ph: Phase, w: usize) -> Option<(Seq<u8>, Status)> {
    match ph {
        Phase::Idle => None,
        Phase::Classifying(p) => Some((p@, Status::Classifying(w))),
        Phase::Listing(p) => Some((p@, Status::Listing(w))),
        Phase::Visiting(p, _) => Some((p@, Status::Visiting(w))),
    }
}

/// The worker that holds a path of this status, if any.
pub open spec fn holder(s: Status) -> Option<usize> {
    match s {
        Status::Classifying(w) => Some(w),
        Status::Listing(w) => Some(w),
        Status::Visiting(w) => Some(w),
        _ => None,
    }
}

/// A path whose children have been queued is being visited or is recorded.
pub open spec fn is_expanded_status(s: Status) -> bool {
    s is Visiting || s is Done
}

/// The most tasks one steal moves from the injector.
pub const MAX_BATCH: usize = 32;

/// How many tasks a worker steals from an injector holding `len` tasks:
/// half of them, rounded up, and at most `MAX_BATCH`.
pub open spec fn batch_size(len: nat) -> nat {
    let half = (len + 1) / 2;
    if half > MAX_BATCH {
        MAX_BATCH as nat
    } else {
        half
    }
}

/// One walk in progress: its queues, its workers, and the entries recorded
/// so far with the visitor's output for each.
pub struct Engine<O> {
    root: Vec<u8>,
    /// The local deque of each worker, then the injector.
    queues: Vec<VecDeque<Vec<u8>>>,
    /// Where each worker stands.
    phases: Vec<Phase>,
    /// The paths recorded, each with the visitor's output.
    entries: Vec<(Vec<u8>, O)>,
    /// The sum of the byte lengths of the paths recorded.
    total_path_bytes: u64,
    /// Every path ever queued, with where it stands.
    status: Ghost<Map<Seq<u8>, Status>>,
    /// For every queued path but the root: the directory and the name it
    /// was formed from.
    origin: Ghost<Map<Seq<u8>, (Seq<u8>, Seq<u8>)>>,
    /// For every directory whose children were queued: the names listed.
    listings: Ghost<Map<Seq<u8>, Seq<Seq<u8>>>>,
}

impl<O> Engine<O> {
    /// The path the walk started from.
    pub closed spec fn root(&self) -> Seq<u8> {
        self.root@
    }

    /// The number of workers.
    pub closed spec fn workers(&self) -> nat {
        self.phases@.len()
    }

    /// The phase of each worker.
    pub closed spec fn phases(&self) -> Seq<Phase> {
        self.phases@
    }

    /// The paths in queue `c` (worker `c`'s deque, or for `c == workers()`
    /// the injector), front first.
    pub closed spec fn queued(&self, c: int) -> Seq<Seq<u8>> {
        self.queues@[c]@.map_values(|p: Vec<u8>| p@)
    }

    /// The paths in the injector, front first.
    pub open spec fn injected(&self) -> Seq<Seq<u8>> {
        self.queued(self.workers() as int)
    }

    /// Whether some queue holds a task.
    pub open spec fn any_queued(&self) -> bool {
        ||| self.injected().len() > 0
        ||| exists|c: int| 0 <= c < self.workers() && #[trigger] self.queued(c).len() > 0
    }

    /// The entries recorded so far.
    pub closed spec fn entries(&self) -> Seq<(Vec<u8>, O)> {
        self.entries@
    }

    /// The path-bytes metric so far.
    pub closed spec fn total(&self) -> u64 {
        self.total_path_bytes
    }

    /// Every path queued so far, with where it stands.
    pub closed spec fn status(&self) -> Map<Seq<u8>, Status> {
        self.status@
    }

    /// For each directory whose children were queued, the names listed.
    pub closed spec fn listings(&self) -> Map<Seq<u8>, Seq<Seq<u8>>> {
        self.listings@
    }

    /// Whether worker `w` holds no task.
    pub open spec fn is_idle(&self, w: int) -> bool {
        self.phases()[w] is Idle
    }

    /// No task queued and no worker holding one.
    pub open spec fn quiescent(&self) -> bool {
        &&& !self.any_queued()
        &&& forall|w: int| 0 <= w < self.workers() ==> #[trigger] self.is_idle(w)
    }

    /// Whether a status agrees with the queue, the workers and the results.
    closed spec fn status_agrees(&self, q: Seq<u8>, s: Status) -> bool {
        match s {
            Status::Queued(c) => c <= self.phases@.len() && self.queued(c as int).contains(q),
            Status::Done => keys_of(self.entries@).contains(q),
            Status::Skipped => true,
            _ => {
                let w = holder(s).unwrap();
                w < self.phases@.len() && phase_status(self.phases@[w as int], w) == Some((q, s))
            },
        }
    }

    /// Every queued path but the root was formed from a listed name of a
    /// listed directory, or (while `extra` is being listed) from `extra`.
    closed spec fn origins_ok(&self, extra: Option<Seq<u8>>) -> bool {
        forall|q: Seq<u8>|
            #[trigger] self.origin@.contains_key(q) ==> {
                let (p, n) = self.origin@[q];
                &&& (self.listings@.contains_key(p) && self.listings@[p].contains(n)) || extra
                    == Some(p)
                &&& is_entry_name(n)
                &&& q == child_path(p, n)
            }
    }

    /// The engine's invariant.
    pub closed spec fn wf(&self) -> bool {
        self.wf_core() && self.origins_ok(None)
    }

    /// The engine's invariant but for how paths were formed.
    closed spec fn wf_core(&self) -> bool {
        let st = self.status@;
        &&& self.phases@.len() >= 1
        &&& st.contains_key(self.root@)
        &&& forall|q: Seq<u8>| #[trigger] st.contains_key(q) ==> q.len() >= self.root@.len()
        // the queues
        &&& self.phases@.len() <= usize::MAX
        &&& self.queues@.len() == self.phases@.len() + 1
        &&& forall|c: usize| c <= self.phases@.len() ==> #[trigger] self.queued(c as int).no_duplicates()
        &&& forall|c: usize, i: int|
            c <= self.phases@.len() && 0 <= i < self.queued(c as int).len() ==> st.contains_key(
                #[trigger] self.queued(c as int)[i],
            ) && st[self.queued(c as int)[i]] == Status::Queued(c)
        // the results
        &&& keys_of(self.entries@).no_duplicates()
        &&& forall|i: int|
            0 <= i < self.entries@.len() ==> st.contains_key(#[trigger] keys_of(self.entries@)[i])
                && st[keys_of(self.entries@)[i]] is Done
        &&& self.total_path_bytes == total_bytes(self.entries@)
        // the workers
        &&& forall|w: usize|
            w < self.phases@.len() ==> match #[trigger] phase_status(self.phases@[w as int], w) {
                Some((q, s)) => st.contains_key(q) && st[q] == s,
                None => true,
            }
        &&& forall|q: Seq<u8>| #[trigger] st.contains_key(q) ==> self.status_agrees(q, st[q])
        // how paths were formed
        &&& forall|q: Seq<u8>|
            #[trigger] st.contains_key(q) && q != self.root@ ==> self.origin@.contains_key(q)
        &&& forall|p: Seq<u8>|
            #[trigger] self.listings@.contains_key(p) ==> st.contains_key(p)
                && is_expanded_status(st[p])
        // every listed child was queued
        &&& forall|p: Seq<u8>, i: int|
            #[trigger] self.listings@.contains_key(p) && 0 <= i < self.listings@[p].len()
                ==> st.contains_key(#[trigger] child_path(p, self.listings@[p][i]))
    }

    /// The path that worker `w` holds.
    pub open spec fn held(&self, w: int) -> Seq<u8> {
        match self.phases()[w] {
            Phase::Classifying(p) => p@,
            Phase::Listing(p) => p@,
            Phase::Visiting(p, _) => p@,
            Phase::Idle => Seq::empty(),
        }
    }

    /// Starts a walk from `root` with `num_workers` workers, all idle, and
    /// the root as the one task, in the injector.
    pub fn new(root: Vec<u8>, num_workers: usize) -> (r: Self)
        requires
            num_workers >= 1,
        ensures
            r.wf(),
            r.root() == root@,
            r.workers() == num_workers,
            forall|w: int| 0 <= w < num_workers ==> #[trigger] r.phases()[w] is Idle,
            forall|w: int| 0 <= w < num_workers ==> #[trigger] r.queued(w).len() == 0,
            r.injected() == seq![root@],
            r.entries().len() == 0,
            r.total() == 0,
    {
        let mut phases: Vec<Phase> = Vec::with_capacity(num_workers);
        let mut queues: Vec<VecDeque<Vec<u8>>> = Vec::with_capacity(num_workers);
        let mut i: usize = 0;
        while i < num_workers
            invariant
                i <= num_workers,
                phases@.len() == i,
                queues@.len() == i,
                forall|w: int| 0 <= w < i ==> phases@[w] is Idle,
                forall|w: int| 0 <= w < i ==> (#[trigger] queues@[w])@.len() == 0,
            decreases num_workers - i,
        {
            phases.push(Phase::Idle);
            queues.push(VecDeque::new());
            i += 1;
        }
        let mut injector: VecDeque<Vec<u8>> = VecDeque::new();
        injector.push_back(copy_path(&root));
        queues.push(injector);
        let ghost status = Map::empty().insert(root@, Status::Queued(num_workers));
        let r = Engine {
            root,
            queues,
            phases,
            entries: Vec::new(),
            total_path_bytes: 0,
            status: Ghost(status),
            origin: Ghost(Map::empty()),
            listings: Ghost(Map::empty()),
        };
        assert(r.queued(num_workers as int) =~= seq![r.root@]);
        assert forall|c: usize| c < num_workers implies #[trigger] r.queued(c as int) =~= Seq::<Seq<u8>>::empty() by {
            assert(r.queues@[c as int]@.len() == 0);
        }
        assert(keys_of(r.entries@) =~= Seq::<Seq<u8>>::empty());
        assert(r.status_agrees(r.root@, Status::Queued(num_workers))) by {
            assert(r.queued(num_workers as int)[0] == r.root@);
        }
        r
    }

    /// Whether some worker holds a task.
    fn any_busy(&self) -> (r: bool)
        ensures
            r == exists|w: int| 0 <= w < self.workers() && !#[trigger] self.is_idle(w),
    {
        let mut i: usize = 0;
        while i < self.phases.len()
            invariant
                i <= self.phases@.len(),
                forall|w: int| 0 <= w < i ==> #[trigger] self.is_idle(w),
            decreases self.phases@.len() - i,
        {
            match &self.phases[i] {
                Phase::Idle => {},
                _ => {
                    assert(!self.is_idle(i as int));
                    return true;
                },
            }
            i += 1;
        }
        false
    }

    /// Queues other than `c` and `d` are as they were.
    closed spec fn other_queues_same(&self, pre: Self, c: int, d: int) -> bool {
        &&& self.queues@.len() == pre.queues@.len()
        &&& forall|e: int| 0 <= e < self.queues@.len() && e != c && e != d ==> #[trigger] self.queues@[e] == pre.queues@[e]
    }

    /// Leaving queues `c` and `d` aside twice leaves them aside once.
    proof fn lemma_other_queues_trans(a: Self, b: Self, z: Self, c: int, d: int)
        requires
            a.other_queues_same(b, c, d),
            b.other_queues_same(z, c, d),
        ensures
            a.other_queues_same(z, c, d),
    {
        assert forall|e: int| 0 <= e < a.queues@.len() && e != c && e != d implies #[trigger] a.queues@[e] == z.queues@[e] by {
            assert(b.queues@[e] == z.queues@[e]);
        }
    }

    /// Worker `w` takes the front task of queue `c`.
    fn take_from(&mut self, w: usize, c: usize) -> (p: Vec<u8>)
        requires
            old(self).wf(),
            w < old(self).workers(),
            old(self).is_idle(w as int),
            c <= old(self).workers(),
            old(self).queued(c as int).len() > 0,
        ensures
            final(self).wf(),
            p@ == old(self).queued(c as int)[0],
            final(self).queued(c as int) == old(self).queued(c as int).drop_first(),
            final(self).other_queues_same(*old(self), c as int, c as int),
            final(self).phases()[w as int] is Classifying,
            final(self).held(w as int) == p@,
            forall|v: int| 0 <= v < old(self).workers() && v != w ==> final(self).phases()[v] == old(self).phases()[v],
            final(self).status() == old(self).status().insert(p@, Status::Classifying(w)),
            final(self).root() == old(self).root(),
            final(self).workers() == old(self).workers(),
            final(self).entries() == old(self).entries(),
            final(self).total() == old(self).total(),
            final(self).listings() == old(self).listings(),
    {
        let ghost pre = *self;
        let p = self.queues[c].pop_front().unwrap();
        let task = copy_path(&p);
        let ghost pv = p@;
        assert(pre.queued(c as int)[0] == pv);
        assert(self.queued(c as int) =~= pre.queued(c as int).drop_first());
        self.phases[w] = Phase::Classifying(p);
        self.status = Ghost(self.status@.insert(pv, Status::Classifying(w)));
        proof {
            self.lemma_took(pre, w, c, pv);
        }
        task
    }

    /// Moves the front task of the injector to the back of worker `w`'s
    /// deque.
    fn shift_to_local(&mut self, w: usize)
        requires
            old(self).wf(),
            w < old(self).workers(),
            old(self).injected().len() > 0,
        ensures
            final(self).wf(),
            final(self).injected() == old(self).injected().drop_first(),
            final(self).queued(w as int) == old(self).queued(w as int).push(old(self).injected()[0]),
            final(self).other_queues_same(*old(self), w as int, old(self).workers() as int),
            final(self).status() == old(self).status().insert(old(self).injected()[0], Status::Queued(w)),
            final(self).phases() == old(self).phases(),
            final(self).root() == old(self).root(),
            final(self).entries() == old(self).entries(),
            final(self).total() == old(self).total(),
            final(self).listings() == old(self).listings(),
    {
        let ghost pre = *self;
        let n = self.phases.len();
        let p = self.queues[n].pop_front().unwrap();
        let ghost pv = p@;
        assert(pre.injected()[0] == pv);
        assert(self.queued(n as int) =~= pre.queued(n as int).drop_first());
        self.queues[w].push_back(p);
        assert(self.queued(w as int) =~= pre.queued(w as int).push(pv));
        self.status = Ghost(self.status@.insert(pv, Status::Queued(w)));
        proof {
            self.lemma_shifted(pre, w, pv);
        }
    }

    /// Worker `w`, its deque empty, steals a batch from the front of the
    /// injector: the first task of the batch is its next task, the rest go
    /// to its deque.
    #[verifier::rlimit(100)]
    fn steal_batch(&mut self, w: usize) -> (p: Vec<u8>)
        requires
            old(self).wf(),
            w < old(self).workers(),
            old(self).is_idle(w as int),
            old(self).queued(w as int).len() == 0,
            old(self).injected().len() > 0,
        ensures
            final(self).wf(),
            final(self).root() == old(self).root(),
            final(self).workers() == old(self).workers(),
            final(self).entries() == old(self).entries(),
            final(self).total() == old(self).total(),
            final(self).listings() == old(self).listings(),
            old(self).status().contains_key(p@),
            old(self).status()[p@] is Queued,
            final(self).status()[p@] == Status::Classifying(w),
            final(self).status().dom() == old(self).status().dom(),
            final(self).phases()[w as int] is Classifying,
            final(self).held(w as int) == p@,
            forall|v: int|
                0 <= v < old(self).workers() && v != w ==> final(self).phases()[v] == old(self).phases()[v],
            ({
                let b = batch_size(old(self).injected().len()) as int;
                &&& p@ == old(self).injected()[0]
                &&& final(self).queued(w as int) == old(self).injected().subrange(1, b)
                &&& final(self).injected() == old(self).injected().subrange(b, old(self).injected().len() as int)
            }),
            forall|c: int| 0 <= c < old(self).workers() && c != w ==> #[trigger] final(self).queued(c) == old(self).queued(c),
    {
        let ghost pre = *self;
        let n = self.phases.len();
        let len = self.queues[n].len();
        let half = len / 2 + len % 2;
        let batch = if half > MAX_BATCH { MAX_BATCH } else { half };
        assert(batch as nat == batch_size(len as nat));
        let ghost inj = pre.injected();
        assert(pre.queued(w as int) =~= inj.subrange(0, 0));
        assert(pre.status@.contains_key(inj[0]));
        let mut k: usize = 0;
        while k < batch
            invariant
                1 <= batch <= len,
                len == inj.len(),
                inj == pre.injected(),
                n == pre.workers(),
                w < n,
                k <= batch,
                self.wf(),
                self.phases() == pre.phases(),
                self.root() == pre.root(),
                self.entries() == pre.entries(),
                self.total() == pre.total(),
                self.listings() == pre.listings(),
                self.status().dom() == pre.status().dom(),
                self.queued(w as int) == inj.subrange(0, k as int),
                self.injected() == inj.subrange(k as int, len as int),
                self.other_queues_same(pre, w as int, n as int),
            decreases batch - k,
        {
            let ghost mid = *self;
            self.shift_to_local(w);
            assert(inj.subrange(k as int, len as int)[0] == inj[k as int]);
            assert(self.queued(w as int) =~= inj.subrange(0, k + 1));
            assert(self.injected() =~= inj.subrange(k + 1, len as int));
            assert(self.status@.dom() =~= mid.status@.dom());
            proof {
                Self::lemma_other_queues_trans(*self, mid, pre, w as int, n as int);
            }
            k += 1;
        }
        let ghost mid = *self;
        assert(mid.queued(w as int)[0] == inj[0]);
        assert(mid.status@.contains_key(inj[0]) && mid.status@[inj[0]] == Status::Queued(w));
        let p = self.take_from(w, w);
        assert(self.queued(w as int) =~= inj.subrange(1, batch as int));
        assert(self.status@.dom() =~= pre.status@.dom());
        assert(self.injected() == mid.injected()) by {
            assert(self.queues@[n as int] == mid.queues@[n as int]);
        }
        assert forall|c: int| 0 <= c < pre.workers() && c != w implies #[trigger] self.queued(c) == pre.queued(c) by {
            assert(self.queues@[c] == mid.queues@[c]);
            assert(mid.queues@[c] == pre.queues@[c]);
        }
        p
    }

    /// Worker `w`, its deque and the injector empty, steals the front task
    /// of the first peer whose deque holds one; `None` when no queue holds
    /// a task.
    fn steal_from_peer(&mut self, w: usize) -> (r: Option<Vec<u8>>)
        requires
            old(self).wf(),
            w < old(self).workers(),
            old(self).is_idle(w as int),
            old(self).queued(w as int).len() == 0,
            old(self).injected().len() == 0,
        ensures
            final(self).wf(),
            final(self).root() == old(self).root(),
            final(self).workers() == old(self).workers(),
            final(self).entries() == old(self).entries(),
            final(self).total() == old(self).total(),
            final(self).listings() == old(self).listings(),
            r is None <==> !old(self).any_queued(),
            r is None ==> *final(self) == *old(self),
            r matches Some(p) ==> {
                &&& old(self).status().contains_key(p@)
                &&& old(self).status()[p@] is Queued
                &&& final(self).status() == old(self).status().insert(p@, Status::Classifying(w))
                &&& final(self).phases()[w as int] is Classifying
                &&& final(self).held(w as int) == p@
                &&& forall|v: int|
                    0 <= v < old(self).workers() && v != w ==> final(self).phases()[v] == old(self).phases()[v]
                &&& exists|v: int|
                    0 <= v < old(self).workers() && v != w && #[trigger] old(self).queued(v).len() > 0
                        && p@ == old(self).queued(v)[0]
                        && final(self).queued(v) == old(self).queued(v).drop_first()
                        && (forall|c: int| 0 <= c <= old(self).workers() && c != v ==> #[trigger] final(self).queued(c) == old(self).queued(c))
                        && forall|u: int| 0 <= u < v && u != w ==> #[trigger] old(self).queued(u).len() == 0
            },
    {
        let ghost pre = *self;
        let n = self.phases.len();
        let mut v: usize = 0;
        while v < n
            invariant
                v <= n,
                n == pre.workers(),
                w < n,
                *self == pre,
                pre.wf(),
                pre.is_idle(w as int),
                pre == *old(self),
                forall|u: int| 0 <= u < v && u != w ==> #[trigger] pre.queued(u).len() == 0,
            decreases n - v,
        {
            if v != w && self.queues[v].len() > 0 {
                assert(pre.queued(v as int).len() > 0);
                assert(pre.status@.contains_key(pre.queued(v as int)[0]));
                let p = self.take_from(w, v);
                assert forall|c: int| 0 <= c <= pre.workers() && c != v implies #[trigger] self.queued(c) == pre.queued(c) by {
                    assert(self.queues@[c] == pre.queues@[c]);
                }
                return Some(p);
            }
            v += 1;
        }
        assert(!pre.any_queued()) by {
            assert forall|c: int| 0 <= c <= pre.workers() implies #[trigger] pre.queued(c).len() == 0 by {
                if c == w as int {
                    assert(pre.queued(w as int).len() == 0);
                }
            }
        }
        None
    }

    /// Hands idle worker `w` a task: the front of its own deque; else the
    /// first of a batch stolen from the front of the injector (the rest of
    /// the batch goes to its deque); else the front of the first peer's
    /// deque that holds one. When no queue holds a task, answers `Wait`
    /// while another worker holds a task (it may still queue children), and
    /// `Finished` once no worker holds one.
    pub fn next_task(&mut self, w: usize) -> (s: Step)
        requires
            old(self).wf(),
            w < old(self).workers(),
            old(self).is_idle(w as int),
        ensures
            final(self).wf(),
            final(self).root() == old(self).root(),
            final(self).workers() == old(self).workers(),
            final(self).entries() == old(self).entries(),
            final(self).total() == old(self).total(),
            final(self).listings() == old(self).listings(),
            s is Task <==> old(self).any_queued(),
            s is Finished <==> old(self).quiescent(),
            s matches Step::Task(p) ==> {
                &&& old(self).status().contains_key(p@)
                &&& old(self).status()[p@] is Queued
                &&& final(self).status()[p@] == Status::Classifying(w)
                &&& final(self).status().dom() == old(self).status().dom()
                &&& final(self).phases()[w as int] is Classifying
                &&& final(self).held(w as int) == p@
                &&& forall|v: int|
                    0 <= v < old(self).workers() && v != w ==> final(self).phases()[v]
                        == old(self).phases()[v]
                &&& old(self).queued(w as int).len() > 0 ==> {
                    &&& p@ == old(self).queued(w as int)[0]
                    &&& final(self).queued(w as int) == old(self).queued(w as int).drop_first()
                    &&& forall|c: int| 0 <= c <= old(self).workers() && c != w ==> #[trigger] final(self).queued(c) == old(self).queued(c)
                }
                &&& (old(self).queued(w as int).len() == 0 && old(self).injected().len() > 0) ==> {
                    let b = batch_size(old(self).injected().len()) as int;
                    &&& p@ == old(self).injected()[0]
                    &&& final(self).queued(w as int) == old(self).injected().subrange(1, b)
                    &&& final(self).injected() == old(self).injected().subrange(b, old(self).injected().len() as int)
                    &&& forall|c: int| 0 <= c < old(self).workers() && c != w ==> #[trigger] final(self).queued(c) == old(self).queued(c)
                }
                &&& (old(self).queued(w as int).len() == 0 && old(self).injected().len() == 0) ==> exists|v: int|
                    0 <= v < old(self).workers() && v != w && #[trigger] old(self).queued(v).len() > 0
                        && p@ == old(self).queued(v)[0]
                        && final(self).queued(v) == old(self).queued(v).drop_first()
                        && (forall|c: int| 0 <= c <= old(self).workers() && c != v ==> #[trigger] final(self).queued(c) == old(self).queued(c))
                        && forall|u: int| 0 <= u < v && u != w ==> #[trigger] old(self).queued(u).len() == 0
            },
            !(s is Task) ==> {
                &&& forall|c: int| 0 <= c <= old(self).workers() ==> #[trigger] final(self).queued(c) == old(self).queued(c)
                &&& final(self).phases() == old(self).phases()
                &&& final(self).status() == old(self).status()
            },
    {
        let ghost pre = *self;
        let n = self.phases.len();
        if self.queues[w].len() > 0 {
            assert(pre.queued(w as int).len() > 0);
            assert(pre.status@.contains_key(pre.queued(w as int)[0]));
            let p = self.take_from(w, w);
            assert(self.status@.dom() =~= pre.status@.dom());
            assert forall|c: int| 0 <= c <= pre.workers() && c != w implies #[trigger] self.queued(c) == pre.queued(c) by {
                assert(self.queues@[c] == pre.queues@[c]);
            }
            return Step::Task(p);
        }
        if self.queues[n].len() > 0 {
            assert(pre.queued(n as int).len() > 0);
            let p = self.steal_batch(w);
            return Step::Task(p);
        }
        match self.steal_from_peer(w) {
            Some(p) => {
                assert(self.status@.dom() =~= pre.status@.dom());
                Step::Task(p)
            },
            None => {
                if self.any_busy() {
                    let ghost u = choose|u: int| 0 <= u < self.workers() && !#[trigger] self.is_idle(u);
                    assert(!pre.is_idle(u));
                    Step::Wait
                } else {
                    assert forall|u: int| 0 <= u < pre.workers() implies #[trigger] pre.is_idle(u) by {
                        assert(self.is_idle(u));
                    }
                    Step::Finished
                }
            },
        }
    }

    /// The queue clauses of the invariant, for a state whose queues hold
    /// what `pre`'s did but for queues `c` and `d`, and whose statuses
    /// differ from `pre`'s only at `moved`.
    proof fn lemma_queues_ok(&self, pre: Self, c: int, d: int, moved: Seq<u8>)
        requires
            pre.wf_core(),
            0 <= c <= pre.workers(),
            0 <= d <= pre.workers(),
            self.phases@.len() == pre.phases@.len(),
            self.other_queues_same(pre, c, d),
            forall|q: Seq<u8>| #[trigger] pre.status@.contains_key(q) ==> self.status@.contains_key(q),
            forall|q: Seq<u8>|
                #[trigger] pre.status@.contains_key(q) && q != moved ==> self.status@[q] == pre.status@[q],
            pre.status@.contains_key(moved) ==> (pre.status@[moved] == Status::Queued(c as usize)
                || pre.status@[moved] == Status::Queued(d as usize)),
            forall|e: usize| (e == c || e == d) ==> #[trigger] self.queued(e as int).no_duplicates(),
            forall|e: usize, i: int|
                (e == c || e == d) && 0 <= i < self.queued(e as int).len() ==> self.status@.contains_key(
                    #[trigger] self.queued(e as int)[i],
                ) && self.status@[self.queued(e as int)[i]] == Status::Queued(e),
        ensures
            forall|e: usize| e <= self.phases@.len() ==> #[trigger] self.queued(e as int).no_duplicates(),
            forall|e: usize, i: int|
                e <= self.phases@.len() && 0 <= i < self.queued(e as int).len() ==> self.status@.contains_key(
                    #[trigger] self.queued(e as int)[i],
                ) && self.status@[self.queued(e as int)[i]] == Status::Queued(e),
    {
        assert forall|e: usize| e <= self.phases@.len() implies #[trigger] self.queued(e as int).no_duplicates() by {
            if e != c && e != d {
                assert(self.queues@[e as int] == pre.queues@[e as int]);
                assert(self.queued(e as int) == pre.queued(e as int));
            }
        }
        assert forall|e: usize, i: int|
            e <= self.phases@.len() && 0 <= i < self.queued(e as int).len() implies self.status@.contains_key(
                #[trigger] self.queued(e as int)[i],
            ) && self.status@[self.queued(e as int)[i]] == Status::Queued(e) by {
            if e != c && e != d {
                assert(self.queues@[e as int] == pre.queues@[e as int]);
                assert(self.queued(e as int) == pre.queued(e as int));
                let q = pre.queued(e as int)[i];
                assert(pre.status@.contains_key(q) && pre.status@[q] == Status::Queued(e));
            }
        }
    }

    /// The queue clauses of the invariant carry over to a state with the
    /// same queues in which every queued path keeps its status.
    proof fn lemma_queues_kept(&self, pre: Self)
        requires
            pre.wf_core(),
            self.queues == pre.queues,
            self.phases@.len() == pre.phases@.len(),
            forall|q: Seq<u8>|
                #[trigger] pre.status@.contains_key(q) && pre.status@[q] is Queued ==> self.status@.contains_key(q)
                    && self.status@[q] == pre.status@[q],
        ensures
            forall|e: usize| e <= self.phases@.len() ==> #[trigger] self.queued(e as int).no_duplicates(),
            forall|e: usize, i: int|
                e <= self.phases@.len() && 0 <= i < self.queued(e as int).len() ==> self.status@.contains_key(
                    #[trigger] self.queued(e as int)[i],
                ) && self.status@[self.queued(e as int)[i]] == Status::Queued(e),
    {
        assert forall|e: usize| e <= self.phases@.len() implies #[trigger] self.queued(e as int).no_duplicates() by {
            assert(self.queued(e as int) == pre.queued(e as int));
        }
        assert forall|e: usize, i: int|
            e <= self.phases@.len() && 0 <= i < self.queued(e as int).len() implies self.status@.contains_key(
                #[trigger] self.queued(e as int)[i],
            ) && self.status@[self.queued(e as int)[i]] == Status::Queued(e) by {
            assert(self.queued(e as int) == pre.queued(e as int));
            assert(pre.status@.contains_key(pre.queued(e as int)[i]));
        }
    }

    /// Taking the front task of queue `c` for worker `w` keeps the
    /// invariant.
    #[verifier::rlimit(100)]
    proof fn lemma_took(&self, pre: Self, w: usize, c: usize, pv: Seq<u8>)
        requires
            pre.wf(),
            w < pre.workers(),
            pre.is_idle(w as int),
            c <= pre.workers(),
            pre.queued(c as int).len() > 0,
            pv == pre.queued(c as int)[0],
            self.queued(c as int) == pre.queued(c as int).drop_first(),
            self.other_queues_same(pre, c as int, c as int),
            self.phases@ == pre.phases@.update(w as int, self.phases@[w as int]),
            phase_status(self.phases@[w as int], w) == Some((pv, Status::Classifying(w))),
            self.status@ == pre.status@.insert(pv, Status::Classifying(w)),
            self.root == pre.root,
            self.entries == pre.entries,
            self.total_path_bytes == pre.total_path_bytes,
            self.origin == pre.origin,
            self.listings == pre.listings,
        ensures
            self.wf(),
    {
        let st = self.status@;
        let n = pre.phases@.len();
        assert(pre.status@.contains_key(pv) && pre.status@[pv] == Status::Queued(c));
        assert(st.dom() =~= pre.status@.dom());
        assert(pre.queued(c as int).no_duplicates());
        assert(self.queued(c as int).no_duplicates()) by {
            assert forall|i: int, j: int| 0 <= i < self.queued(c as int).len() && 0 <= j < self.queued(c as int).len() && i != j
                implies self.queued(c as int)[i] != self.queued(c as int)[j] by {
                assert(self.queued(c as int)[i] == pre.queued(c as int)[i + 1]);
                assert(self.queued(c as int)[j] == pre.queued(c as int)[j + 1]);
            }
        }
        assert forall|i: int| 0 <= i < self.queued(c as int).len() implies st.contains_key(
            #[trigger] self.queued(c as int)[i],
        ) && st[self.queued(c as int)[i]] == Status::Queued(c) by {
            assert(self.queued(c as int)[i] == pre.queued(c as int)[i + 1]);
            assert(pre.queued(c as int)[i + 1] != pre.queued(c as int)[0]);
        }
        assert forall|e: usize, i: int| e == c && 0 <= i < self.queued(e as int).len() implies st.contains_key(
            #[trigger] self.queued(e as int)[i],
        ) && st[self.queued(e as int)[i]] == Status::Queued(e) by {
            assert(self.queued(c as int)[i] == self.queued(e as int)[i]);
        }
        self.lemma_queues_ok(pre, c as int, c as int, pv);
        assert forall|i: int| 0 <= i < self.entries@.len() implies st.contains_key(
            #[trigger] keys_of(self.entries@)[i],
        ) && st[keys_of(self.entries@)[i]] is Done by {
            assert(pre.status@.contains_key(keys_of(pre.entries@)[i]));
        }
        assert forall|v: usize| v < self.phases@.len() implies match #[trigger] phase_status(
            self.phases@[v as int],
            v,
        ) {
            Some((q, s)) => st.contains_key(q) && st[q] == s,
            None => true,
        } by {
            if v != w {
                assert(self.phases@[v as int] == pre.phases@[v as int]);
                match phase_status(pre.phases@[v as int], v) {
                    Some((q, s)) => {
                        assert(pre.status@.contains_key(q));
                        assert(pre.status_agrees(q, pre.status@[q]));
                    },
                    None => {},
                }
            }
        }
        assert forall|q: Seq<u8>| #[trigger] st.contains_key(q) implies self.status_agrees(q, st[q]) by {
            if q != pv {
                assert(pre.status_agrees(q, st[q]));
                match st[q] {
                    Status::Queued(e) => {
                        if e == c {
                            let k = choose|k: int| 0 <= k < pre.queued(c as int).len() && pre.queued(c as int)[k] == q;
                            assert(k != 0);
                            assert(self.queued(c as int)[k - 1] == q);
                        } else {
                            assert(self.queues@[e as int] == pre.queues@[e as int]);
                        }
                    },
                    Status::Done => {},
                    Status::Skipped => {},
                    _ => {
                        let v = holder(st[q]).unwrap();
                        assert(v != w);
                    },
                }
            }
        }
        assert forall|q: Seq<u8>| #[trigger] self.listings@.contains_key(q) implies st.contains_key(q)
            && is_expanded_status(st[q]) by {
            assert(pre.status@.contains_key(q));
            assert(q != pv);
        }
    }

    /// Moving the front task of the injector to the back of worker `w`'s
    /// deque keeps the invariant.
    proof fn lemma_shifted(&self, pre: Self, w: usize, pv: Seq<u8>)
        requires
            pre.wf(),
            w < pre.workers(),
            pre.injected().len() > 0,
            pv == pre.injected()[0],
            self.queued(pre.workers() as int) == pre.injected().drop_first(),
            self.queued(w as int) == pre.queued(w as int).push(pv),
            self.other_queues_same(pre, w as int, pre.workers() as int),
            self.phases == pre.phases,
            self.status@ == pre.status@.insert(pv, Status::Queued(w)),
            self.root == pre.root,
            self.entries == pre.entries,
            self.total_path_bytes == pre.total_path_bytes,
            self.origin == pre.origin,
            self.listings == pre.listings,
        ensures
            self.wf(),
    {
        let st = self.status@;
        let n = pre.phases@.len() as usize;
        assert(pre.status@.contains_key(pv) && pre.status@[pv] == Status::Queued(n));
        assert(st.dom() =~= pre.status@.dom());
        assert forall|i: int| 0 <= i < pre.queued(w as int).len() implies pre.queued(w as int)[i] != pv by {
            assert(pre.status@.contains_key(pre.queued(w as int)[i]));
        }
        lemma_push_no_duplicates(pre.queued(w as int), pv);
        assert(self.queued(w as int).no_duplicates());
        assert(pre.queued(n as int).no_duplicates());
        assert(self.queued(n as int).no_duplicates()) by {
            assert forall|i: int, j: int| 0 <= i < self.queued(n as int).len() && 0 <= j < self.queued(n as int).len() && i != j
                implies self.queued(n as int)[i] != self.queued(n as int)[j] by {
                assert(self.queued(n as int)[i] == pre.queued(n as int)[i + 1]);
                assert(self.queued(n as int)[j] == pre.queued(n as int)[j + 1]);
            }
        }
        assert forall|e: usize, i: int| (e == w || e == n) && 0 <= i < self.queued(e as int).len() implies st.contains_key(
            #[trigger] self.queued(e as int)[i],
        ) && st[self.queued(e as int)[i]] == Status::Queued(e) by {
            if e == w {
                if i < pre.queued(w as int).len() {
                    assert(self.queued(w as int)[i] == pre.queued(w as int)[i]);
                    assert(pre.status@.contains_key(pre.queued(w as int)[i]));
                }
            } else {
                assert(self.queued(n as int)[i] == pre.queued(n as int)[i + 1]);
                assert(pre.queued(n as int)[i + 1] != pre.queued(n as int)[0]);
            }
        }
        self.lemma_queues_ok(pre, w as int, n as int, pv);
        assert forall|i: int| 0 <= i < self.entries@.len() implies st.contains_key(
            #[trigger] keys_of(self.entries@)[i],
        ) && st[keys_of(self.entries@)[i]] is Done by {
            assert(pre.status@.contains_key(keys_of(pre.entries@)[i]));
        }
        assert forall|v: usize| v < self.phases@.len() implies match #[trigger] phase_status(
            self.phases@[v as int],
            v,
        ) {
            Some((q, s)) => st.contains_key(q) && st[q] == s,
            None => true,
        } by {
            match phase_status(pre.phases@[v as int], v) {
                Some((q, s)) => {
                    assert(pre.status@.contains_key(q));
                    assert(pre.status_agrees(q, pre.status@[q]));
                },
                None => {},
            }
        }
        assert forall|q: Seq<u8>| #[trigger] st.contains_key(q) implies self.status_agrees(q, st[q]) by {
            if q == pv {
                assert(self.queued(w as int)[pre.queued(w as int).len() as int] == pv);
            } else {
                assert(pre.status_agrees(q, st[q]));
                match st[q] {
                    Status::Queued(e) => {
                        if e == n {
                            let k = choose|k: int| 0 <= k < pre.queued(n as int).len() && pre.queued(n as int)[k] == q;
                            assert(k != 0);
                            assert(self.queued(n as int)[k - 1] == q);
                        } else if e == w {
                            let k = choose|k: int| 0 <= k < pre.queued(w as int).len() && pre.queued(w as int)[k] == q;
                            assert(self.queued(w as int)[k] == q);
                        } else {
                            assert(self.queues@[e as int] == pre.queues@[e as int]);
                        }
                    },
                    Status::Done => {},
                    Status::Skipped => {},
                    _ => {},
                }
            }
        }
        assert forall|q: Seq<u8>| #[trigger] self.listings@.contains_key(q) implies st.contains_key(q)
            && is_expanded_status(st[q]) by {
            assert(pre.status@.contains_key(q));
            assert(q != pv);
        }
    }

    /// Moves the path that worker `w` holds to a new phase (or, dropped, to
    /// no phase), recording a listing for it or not.
    proof fn lemma_retag_core(
        &self,
        pre: Self,
        w: usize,
        p: Seq<u8>,
        s_old: Status,
        s_new: Status,
        names: Option<Seq<Seq<u8>>>,
    )
        requires
            pre.wf_core(),
            w < pre.workers(),
            phase_status(pre.phases@[w as int], w) == Some((p, s_old)),
            self.phases@ == pre.phases@.update(w as int, self.phases@[w as int]),
            s_new is Skipped ==> self.phases@[w as int] is Idle,
            !(s_new is Skipped) ==> phase_status(self.phases@[w as int], w) == Some((p, s_new)),
            s_new is Skipped || holder(s_new) == Some(w),
            self.status@ == pre.status@.insert(p, s_new),
            pre.listings@.contains_key(p) ==> is_expanded_status(s_new),
            self.root == pre.root,
            self.queues == pre.queues,
            self.entries == pre.entries,
            self.total_path_bytes == pre.total_path_bytes,
            self.origin == pre.origin,
            match names {
                None => self.listings == pre.listings,
                Some(nv) => {
                    &&& self.listings@ == pre.listings@.insert(p, nv)
                    &&& is_expanded_status(s_new)
                    &&& forall|i: int|
                        0 <= i < nv.len() ==> pre.status@.contains_key(#[trigger] child_path(p, nv[i]))
                },
            },
        ensures
            self.wf_core(),
    {
        let st = self.status@;
        assert(pre.status@.contains_key(p) && pre.status@[p] == s_old);
        assert(!(s_old is Queued) && !(s_old is Done));
        self.lemma_queues_kept(pre);
        assert forall|i: int| 0 <= i < self.entries@.len() implies st.contains_key(
            #[trigger] keys_of(self.entries@)[i],
        ) && st[keys_of(self.entries@)[i]] is Done by {
            assert(pre.status@.contains_key(keys_of(pre.entries@)[i]));
        }
        assert forall|v: usize| v < self.phases@.len() implies match #[trigger] phase_status(
            self.phases@[v as int],
            v,
        ) {
            Some((q, s)) => st.contains_key(q) && st[q] == s,
            None => true,
        } by {
            if v != w {
                assert(self.phases@[v as int] == pre.phases@[v as int]);
                match phase_status(pre.phases@[v as int], v) {
                    Some((q, s)) => {
                        assert(pre.status@.contains_key(q));
                        assert(pre.status_agrees(q, pre.status@[q]));
                        if q == p {
                            assert(holder(pre.status@[q]) == Some(v));
                            assert(holder(s_old) == Some(w));
                        }
                    },
                    None => {},
                }
            }
        }
        assert forall|q: Seq<u8>| #[trigger] st.contains_key(q) implies self.status_agrees(q, st[q]) by {
            if q != p {
                assert(pre.status_agrees(q, st[q]));
                match st[q] {
                    Status::Queued(_) => {},
                    Status::Done => {},
                    Status::Skipped => {},
                    _ => {
                        let v = holder(st[q]).unwrap();
                        assert(pre.status_agrees(q, pre.status@[q]));
                        if v == w {
                            assert(phase_status(pre.phases@[w as int], w) == Some((q, st[q])));
                        }
                    },
                }
            }
        }
        assert forall|q: Seq<u8>| #[trigger] self.listings@.contains_key(q) implies st.contains_key(q)
            && is_expanded_status(st[q]) by {
            if q != p {
                assert(pre.listings@.contains_key(q));
                assert(pre.status@.contains_key(q));
            }
        }
        assert forall|q: Seq<u8>, i: int|
            #[trigger] self.listings@.contains_key(q) && 0 <= i < self.listings@[q].len()
                implies st.contains_key(#[trigger] child_path(q, self.listings@[q][i])) by {
            if q != p || names is None {
                assert(pre.listings@.contains_key(q));
                assert(pre.status@.contains_key(child_path(q, pre.listings@[q][i])));
            }
        }
    }

    /// `lemma_retag_core`, with no listing recorded: the whole invariant
    /// carries over.
    proof fn lemma_retag(&self, pre: Self, w: usize, p: Seq<u8>, s_old: Status, s_new: Status)
        requires
            pre.wf(),
            w < pre.workers(),
            phase_status(pre.phases@[w as int], w) == Some((p, s_old)),
            self.phases@ == pre.phases@.update(w as int, self.phases@[w as int]),
            s_new is Skipped ==> self.phases@[w as int] is Idle,
            !(s_new is Skipped) ==> phase_status(self.phases@[w as int], w) == Some((p, s_new)),
            s_new is Skipped || holder(s_new) == Some(w),
            self.status@ == pre.status@.insert(p, s_new),
            pre.listings@.contains_key(p) ==> is_expanded_status(s_new),
            self.root == pre.root,
            self.queues == pre.queues,
            self.entries == pre.entries,
            self.total_path_bytes == pre.total_path_bytes,
            self.origin == pre.origin,
            self.listings == pre.listings,
        ensures
            self.wf(),
    {
        self.lemma_retag_core(pre, w, p, s_old, s_new, None);
        assert(self.origins_ok(None)) by {
            assert(forall|q: Seq<u8>| #[trigger] self.origin@.contains_key(q) ==> pre.origin@.contains_key(q));
        }
    }

    /// Reports worker `w`'s link-stat of the path it holds. A directory is
    /// to be listed; any other entry is to be visited; an inaccessible path
    /// is dropped, unless it is the root, which ends the walk; a failed
    /// link-stat ends the walk.
    pub fn classified(&mut self, w: usize, stat: StatOutcome) -> (r: Result<Action, WalkError>)
        requires
            old(self).wf(),
            w < old(self).workers(),
            old(self).phases()[w as int] is Classifying,
        ensures
            final(self).wf(),
            final(self).root() == old(self).root(),
            final(self).workers() == old(self).workers(),
            forall|c: int| 0 <= c <= old(self).workers() ==> #[trigger] final(self).queued(c) == old(self).queued(c),
            final(self).entries() == old(self).entries(),
            final(self).total() == old(self).total(),
            final(self).listings() == old(self).listings(),
            forall|v: int|
                0 <= v < old(self).workers() && v != w ==> final(self).phases()[v]
                    == old(self).phases()[v],
            ({
                let p = old(self).held(w as int);
                match crate::classify::spec_classify(stat) {
                    Err(e) => r == Err::<Action, WalkError>(e) && final(self).phases() == old(self).phases()
                        && final(self).status() == old(self).status(),
                    Ok(Classification::Inaccessible) => if p == old(self).root() {
                        r == Err::<Action, WalkError>(WalkError::RootInaccessible)
                            && final(self).phases() == old(self).phases()
                            && final(self).status() == old(self).status()
                    } else {
                        r == Ok::<Action, WalkError>(Action::Skip)
                            && final(self).is_idle(w as int)
                            && final(self).status() == old(self).status().insert(p, Status::Skipped)
                    },
                    Ok(Classification::Directory) => {
                        &&& (r matches Ok(Action::List(q)) && q@ == p)
                        &&& final(self).phases()[w as int] is Listing
                        &&& final(self).held(w as int) == p
                        &&& final(self).status() == old(self).status().insert(p, Status::Listing(w))
                    },
                    Ok(Classification::NonDirectory) => {
                        &&& (r matches Ok(Action::Visit(q, d)) && q@ == p && !d)
                        &&& (final(self).phases()[w as int] matches Phase::Visiting(_, d) && !d)
                        &&& final(self).held(w as int) == p
                        &&& final(self).status() == old(self).status().insert(p, Status::Visiting(w))
                    },
                }
            }),
    {
        let ghost pre = *self;
        let p = match &self.phases[w] {
            Phase::Classifying(p) => copy_path(p),
            _ => {
                assert(false);
                Vec::new()
            },
        };
        let ghost pv = p@;
        assert(phase_status(pre.phases@[w as int], w) == Some((pv, Status::Classifying(w))));
        assert(!pre.listings@.contains_key(pv)) by {
            if pre.listings@.contains_key(pv) {
                assert(pre.status@.contains_key(pv));
            }
        }
        match classify(stat) {
            Err(e) => Err(e),
            Ok(Classification::Inaccessible) => {
                if same_path(&p, &self.root) {
                    Err(WalkError::RootInaccessible)
                } else {
                    self.phases[w] = Phase::Idle;
                    self.status = Ghost(self.status@.insert(pv, Status::Skipped));
                    proof {
                        self.lemma_retag(pre, w, pv, Status::Classifying(w), Status::Skipped);
                    }
                    Ok(Action::Skip)
                }
            },
            Ok(Classification::Directory) => {
                let q = copy_path(&p);
                self.phases[w] = Phase::Listing(p);
                self.status = Ghost(self.status@.insert(pv, Status::Listing(w)));
                proof {
                    self.lemma_retag(pre, w, pv, Status::Classifying(w), Status::Listing(w));
                }
                Ok(Action::List(q))
            },
            Ok(Classification::NonDirectory) => {
                let q = copy_path(&p);
                self.phases[w] = Phase::Visiting(p, false);
                self.status = Ghost(self.status@.insert(pv, Status::Visiting(w)));
                proof {
                    self.lemma_retag(pre, w, pv, Status::Classifying(w), Status::Visiting(w));
                }
                Ok(Action::Visit(q, false))
            },
        }
    }

    /// A child of the directory being listed that is not among the names
    /// queued so far from it has never been queued.
    proof fn lemma_fresh_child(&self, pv: Seq<u8>, w: usize, n: Seq<u8>)
        requires
            self.wf_core(),
            self.origins_ok(Some(pv)),
            self.status@.contains_key(pv),
            self.status@[pv] == Status::Listing(w),
            is_entry_name(n),
            forall|q: Seq<u8>|
                #[trigger] self.origin@.contains_key(q) && self.origin@[q].0 == pv ==> self.origin@[q].1
                    != n,
        ensures
            !self.status@.contains_key(child_path(pv, n)),
    {
        let c = child_path(pv, n);
        if self.status@.contains_key(c) {
            assert(c.len() > pv.len());
            assert(pv.len() >= self.root@.len());
            assert(c != self.root@);
            assert(self.origin@.contains_key(c));
            let (p2, n2) = self.origin@[c];
            lemma_child_path_injective(pv, n, p2, n2);
            assert(!self.listings@.contains_key(pv)) by {
                if self.listings@.contains_key(pv) {
                    assert(is_expanded_status(self.status@[pv]));
                }
            }
        }
    }

    /// Pushing a fresh child onto the injector keeps the invariant.
    proof fn lemma_queued_child(&self, pre: Self, pv: Seq<u8>, n: Seq<u8>)
        requires
            pre.wf_core(),
            pre.origins_ok(Some(pv)),
            pre.status@.contains_key(pv),
            is_entry_name(n),
            !pre.status@.contains_key(child_path(pv, n)),
            self.injected() == pre.injected().push(child_path(pv, n)),
            self.other_queues_same(pre, pre.workers() as int, pre.workers() as int),
            self.status@ == pre.status@.insert(child_path(pv, n), Status::Queued(pre.phases@.len() as usize)),
            self.origin@ == pre.origin@.insert(child_path(pv, n), (pv, n)),
            self.root == pre.root,
            self.phases == pre.phases,
            self.entries == pre.entries,
            self.total_path_bytes == pre.total_path_bytes,
            self.listings == pre.listings,
        ensures
            self.wf_core(),
            self.origins_ok(Some(pv)),
    {
        let c = child_path(pv, n);
        let st = self.status@;
        let m = pre.phases@.len() as usize;
        assert(c.len() > pv.len());
        assert forall|i: int| 0 <= i < pre.injected().len() implies pre.injected()[i] != c by {
            assert(pre.status@.contains_key(pre.queued(m as int)[i]));
        }
        lemma_push_no_duplicates(pre.queued(m as int), c);
        assert(self.queued(m as int).no_duplicates());
        assert forall|e: usize, i: int| e == m && 0 <= i < self.queued(e as int).len() implies st.contains_key(
            #[trigger] self.queued(e as int)[i],
        ) && st[self.queued(e as int)[i]] == Status::Queued(e) by {
            if i < pre.queued(m as int).len() {
                assert(self.queued(m as int)[i] == pre.queued(m as int)[i]);
                assert(pre.status@.contains_key(pre.queued(m as int)[i]));
            }
        }
        self.lemma_queues_ok(pre, m as int, m as int, c);
        assert forall|i: int| 0 <= i < self.entries@.len() implies st.contains_key(
            #[trigger] keys_of(self.entries@)[i],
        ) && st[keys_of(self.entries@)[i]] is Done by {
            assert(pre.status@.contains_key(keys_of(pre.entries@)[i]));
        }
        assert forall|v: usize| v < self.phases@.len() implies match #[trigger] phase_status(
            self.phases@[v as int],
            v,
        ) {
            Some((q, s)) => st.contains_key(q) && st[q] == s,
            None => true,
        } by {
            match phase_status(pre.phases@[v as int], v) {
                Some((q, s)) => {
                    assert(pre.status@.contains_key(q));
                },
                None => {},
            }
        }
        assert forall|q: Seq<u8>| #[trigger] st.contains_key(q) implies self.status_agrees(q, st[q]) by {
            if q == c {
                assert(self.queued(m as int)[self.queued(m as int).len() - 1] == c);
            } else {
                assert(pre.status_agrees(q, st[q]));
                match st[q] {
                    Status::Queued(e) => {
                        if e == m {
                            let k = choose|k: int| 0 <= k < pre.queued(m as int).len() && pre.queued(m as int)[k] == q;
                            assert(self.queued(m as int)[k] == q);
                        } else {
                            assert(self.queues@[e as int] == pre.queues@[e as int]);
                        }
                    },
                    _ => {},
                }
            }
        }
        assert forall|q: Seq<u8>| #[trigger] self.listings@.contains_key(q) implies st.contains_key(q)
            && is_expanded_status(st[q]) by {
            assert(pre.status@.contains_key(q));
        }
        assert forall|q: Seq<u8>, i: int|
            #[trigger] self.listings@.contains_key(q) && 0 <= i < self.listings@[q].len()
                implies st.contains_key(#[trigger] child_path(q, self.listings@[q][i])) by {
            assert(pre.status@.contains_key(child_path(q, pre.listings@[q][i])));
        }
        assert forall|q: Seq<u8>| #[trigger] st.contains_key(q) && q != self.root@ implies self.origin@.contains_key(q) by {
            if q != c {
                assert(pre.status@.contains_key(q));
            }
        }
    }

    /// Where queuing the children of `pv` stands after the first `k` names.
    closed spec fn queueing(&self, pre: Self, pv: Seq<u8>, w: usize, nv: Seq<Seq<u8>>, k: int) -> bool {
        &&& 0 <= k <= nv.len()
        &&& self.wf_core()
        &&& self.origins_ok(Some(pv))
        &&& self.root == pre.root
        &&& self.phases == pre.phases
        &&& self.entries == pre.entries
        &&& self.total_path_bytes == pre.total_path_bytes
        &&& self.listings == pre.listings
        &&& !self.listings@.contains_key(pv)
        &&& self.status@.contains_key(pv)
        &&& self.status@[pv] == Status::Listing(w)
        &&& self.injected() == pre.injected() + children_of(pv, nv.subrange(0, k))
        &&& self.other_queues_same(pre, pre.workers() as int, pre.workers() as int)
        &&& forall|q: Seq<u8>|
            #[trigger] pre.status@.contains_key(q) ==> self.status@.contains_key(q)
                && self.status@[q] == pre.status@[q]
        &&& forall|i: int| 0 <= i < k ==> self.status@.contains_key(#[trigger] child_path(pv, nv[i]))
        &&& forall|q: Seq<u8>|
            #[trigger] self.origin@.contains_key(q) && self.origin@[q].0 == pv ==> nv.subrange(
                0,
                k,
            ).contains(self.origin@[q].1)
    }

    /// One more child queued.
    proof fn lemma_queueing_step(
        &self,
        mid: Self,
        pre: Self,
        pv: Seq<u8>,
        w: usize,
        nv: Seq<Seq<u8>>,
        k: int,
    )
        requires
            mid.queueing(pre, pv, w, nv, k),
            k < nv.len(),
            forall|i: int| 0 <= i < nv.len() ==> is_entry_name(#[trigger] nv[i]),
            nv.no_duplicates(),
            self.injected() == mid.injected().push(child_path(pv, nv[k])),
            self.other_queues_same(mid, mid.workers() as int, mid.workers() as int),
            self.status@ == mid.status@.insert(child_path(pv, nv[k]), Status::Queued(mid.phases@.len() as usize)),
            self.origin@ == mid.origin@.insert(child_path(pv, nv[k]), (pv, nv[k])),
            self.root == mid.root,
            self.phases == mid.phases,
            self.entries == mid.entries,
            self.total_path_bytes == mid.total_path_bytes,
            self.listings == mid.listings,
        ensures
            self.queueing(pre, pv, w, nv, k + 1),
    {
        let n = nv[k];
        let c = child_path(pv, n);
        assert(is_entry_name(n));
        assert forall|q: Seq<u8>| #[trigger] mid.origin@.contains_key(q) && mid.origin@[q].0 == pv
            implies mid.origin@[q].1 != n by {
            let j = choose|j: int| 0 <= j < nv.subrange(0, k).len() && nv.subrange(0, k)[j] == mid.origin@[q].1;
            assert(nv[j] == mid.origin@[q].1);
        }
        mid.lemma_fresh_child(pv, w, n);
        self.lemma_queued_child(mid, pv, n);
        assert(children_of(pv, nv.subrange(0, k + 1)) =~= children_of(pv, nv.subrange(0, k)).push(c));
        assert(self.injected() =~= pre.injected() + children_of(pv, nv.subrange(0, k + 1)));
        assert(self.other_queues_same(pre, pre.workers() as int, pre.workers() as int)) by {
            assert forall|e: int| 0 <= e < self.queues@.len() && e != pre.workers() implies #[trigger] self.queues@[e] == pre.queues@[e] by {
                assert(mid.queues@[e] == pre.queues@[e]);
            }
        }
        assert forall|q: Seq<u8>| #[trigger] self.origin@.contains_key(q) && self.origin@[q].0 == pv
            implies nv.subrange(0, k + 1).contains(self.origin@[q].1) by {
            if q == c {
                assert(nv.subrange(0, k + 1)[k] == n);
            } else {
                let j = choose|j: int| 0 <= j < nv.subrange(0, k).len() && nv.subrange(0, k)[j] == self.origin@[q].1;
                assert(nv.subrange(0, k + 1)[j] == self.origin@[q].1);
            }
        }
        assert forall|i: int| 0 <= i < k + 1 implies self.status@.contains_key(#[trigger] child_path(pv, nv[i])) by {
            if i < k {
                assert(mid.status@.contains_key(child_path(pv, nv[i])));
            }
        }
        assert forall|q: Seq<u8>| #[trigger] pre.status@.contains_key(q) implies self.status@.contains_key(q)
            && self.status@[q] == pre.status@[q] by {
            assert(mid.status@.contains_key(q));
        }
    }

    /// Queues the children that `names` gives for the directory that worker
    /// `w` is listing.
    fn queue_children(&mut self, w: usize, parent: &Vec<u8>, names: &Vec<Vec<u8>>)
        requires
            old(self).wf(),
            w < old(self).workers(),
            phase_status(old(self).phases@[w as int], w) == Some((parent@, Status::Listing(w))),
            valid_names(names@),
        ensures
            final(self).queueing(*old(self), parent@, w, name_views(names@), names@.len() as int),
    {
        let ghost pre = *self;
        let ghost pv = parent@;
        let ghost nv = name_views(names@);
        assert(pre.status@.contains_key(pv) && pre.status@[pv] == Status::Listing(w));
        assert(!pre.listings@.contains_key(pv)) by {
            if pre.listings@.contains_key(pv) {
                assert(is_expanded_status(pre.status@[pv]));
            }
        }
        assert(pre.injected() =~= pre.injected() + children_of(pv, nv.subrange(0, 0)));
        assert(forall|i: int| 0 <= i < nv.len() ==> is_entry_name(#[trigger] nv[i])) by {
            assert(forall|i: int| 0 <= i < nv.len() ==> nv[i] == #[trigger] names@[i]@);
        }
        let mut k: usize = 0;
        while k < names.len()
            invariant
                nv == name_views(names@),
                pv == parent@,
                nv.len() == names@.len(),
                forall|i: int| 0 <= i < nv.len() ==> is_entry_name(#[trigger] nv[i]),
                nv.no_duplicates(),
                self.queueing(pre, pv, w, nv, k as int),
            decreases names@.len() - k,
        {
            let c = join_child(parent, &names[k]);
            assert(nv[k as int] == names@[k as int]@);
            assert(c@ == child_path(pv, nv[k as int]));
            let ghost mid = *self;
            let m = self.phases.len();
            self.queues[m].push_back(c);
            self.status = Ghost(self.status@.insert(c@, Status::Queued(m)));
            self.origin = Ghost(self.origin@.insert(c@, (pv, nv[k as int])));
            proof {
                assert(self.injected() =~= mid.injected().push(c@));
                self.lemma_queueing_step(mid, pre, pv, w, nv, k as int);
            }
            k += 1;
        }
    }

    /// After its children are queued, the directory is recorded as listed
    /// and moves on to be visited.
    proof fn lemma_close_listing(&self, mid: Self, pre: Self, pv: Seq<u8>, w: usize, nv: Seq<Seq<u8>>)
        requires
            mid.queueing(pre, pv, w, nv, nv.len() as int),
            w < mid.workers(),
            phase_status(mid.phases@[w as int], w) == Some((pv, Status::Listing(w))),
            self.phases@ == mid.phases@.update(w as int, self.phases@[w as int]),
            phase_status(self.phases@[w as int], w) == Some((pv, Status::Visiting(w))),
            self.status@ == mid.status@.insert(pv, Status::Visiting(w)),
            self.listings@ == mid.listings@.insert(pv, nv),
            self.root == mid.root,
            self.queues == mid.queues,
            self.entries == mid.entries,
            self.total_path_bytes == mid.total_path_bytes,
            self.origin == mid.origin,
        ensures
            self.wf(),
    {
        assert(nv.subrange(0, nv.len() as int) =~= nv);
        self.lemma_retag_core(mid, w, pv, Status::Listing(w), Status::Visiting(w), Some(nv));
        assert forall|q: Seq<u8>| #[trigger] self.origin@.contains_key(q) implies {
            let (p, n) = self.origin@[q];
            &&& (self.listings@.contains_key(p) && self.listings@[p].contains(n)) || None::<Seq<u8>> == Some(p)
            &&& is_entry_name(n)
            &&& q == child_path(p, n)
        } by {
            let (p, n) = mid.origin@[q];
            if p == pv {
                assert(nv.subrange(0, nv.len() as int).contains(n));
            } else {
                assert(mid.listings@.contains_key(p) && mid.listings@[p].contains(n));
            }
        }
    }

    /// Reports the listing of the directory that worker `w` holds. The
    /// children of the names listed are queued (also those read before an
    /// error part-way through); a directory that may not be opened is kept
    /// with no children; either way it is then to be visited. A directory
    /// gone before it was opened is dropped. Any other failure to open it
    /// ends the walk.
    pub fn listed(&mut self, w: usize, listing: Listing) -> (r: Result<Action, WalkError>)
        requires
            old(self).wf(),
            w < old(self).workers(),
            old(self).phases()[w as int] is Listing,
            listing matches Listing::Entries { names, .. } ==> valid_names(names@),
        ensures
            final(self).wf(),
            final(self).root() == old(self).root(),
            final(self).workers() == old(self).workers(),
            final(self).entries() == old(self).entries(),
            final(self).total() == old(self).total(),
            forall|v: int|
                0 <= v < old(self).workers() && v != w ==> final(self).phases()[v]
                    == old(self).phases()[v],
            forall|c: int| 0 <= c < old(self).workers() ==> #[trigger] final(self).queued(c) == old(self).queued(c),
            ({
                let p = old(self).held(w as int);
                match listing {
                    Listing::Entries { names, .. } => {
                        &&& (r matches Ok(Action::Visit(q, d)) && q@ == p && d)
                        &&& (final(self).phases()[w as int] matches Phase::Visiting(_, d) && d)
                        &&& final(self).held(w as int) == p
                        &&& final(self).injected() == old(self).injected() + children_of(p, name_views(names@))
                        &&& final(self).listings() == old(self).listings().insert(p, name_views(names@))
                        &&& final(self).status()[p] == Status::Visiting(w)
                        &&& forall|q: Seq<u8>|
                            #[trigger] old(self).status().contains_key(q) && q != p ==> final(self).status().contains_key(q)
                                && final(self).status()[q] == old(self).status()[q]
                    },
                    Listing::AccessDenied => {
                        &&& (r matches Ok(Action::Visit(q, d)) && q@ == p && d)
                        &&& (final(self).phases()[w as int] matches Phase::Visiting(_, d) && d)
                        &&& final(self).held(w as int) == p
                        &&& final(self).injected() == old(self).injected()
                        &&& final(self).listings() == old(self).listings().insert(p, Seq::empty())
                        &&& final(self).status() == old(self).status().insert(p, Status::Visiting(w))
                    },
                    Listing::NotFound => {
                        &&& r == Ok::<Action, WalkError>(Action::Skip)
                        &&& final(self).is_idle(w as int)
                        &&& final(self).injected() == old(self).injected()
                        &&& final(self).listings() == old(self).listings()
                        &&& final(self).status() == old(self).status().insert(p, Status::Skipped)
                    },
                    Listing::Failed(code) => {
                        &&& r == Err::<Action, WalkError>(WalkError::ListFailed(code))
                        &&& final(self).phases() == old(self).phases()
                        &&& final(self).injected() == old(self).injected()
                        &&& final(self).listings() == old(self).listings()
                        &&& final(self).status() == old(self).status()
                    },
                }
            }),
    {
        let ghost pre = *self;
        let p = match &self.phases[w] {
            Phase::Listing(p) => copy_path(p),
            _ => {
                assert(false);
                Vec::new()
            },
        };
        let ghost pv = p@;
        assert(phase_status(pre.phases@[w as int], w) == Some((pv, Status::Listing(w))));
        assert(!pre.listings@.contains_key(pv)) by {
            if pre.listings@.contains_key(pv) {
                assert(pre.status@.contains_key(pv));
            }
        }
        let names: Vec<Vec<u8>> = match listing {
            Listing::Entries { names, complete: _ } => names,
            Listing::AccessDenied => Vec::new(),
            Listing::NotFound => {
                self.phases[w] = Phase::Idle;
                self.status = Ghost(self.status@.insert(pv, Status::Skipped));
                proof {
                    self.lemma_retag(pre, w, pv, Status::Listing(w), Status::Skipped);
                }
                return Ok(Action::Skip);
            },
            Listing::Failed(code) => {
                return Err(WalkError::ListFailed(code));
            },
        };
        assert(valid_names(names@)) by {
            assert(name_views(names@).no_duplicates()) by {
                if names@.len() == 0 {
                    assert(name_views(names@) =~= Seq::<Seq<u8>>::empty());
                }
            }
        }
        self.queue_children(w, &p, &names);
        let ghost mid = *self;
        let ghost nv = name_views(names@);
        let q = copy_path(&p);
        self.phases[w] = Phase::Visiting(p, true);
        self.status = Ghost(self.status@.insert(pv, Status::Visiting(w)));
        self.listings = Ghost(self.listings@.insert(pv, nv));
        proof {
            self.lemma_close_listing(mid, pre, pv, w, nv);
            if names@.len() == 0 {
                assert(nv =~= Seq::<Seq<u8>>::empty());
                assert(children_of(pv, nv) =~= Seq::<Seq<u8>>::empty());
                assert(self.injected() =~= pre.injected());
                assert(self.status@ =~= pre.status@.insert(pv, Status::Visiting(w))) by {
                    assert(forall|k: Seq<u8>| #[trigger] self.status@.contains_key(k) ==> pre.status@.contains_key(k)) by {
                        assert forall|k: Seq<u8>| #[trigger] self.status@.contains_key(k) implies pre.status@.contains_key(k) by {
                            if !pre.status@.contains_key(k) && k != pv {
                                assert(mid.status_agrees(k, mid.status@[k]));
                            }
                        }
                    }
                }
            }
        }
        Ok(Action::Visit(q, true))
    }

    /// Recording the path that worker `w` is visiting keeps the invariant.
    proof fn lemma_recorded(&self, pre: Self, w: usize, p: Seq<u8>, e: (Vec<u8>, O))
        requires
            pre.wf(),
            w < pre.workers(),
            phase_status(pre.phases@[w as int], w) == Some((p, Status::Visiting(w))),
            e.0@ == p,
            self.entries@ == pre.entries@.push(e),
            self.total_path_bytes == pre.total_path_bytes + p.len(),
            self.phases@ == pre.phases@.update(w as int, Phase::Idle),
            self.status@ == pre.status@.insert(p, Status::Done),
            self.root == pre.root,
            self.queues == pre.queues,
            self.origin == pre.origin,
            self.listings == pre.listings,
        ensures
            self.wf(),
            !keys_of(pre.entries@).contains(p),
    {
        let st = self.status@;
        assert(pre.status@.contains_key(p) && pre.status@[p] == Status::Visiting(w));
        assert(keys_of(self.entries@) =~= keys_of(pre.entries@).push(p));
        assert forall|i: int| 0 <= i < pre.entries@.len() implies keys_of(pre.entries@)[i] != p by {
            assert(pre.status@.contains_key(keys_of(pre.entries@)[i]));
        }
        assert(!keys_of(pre.entries@).contains(p));
        assert(keys_of(self.entries@).no_duplicates());
        assert(self.entries@.drop_last() =~= pre.entries@);
        self.lemma_queues_kept(pre);
        assert forall|i: int| 0 <= i < self.entries@.len() implies st.contains_key(
            #[trigger] keys_of(self.entries@)[i],
        ) && st[keys_of(self.entries@)[i]] is Done by {
            if i < pre.entries@.len() {
                assert(keys_of(self.entries@)[i] == keys_of(pre.entries@)[i]);
                assert(pre.status@.contains_key(keys_of(pre.entries@)[i]));
            }
        }
        assert forall|v: usize| v < self.phases@.len() implies match #[trigger] phase_status(
            self.phases@[v as int],
            v,
        ) {
            Some((q, s)) => st.contains_key(q) && st[q] == s,
            None => true,
        } by {
            if v != w {
                assert(self.phases@[v as int] == pre.phases@[v as int]);
                match phase_status(pre.phases@[v as int], v) {
                    Some((q, s)) => {
                        assert(pre.status@.contains_key(q));
                        if q == p {
                            assert(holder(pre.status@[q]) == Some(v));
                        }
                    },
                    None => {},
                }
            }
        }
        assert forall|q: Seq<u8>| #[trigger] st.contains_key(q) implies self.status_agrees(q, st[q]) by {
            if q == p {
                assert(keys_of(self.entries@)[pre.entries@.len() as int] == p);
            } else {
                assert(pre.status_agrees(q, st[q]));
                match st[q] {
                    Status::Done => {
                        let k = choose|k: int| 0 <= k < keys_of(pre.entries@).len() && keys_of(pre.entries@)[k] == q;
                        assert(keys_of(self.entries@)[k] == q);
                    },
                    Status::Queued(_) => {},
                    Status::Skipped => {},
                    _ => {
                        let v = holder(st[q]).unwrap();
                        if v == w {
                            assert(phase_status(pre.phases@[w as int], w) == Some((q, st[q])));
                        }
                    },
                }
            }
        }
        assert forall|q: Seq<u8>| #[trigger] self.listings@.contains_key(q) implies st.contains_key(q)
            && is_expanded_status(st[q]) by {
            assert(pre.status@.contains_key(q));
        }
        assert forall|q: Seq<u8>, i: int|
            #[trigger] self.listings@.contains_key(q) && 0 <= i < self.listings@[q].len()
                implies st.contains_key(#[trigger] child_path(q, self.listings@[q][i])) by {
            assert(pre.status@.contains_key(child_path(q, pre.listings@[q][i])));
        }
        assert(self.origins_ok(None)) by {
            assert(forall|q: Seq<u8>| #[trigger] self.origin@.contains_key(q) ==> pre.origin@.contains_key(q));
        }
    }

    /// Reports the visitor's output for the path that worker `w` holds: the
    /// path is recorded with it, its length is added to the path-bytes
    /// metric, and the worker is idle again. The path had not been recorded
    /// before. If the metric would not fit in 64 bits, nothing is recorded
    /// and the walk ends.
    pub fn visited(&mut self, w: usize, output: O) -> (r: Result<(), WalkError>)
        requires
            old(self).wf(),
            w < old(self).workers(),
            old(self).phases()[w as int] is Visiting,
        ensures
            final(self).wf(),
            final(self).root() == old(self).root(),
            final(self).workers() == old(self).workers(),
            forall|c: int| 0 <= c <= old(self).workers() ==> #[trigger] final(self).queued(c) == old(self).queued(c),
            final(self).listings() == old(self).listings(),
            forall|v: int|
                0 <= v < old(self).workers() && v != w ==> final(self).phases()[v]
                    == old(self).phases()[v],
            !keys_of(old(self).entries()).contains(old(self).held(w as int)),
            ({
                let p = old(self).held(w as int);
                if old(self).total() + p.len() > u64::MAX {
                    &&& r == Err::<(), WalkError>(WalkError::MetricOverflow)
                    &&& final(self).entries() == old(self).entries()
                    &&& final(self).total() == old(self).total()
                    &&& final(self).phases() == old(self).phases()
                    &&& final(self).status() == old(self).status()
                } else {
                    &&& r == Ok::<(), WalkError>(())
                    &&& entry_views(final(self).entries()) == entry_views(old(self).entries()).push((p, output))
                    &&& final(self).total() == old(self).total() + p.len()
                    &&& final(self).is_idle(w as int)
                    &&& final(self).status() == old(self).status().insert(p, Status::Done)
                }
            }),
    {
        let ghost pre = *self;
        let p = match &self.phases[w] {
            Phase::Visiting(p, _) => copy_path(p),
            _ => {
                assert(false);
                Vec::new()
            },
        };
        let ghost pv = p@;
        assert(phase_status(pre.phases@[w as int], w) == Some((pv, Status::Visiting(w))));
        assert(!keys_of(pre.entries@).contains(pv)) by {
            if keys_of(pre.entries@).contains(pv) {
                let k = choose|k: int| 0 <= k < keys_of(pre.entries@).len() && keys_of(pre.entries@)[k] == pv;
                assert(pre.status@.contains_key(keys_of(pre.entries@)[k]));
            }
        }
        let len = p.len() as u64;
        match self.total_path_bytes.checked_add(len) {
            None => Err(WalkError::MetricOverflow),
            Some(total) => {
                self.entries.push((p, output));
                self.total_path_bytes = total;
                self.phases[w] = Phase::Idle;
                self.status = Ghost(self.status@.insert(pv, Status::Done));
                proof {
                    self.lemma_recorded(pre, w, pv, self.entries@.last());
                    assert(entry_views(self.entries@) =~= entry_views(pre.entries@).push((pv, output)));
                }
                Ok(())
            },
        }
    }

    /// Ends a quiescent walk: its results, with no path twice and the
    /// path-bytes metric equal to the sum of the byte lengths of the paths.
    pub fn into_results(self) -> (r: WalkResults<O>)
        requires
            self.wf(),
            self.quiescent(),
        ensures
            r.paths@ == self.entries(),
            r.total_path_sizes == self.total(),
            keys_of(r.paths@).no_duplicates(),
            r.total_path_sizes == total_bytes(r.paths@),
    {
        WalkResults { paths: self.entries, total_path_sizes: self.total_path_bytes }
    }

    /// No two workers hold the same path: a path is visited by one worker
    /// only, and never after it was recorded.
    pub proof fn lemma_held_once(&self, w: usize, v: usize)
        requires
            self.wf(),
            w < self.workers(),
            v < self.workers(),
            !self.is_idle(w as int),
        ensures
            !keys_of(self.entries()).contains(self.held(w as int)),
            w != v ==> self.is_idle(v as int) || self.held(v as int) != self.held(w as int),
    {
        let p = self.held(w as int);
        let sw = phase_status(self.phases@[w as int], w);
        assert(sw matches Some((q, s)) && q == p && holder(s) == Some(w));
        assert(self.status@.contains_key(p));
        if keys_of(self.entries@).contains(p) {
            let k = choose|k: int| 0 <= k < keys_of(self.entries@).len() && keys_of(self.entries@)[k] == p;
            assert(self.status@.contains_key(keys_of(self.entries@)[k]));
        }
        if w != v && !self.is_idle(v as int) && self.held(v as int) == p {
            let sv = phase_status(self.phases@[v as int], v);
            assert(sv matches Some((q, s)) && q == p && holder(s) == Some(v));
        }
    }

    /// At quiescence every path queued was recorded or dropped; every name
    /// listed in a directory gave a child that was recorded or dropped;
    /// every directory listed was recorded; and every path recorded is the
    /// root or a child that a listing gave.
    pub proof fn lemma_quiescent_complete(&self)
        requires
            self.wf(),
            self.quiescent(),
        ensures
            forall|q: Seq<u8>|
                #[trigger] self.status().contains_key(q) ==> (self.status()[q] is Done
                    || self.status()[q] is Skipped),
            forall|q: Seq<u8>|
                #[trigger] keys_of(self.entries()).contains(q) <==> (self.status().contains_key(q)
                    && self.status()[q] is Done),
            forall|p: Seq<u8>, i: int|
                #[trigger] self.listings().contains_key(p) && 0 <= i < self.listings()[p].len() ==> {
                    let c = #[trigger] child_path(p, self.listings()[p][i]);
                    self.status().contains_key(c) && (self.status()[c] is Done || self.status()[c] is Skipped)
                },
            forall|p: Seq<u8>| #[trigger] self.listings().contains_key(p) ==> keys_of(self.entries()).contains(p),
            forall|q: Seq<u8>|
                #[trigger] self.status().contains_key(q) ==> q == self.root() || exists|p: Seq<u8>, n: Seq<u8>|
                    #![trigger child_path(p, n)]
                    self.listings().contains_key(p) && self.listings()[p].contains(n) && q == child_path(p, n),
    {
        assert forall|q: Seq<u8>| #[trigger] self.status@.contains_key(q) implies (self.status@[q] is Done
            || self.status@[q] is Skipped) by {
            assert(self.status_agrees(q, self.status@[q]));
            match self.status@[q] {
                Status::Queued(c) => {
                    assert(self.queued(c as int).len() == 0);
                },
                Status::Done => {},
                Status::Skipped => {},
                _ => {
                    let v = holder(self.status@[q]).unwrap();
                    assert(self.is_idle(v as int));
                },
            }
        }
        assert forall|q: Seq<u8>| #[trigger] keys_of(self.entries@).contains(q) <==> (self.status@.contains_key(q)
            && self.status@[q] is Done) by {
            if keys_of(self.entries@).contains(q) {
                let k = choose|k: int| 0 <= k < keys_of(self.entries@).len() && keys_of(self.entries@)[k] == q;
                assert(self.status@.contains_key(keys_of(self.entries@)[k]));
            }
            if self.status@.contains_key(q) && self.status@[q] is Done {
                assert(self.status_agrees(q, self.status@[q]));
            }
        }
        assert forall|p: Seq<u8>| #[trigger] self.listings@.contains_key(p) implies keys_of(self.entries@).contains(p) by {
            assert(self.status@.contains_key(p));
            assert(self.status_agrees(p, self.status@[p]));
            if self.status@[p] is Visiting {
                let v = holder(self.status@[p]).unwrap();
                assert(self.is_idle(v as int));
            }
        }
        assert forall|q: Seq<u8>| #[trigger] self.status@.contains_key(q) implies q == self.root@ || exists|p: Seq<u8>, n: Seq<u8>|
            #![trigger child_path(p, n)]
            self.listings@.contains_key(p) && self.listings@[p].contains(n) && q == child_path(p, n) by {
            if q != self.root@ {
                let (p, n) = self.origin@[q];
                assert(self.listings@.contains_key(p) && self.listings@[p].contains(n) && q == child_path(p, n));
            }
        }
    }

    /// A path that a quiescent walk reached is reached by every quiescent
    /// walk from the same root with the same listings.
    proof fn lemma_reached_by(&self, other: Self, q: Seq<u8>)
        requires
            self.wf(),
            other.wf(),
            self.quiescent(),
            other.quiescent(),
            self.root() == other.root(),
            self.listings() == other.listings(),
            self.status().contains_key(q),
        ensures
            other.status().contains_key(q),
    {
        self.lemma_quiescent_complete();
        if q != self.root@ {
            let (p, n) = choose|p: Seq<u8>, n: Seq<u8>|
                #![trigger child_path(p, n)]
                self.listings@.contains_key(p) && self.listings@[p].contains(n) && q == child_path(p, n);
            let i = choose|i: int| 0 <= i < self.listings@[p].len() && self.listings@[p][i] == n;
            assert(other.status@.contains_key(child_path(p, other.listings@[p][i])));
        }
    }

    /// The paths a walk records depend on what the filesystem answered, not
    /// on the number of workers or the order in which they took tasks: two
    /// quiescent walks from the same root, given the same listings for the
    /// same directories and dropping the same paths, record the same paths.
    pub proof fn lemma_same_answers_same_paths(a: Self, b: Self)
        requires
            a.wf(),
            b.wf(),
            a.quiescent(),
            b.quiescent(),
            a.root() == b.root(),
            a.listings() == b.listings(),
            forall|q: Seq<u8>|
                a.status().contains_key(q) && b.status().contains_key(q) ==> (#[trigger] a.status()[q] is Skipped
                    <==> #[trigger] b.status()[q] is Skipped),
        ensures
            forall|q: Seq<u8>|
                keys_of(a.entries()).contains(q) <==> #[trigger] keys_of(b.entries()).contains(q),
    {
        a.lemma_quiescent_complete();
        b.lemma_quiescent_complete();
        assert forall|q: Seq<u8>| keys_of(a.entries()).contains(q) <==> #[trigger] keys_of(b.entries()).contains(q) by {
            if a.status@.contains_key(q) {
                a.lemma_reached_by(b, q);
            }
            if b.status@.contains_key(q) {
                b.lemma_reached_by(a, q);
            }
        }
    }
}

} // verus!
