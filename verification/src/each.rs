//! The list container: owns the live slot list, the previous keyed
//! snapshot and the identity counter of rendered subtrees, and runs one
//! full diff-and-apply cycle per change of the reactive source.
//!
//! The surrounding effect scheduler decides when a cycle runs and
//! serializes the runs; it hands each cycle the fresh snapshot of keys and
//! performs the physical mounts the cycle returns. One cycle runs
//! synchronously and to completion, performs no I/O, and never suspends.

use crate::diff::add_rank;
use crate::diff::diff;
use crate::diff::distinct_keys;
use crate::diff::is_added;
use crate::diff::is_kept;
use crate::diff::lemma_adds_char;
use crate::diff::old_index_of;
use crate::diff::spec_adds;
use crate::diff::spec_moves;
use crate::slots::all_mounted;
use crate::slots::apply_cmds;
use crate::slots::slot_keys;
use crate::slots::spec_mounts;
use crate::slots::Child;
use crate::slots::NodeRef;
use crate::slots::Slot;
use vstd::prelude::*;

verus! {

/// A component for efficiently rendering a keyed reactive sequence.
///
/// It owns the slot list, the outer boundary anchors' positions (the
/// trailing one is [`NodeRef::ListClosing`]), and the last-seen snapshot,
/// used as the old side of the next cycle's diff.
pub struct Each {
    children: Vec<Slot>,
    prev: Option<Vec<u64>>,
    next_child_id: u64,
}

/// Every index below `n` of a snapshot diffed against an empty old
/// snapshot is an add, at its own rank.
proof fn lemma_add_rank_empty(to: Seq<u64>, n: int)
    requires
        0 <= n <= to.len(),
    ensures
        add_rank(Seq::<u64>::empty(), to, n) == n,
    decreases n,
{
    if n > 0 {
        lemma_add_rank_empty(to, n - 1);
        assert(!Seq::<u64>::empty().contains(to[n - 1]));
    }
}

/// An owned copy of a key snapshot.
fn clone_keys(keys: &Vec<u64>) -> (r: Vec<u64>)
    ensures
        r@ == keys@,
{
    let mut r: Vec<u64> = Vec::with_capacity(keys.len());
    let mut i: usize = 0;
    while i < keys.len()
        invariant
            i <= keys@.len(),
            r@ == keys@.take(i as int),
        decreases keys@.len() - i,
    {
        r.push(keys[i]);
        proof {
            assert(r@ =~= keys@.take(i + 1));
        }
        i += 1;
    }
    proof {
        assert(keys@.take(keys@.len() as int) =~= keys@);
    }
    r
}

impl Each {
    /// The live slot list.
    pub closed spec fn children_spec(&self) -> Seq<Slot> {
        self.children@
    }

    /// The stored previous snapshot, absent before the first run.
    pub closed spec fn prev_spec(&self) -> Option<Seq<u64>> {
        match self.prev {
            Some(p) => Some(p@),
            None => None,
        }
    }

    /// The identity the next freshly rendered subtree will get.
    pub closed spec fn next_child_id_spec(&self) -> u64 {
        self.next_child_id
    }

    /// The keys currently mounted, in position order.
    pub open spec fn keys_spec(&self) -> Seq<u64> {
        slot_keys(self.children_spec())
    }

    /// Well-formedness between cycles: every slot is mounted, keys are
    /// distinct, the stored snapshot is exactly the mounted key order, and
    /// every mounted identity was handed out by the counter.
    pub open spec fn wf(&self) -> bool {
        &&& all_mounted(self.children_spec())
        &&& distinct_keys(self.keys_spec())
        &&& (match self.prev_spec() {
            Some(p) => p == self.keys_spec(),
            None => self.children_spec().len() == 0,
        })
        &&& self.children_spec().len() <= isize::MAX as int
        &&& forall|i: int|
            0 <= i < self.children_spec().len() ==> (
            #[trigger] self.children_spec()[i]).child->Some_0.id < self.next_child_id_spec()
    }

    /// Creates a new [`Each`] component with an empty slot list; nothing
    /// is mounted until the first [`Each::update`] run.
    pub fn new() -> (e: Each)
        ensures
            e.wf(),
            e.children_spec().len() == 0,
            e.prev_spec() is None,
            e.next_child_id_spec() == 0,
    {
        Each { children: Vec::new(), prev: None, next_child_id: 0 }
    }

    /// The identity the next freshly rendered subtree will get; rendered
    /// identities never reach it.
    pub fn next_child_id(&self) -> (id: u64)
        ensures
            id == self.next_child_id_spec(),
    {
        self.next_child_id
    }

    /// How many items are currently mounted.
    pub fn len(&self) -> (n: usize)
        ensures
            n == self.children_spec().len(),
    {
        self.children.len()
    }

    /// The key mounted at position `i`.
    pub fn key_at(&self, i: usize) -> (k: u64)
        requires
            self.wf(),
            i < self.children_spec().len(),
        ensures
            k == self.keys_spec()[i as int],
    {
        self.children[i].child.unwrap().key
    }

    /// The identity of the subtree mounted at position `i`.
    pub fn child_id_at(&self, i: usize) -> (id: u64)
        requires
            self.wf(),
            i < self.children_spec().len(),
        ensures
            id == self.children_spec()[i as int].child->Some_0.id,
    {
        self.children[i].child.unwrap().id
    }

    /// One reconciliation cycle, invoked by the effect scheduler with each
    /// fresh snapshot of keys. The first run mounts every item in source
    /// order, before the trailing boundary anchor, without invoking the
    /// diff calculator; every later run diffs the snapshot against the
    /// stored previous one, applies the operations, and stores the
    /// snapshot for the next cycle. Afterwards the mounted key order is
    /// exactly the snapshot; every kept key retains its subtree instance;
    /// every added key gets a fresh one. Returns the physical insertions
    /// performed, in order, each before its anchor.
    pub fn update(&mut self, new_keys: &Vec<u64>) -> (mounts: Vec<(u64, NodeRef)>)
        requires
            old(self).wf(),
            distinct_keys(new_keys@),
            new_keys@.len() <= isize::MAX as int,
            old(self).next_child_id_spec() + new_keys@.len() <= u64::MAX,
        ensures
            final(self).wf(),
            final(self).keys_spec() == new_keys@,
            final(self).children_spec().len() == new_keys@.len(),
            final(self).prev_spec() == Some(new_keys@),
            forall|j: int|
                0 <= j < new_keys@.len() && is_kept(old(self).keys_spec(), new_keys@, j) ==> (
                #[trigger] final(self).children_spec()[j]).child == old(self).children_spec()[old_index_of(
                    old(self).keys_spec(),
                    new_keys@,
                    j,
                )].child,
            forall|j: int|
                0 <= j < new_keys@.len() && is_added(old(self).keys_spec(), new_keys@, j) ==> (
                #[trigger] final(self).children_spec()[j]).child == Some(
                    Child {
                        id: (old(self).next_child_id_spec() + add_rank(
                            old(self).keys_spec(),
                            new_keys@,
                            j,
                        )) as u64,
                        key: new_keys@[j],
                    },
                ),
            old(self).prev_spec() is None ==> mounts@.len() == new_keys@.len() && forall|r: int|
                0 <= r < mounts@.len() ==> #[trigger] mounts@[r] == (
                    (old(self).next_child_id_spec() + r) as u64,
                    NodeRef::ListClosing,
                ),
            old(self).prev_spec() is Some ==> mounts@.len() == spec_adds(
                old(self).keys_spec(),
                new_keys@,
            ).len() + spec_moves(old(self).keys_spec(), new_keys@).len() && mounts@ == spec_mounts(
                old(self).children_spec(),
                old(self).keys_spec(),
                new_keys@,
                old(self).next_child_id_spec(),
            ),
    {
        let ghost n0 = self.next_child_id;
        let ghost from = self.keys_spec();
        let mounts: Vec<(u64, NodeRef)>;
        match &self.prev {
            Some(prev_vec) => {
                let cmds = diff(prev_vec, new_keys);
                mounts = apply_cmds(cmds, &mut self.children, new_keys, &mut self.next_child_id);
                proof {
                    lemma_adds_char(from, new_keys@, new_keys@.len() as int);
                }
            },
            None => {
                let mut fresh: Vec<Slot> = Vec::with_capacity(new_keys.len());
                let mut initial: Vec<(u64, NodeRef)> = Vec::new();
                let mut nid: u64 = self.next_child_id;
                let mut i: usize = 0;
                while i < new_keys.len()
                    invariant
                        i <= new_keys@.len(),
                        n0 + new_keys@.len() <= u64::MAX,
                        nid == n0 + i,
                        fresh@.len() == i,
                        forall|j: int|
                            0 <= j < i ==> #[trigger] fresh@[j] == (Slot {
                                child: Some(Child { id: (n0 + j) as u64, key: new_keys@[j] }),
                            }),
                        initial@.len() == i,
                        forall|j: int|
                            0 <= j < i ==> #[trigger] initial@[j] == (
                                (n0 + j) as u64,
                                NodeRef::ListClosing,
                            ),
                    decreases new_keys@.len() - i,
                {
                    let rendered = Child { id: nid, key: new_keys[i] };
                    initial.push((nid, NodeRef::ListClosing));
                    fresh.push(Slot { child: Some(rendered) });
                    nid = nid + 1;
                    i += 1;
                }
                self.children = fresh;
                self.next_child_id = nid;
                mounts = initial;
                proof {
                    assert(from =~= Seq::<u64>::empty());
                    assert forall|j: int| 0 <= j < new_keys@.len() implies is_added(
                        from,
                        new_keys@,
                        j,
                    ) && add_rank(from, new_keys@, j) == j by {
                        assert(!Seq::<u64>::empty().contains(new_keys@[j]));
                        lemma_add_rank_empty(new_keys@, j);
                    }
                }
            },
        }
        self.prev = Some(clone_keys(new_keys));
        proof {
            assert(self.keys_spec() =~= new_keys@);
            assert forall|i: int| 0 <= i < self.children_spec().len() implies (
            #[trigger] self.children_spec()[i]).child->Some_0.id < self.next_child_id_spec() by {
                if is_added(from, new_keys@, i) {
                    lemma_adds_char(from, new_keys@, new_keys@.len() as int);
                }
            }
        }
        mounts
    }
}

} // verus!
