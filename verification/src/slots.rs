//! The live slot list and the apply engine: consumes a diff and mutates the
//! slot list so that its key order matches the new snapshot, while the
//! mounted subtree of every kept key survives as the same instance.
//!
//! Moves are applied in two phases: each moved slot is first extracted
//! (leaving an empty placeholder so indices stay valid mid-batch) and only
//! re-inserted after every remove, extraction and add has run — while other
//! operations are pending, the correct insertion anchor of a moved slot is
//! not yet knowable.

use crate::diff::add_rank;
use crate::diff::diff_matches;
use crate::diff::distinct_keys;
use crate::diff::is_added;
use crate::diff::is_kept;
use crate::diff::is_moved;
use crate::diff::is_moved_old;
use crate::diff::is_removed_old;
use crate::diff::lemma_adds_char;
use crate::diff::lemma_distinct_index;
use crate::diff::lemma_index_of_witness;
use crate::diff::lemma_moves_char;
use crate::diff::lemma_removes_char;
use crate::diff::lemma_snapshot_delta;
use crate::diff::move_rank;
use crate::diff::new_index_of;
use crate::diff::old_index_of;
use crate::diff::remove_rank;
use crate::diff::spec_adds;
use crate::diff::spec_moves;
use crate::diff::spec_removes;
use crate::diff::Diff;
use crate::diff::DiffOp;
use vstd::prelude::*;

verus! {

/// The subtree mounted in a slot: its identity and the key it was rendered
/// for. The identity never changes once rendered; keeping it across updates
/// is what preserves focus and animation state for kept keys.
#[derive(Clone, Copy, Debug, PartialEq, Eq, Structural)]
pub struct Child {
    pub id: u64,
    pub key: u64,
}

/// One mount slot of the live list, optionally owning a mounted subtree.
/// An empty slot is a collapsed placeholder that still occupies a position,
/// so that indices stay valid in the middle of a batch.
#[derive(Clone, Copy, Debug, PartialEq, Eq, Structural)]
pub struct Slot {
    pub child: Option<Child>,
}

/// A physical sibling reference: the opening anchor of a slot, or the
/// list's trailing boundary anchor (which exists even when the list is
/// empty).
#[derive(Clone, Copy, Debug, PartialEq, Eq, Structural)]
pub enum NodeRef {
    SlotOpening(usize),
    ListClosing,
}

/// The key of a slot's mounted subtree (meaningful when one is mounted).
pub open spec fn slot_key(s: Slot) -> u64 {
    s.child->Some_0.key
}

/// The keys of a slot list, in position order.
pub open spec fn slot_keys(cs: Seq<Slot>) -> Seq<u64> {
    cs.map_values(|s: Slot| slot_key(s))
}

/// Every slot owns a mounted subtree.
pub open spec fn all_mounted(cs: Seq<Slot>) -> bool {
    forall|i: int| 0 <= i < cs.len() ==> (#[trigger] cs[i]).child is Some
}

/// The anchor a forward scan from `start` finds: the opening anchor of the
/// first slot at or after `start` that owns a mounted subtree, or the
/// trailing boundary anchor.
pub open spec fn spec_next_mounted(cs: Seq<Slot>, start: int) -> NodeRef
    decreases cs.len() - start,
{
    if !(0 <= start < cs.len()) {
        NodeRef::ListClosing
    } else if cs[start].child is Some {
        NodeRef::SlotOpening(start as usize)
    } else {
        spec_next_mounted(cs, start + 1)
    }
}

/// Scans forward from `start_at` for the first slot that currently owns a
/// mounted subtree. Mid-batch, some slots are transiently empty and others
/// not yet populated; the first mounted slot is the only physically real
/// sibling an insertion can go before, with the trailing boundary anchor as
/// the fallback.
pub fn get_next_closest_mounted_sibling(children: &Vec<Slot>, start_at: usize) -> (r: NodeRef)
    ensures
        r == spec_next_mounted(children@, start_at as int),
{
    let mut i: usize = start_at;
    while i < children.len()
        invariant
            start_at <= i,
            spec_next_mounted(children@, start_at as int) == spec_next_mounted(
                children@,
                i as int,
            ),
        decreases children@.len() - i,
    {
        if children[i].child.is_some() {
            return NodeRef::SlotOpening(i);
        }
        i += 1;
    }
    NodeRef::ListClosing
}

/// The slot at position `p` once, of one apply batch, the removes of rank
/// below `kr`, the move extractions of rank below `km` and the adds of rank
/// below `ka` have run; `n0` is the first child id the batch renders.
pub open spec fn mid_slot(
    old_cs: Seq<Slot>,
    from: Seq<u64>,
    to: Seq<u64>,
    n0: u64,
    kr: int,
    km: int,
    ka: int,
    p: int,
) -> Slot {
    if is_added(from, to, p) && add_rank(from, to, p) < ka {
        Slot { child: Some(Child { id: (n0 + add_rank(from, to, p)) as u64, key: to[p] }) }
    } else if is_moved_old(from, to, p) && move_rank(from, to, new_index_of(from, to, p)) < km {
        Slot { child: None }
    } else if is_removed_old(from, to, p) && remove_rank(from, to, p) < kr {
        Slot { child: None }
    } else if 0 <= p < old_cs.len() {
        old_cs[p]
    } else {
        Slot { child: None }
    }
}

/// The whole slot list of length `len` in the state [`mid_slot`] describes.
pub open spec fn mid_seq(
    old_cs: Seq<Slot>,
    from: Seq<u64>,
    to: Seq<u64>,
    n0: u64,
    len: int,
    kr: int,
    km: int,
    ka: int,
) -> Seq<Slot> {
    Seq::new(len as nat, |p: int| mid_slot(old_cs, from, to, n0, kr, km, ka, p))
}

/// The slot at position `p` once every remove, extraction and add has run
/// and the deferred moves of rank below `kf` have been re-inserted.
pub open spec fn flush_slot(
    old_cs: Seq<Slot>,
    from: Seq<u64>,
    to: Seq<u64>,
    n0: u64,
    kf: int,
    p: int,
) -> Slot {
    if is_moved(from, to, p) && move_rank(from, to, p) < kf {
        old_cs[old_index_of(from, to, p)]
    } else {
        mid_slot(
            old_cs,
            from,
            to,
            n0,
            spec_removes(from, to).len() as int,
            spec_moves(from, to).len() as int,
            spec_adds(from, to).len() as int,
            p,
        )
    }
}

/// The whole slot list of length `len` in the state [`flush_slot`]
/// describes.
pub open spec fn flush_seq(
    old_cs: Seq<Slot>,
    from: Seq<u64>,
    to: Seq<u64>,
    n0: u64,
    len: int,
    kf: int,
) -> Seq<Slot> {
    Seq::new(len as nat, |p: int| flush_slot(old_cs, from, to, n0, kf, p))
}

/// The length the slot list works at during one apply batch: grown up
/// front by a non-negative net delta, not yet shrunk by a negative one.
pub open spec fn batch_len(from: Seq<u64>, to: Seq<u64>) -> int {
    if spec_adds(from, to).len() >= spec_removes(from, to).len() {
        to.len() as int
    } else {
        from.len() as int
    }
}

/// The physical insertions the first `q` adds of one apply batch perform,
/// in order: each brings the `q`-th fresh subtree immediately before the
/// anchor a forward scan finds in the list state of that moment.
pub open spec fn spec_add_mounts(
    old_cs: Seq<Slot>,
    from: Seq<u64>,
    to: Seq<u64>,
    n0: u64,
    len: int,
    q: int,
) -> Seq<(u64, NodeRef)>
    decreases q,
{
    if q <= 0 {
        Seq::empty()
    } else {
        spec_add_mounts(old_cs, from, to, n0, len, q - 1).push(
            (
                (n0 + q - 1) as u64,
                spec_next_mounted(
                    mid_seq(
                        old_cs,
                        from,
                        to,
                        n0,
                        len,
                        spec_removes(from, to).len() as int,
                        spec_moves(from, to).len() as int,
                        q - 1,
                    ),
                    spec_adds(from, to)[q - 1]->Add_at + 1,
                ),
            ),
        )
    }
}

/// The physical insertions the first `q` deferred moves of one apply batch
/// perform, in order, after every add has run: each brings the `q`-th
/// extracted subtree back immediately before the anchor a forward scan
/// finds in the list state of that moment.
pub open spec fn spec_flush_mounts(
    old_cs: Seq<Slot>,
    from: Seq<u64>,
    to: Seq<u64>,
    n0: u64,
    len: int,
    q: int,
) -> Seq<(u64, NodeRef)>
    decreases q,
{
    if q <= 0 {
        Seq::empty()
    } else {
        spec_flush_mounts(old_cs, from, to, n0, len, q - 1).push(
            (
                old_cs[spec_moves(from, to)[q - 1]->Move_from as int].child->Some_0.id,
                spec_next_mounted(
                    flush_seq(old_cs, from, to, n0, len, q - 1),
                    spec_moves(from, to)[q - 1]->Move_to + 1,
                ),
            ),
        )
    }
}

/// Every physical insertion one apply batch performs, in order: one per
/// add, then one per deferred move.
pub open spec fn spec_mounts(old_cs: Seq<Slot>, from: Seq<u64>, to: Seq<u64>, n0: u64) -> Seq<
    (u64, NodeRef),
> {
    spec_add_mounts(old_cs, from, to, n0, batch_len(from, to), spec_adds(from, to).len() as int)
        + spec_flush_mounts(
        old_cs,
        from,
        to,
        n0,
        batch_len(from, to),
        spec_moves(from, to).len() as int,
    )
}

/// Applies a diff to the live slot list, in the required order: all
/// removes, then all move extractions, then all adds, then the deferred
/// move insertions. Each add renders a fresh subtree (a fresh id from
/// `next_child_id`, in target order); each kept key retains its mounted
/// subtree instance. Afterwards the list is trimmed to the new snapshot's
/// length — by then every slot past it is empty (a deliberate shrink
/// policy). Returns the physical insertions performed, in order: one per
/// add, then one per deferred move, each immediately before its scanned
/// anchor.
#[verifier::rlimit(100)]
pub fn apply_cmds(
    cmds: Diff,
    children: &mut Vec<Slot>,
    to: &Vec<u64>,
    next_child_id: &mut u64,
) -> (mounts: Vec<(u64, NodeRef)>)
    requires
        distinct_keys(slot_keys(old(children)@)),
        distinct_keys(to@),
        all_mounted(old(children)@),
        diff_matches(cmds, slot_keys(old(children)@), to@),
        old(children)@.len() <= isize::MAX as int,
        to@.len() <= isize::MAX as int,
        *old(next_child_id) + to@.len() <= u64::MAX,
    ensures
        final(children)@.len() == to@.len(),
        all_mounted(final(children)@),
        slot_keys(final(children)@) == to@,
        forall|j: int|
            0 <= j < to@.len() && is_kept(slot_keys(old(children)@), to@, j) ==> (
            #[trigger] final(children)@[j]).child == old(children)@[old_index_of(
                slot_keys(old(children)@),
                to@,
                j,
            )].child,
        forall|j: int|
            0 <= j < to@.len() && is_added(slot_keys(old(children)@), to@, j) ==> (
            #[trigger] final(children)@[j]).child == Some(
                Child {
                    id: (*old(next_child_id) + add_rank(slot_keys(old(children)@), to@, j)) as u64,
                    key: to@[j],
                },
            ),
        *final(next_child_id) == *old(next_child_id) + spec_adds(
            slot_keys(old(children)@),
            to@,
        ).len(),
        mounts@.len() == spec_adds(slot_keys(old(children)@), to@).len() + spec_moves(
            slot_keys(old(children)@),
            to@,
        ).len(),
        mounts@ == spec_mounts(
            old(children)@,
            slot_keys(old(children)@),
            to@,
            *old(next_child_id),
        ),
{
    let ghost old_cs = old(children)@;
    let ghost from = slot_keys(old(children)@);
    let ghost n0 = *old(next_child_id);
    let ghost removes = spec_removes(from, to@);
    let ghost moves = spec_moves(from, to@);
    let ghost adds = spec_adds(from, to@);
    let ghost rn = removes.len() as int;
    let ghost mn = moves.len() as int;
    let ghost an = adds.len() as int;

    proof {
        lemma_removes_char(from, to@, from.len() as int);
        lemma_moves_char(from, to@, to@.len() as int);
        lemma_adds_char(from, to@, to@.len() as int);
        lemma_snapshot_delta(from, to@);
    }

    // Pre-resize: grow by the net delta, so every add target is
    // addressable before any operation runs.
    if cmds.added_delta >= 0 {
        let grow = cmds.added_delta as usize;
        let mut g: usize = 0;
        while g < grow
            invariant
                g <= grow,
                children@ == old_cs + Seq::new(g as nat, |q: int| (Slot { child: None })),
            decreases grow - g,
        {
            children.push(Slot { child: None });
            proof {
                assert(children@ =~= old_cs + Seq::new(
                    (g + 1) as nat,
                    |q: int| (Slot { child: None }),
                ));
            }
            g += 1;
        }
    }
    let ghost len0 = children@.len() as int;
    proof {
        assert(len0 == if an >= rn {
            to@.len() as int
        } else {
            from.len() as int
        });
        assert(to@.len() <= len0 && from.len() <= len0);
        assert(len0 == batch_len(from, to@));
        assert(children@ =~= mid_seq(old_cs, from, to@, n0, len0, 0, 0, 0));
    }

    // Deferred moves: extracted now, re-inserted only after the whole
    // batch is queued, so no pending operation collides with them.
    let mut items_to_move: Vec<(usize, Slot)> = Vec::new();
    let mut mounts: Vec<(u64, NodeRef)> = Vec::new();

    let ghost mut kr: int = 0;
    let ghost mut km: int = 0;
    let ghost mut ka: int = 0;
    let mut idx: usize = 0;
    while idx < cmds.ops.len()
        invariant
            distinct_keys(from),
            distinct_keys(to@),
            all_mounted(old_cs),
            from == slot_keys(old_cs),
            old_cs.len() == from.len(),
            from.len() <= isize::MAX as int,
            to@.len() <= isize::MAX as int,
            n0 + to@.len() <= u64::MAX,
            cmds.ops@ == removes + moves + adds,
            removes == spec_removes(from, to@),
            moves == spec_moves(from, to@),
            adds == spec_adds(from, to@),
            rn == removes.len(),
            mn == moves.len(),
            an == adds.len(),
            an <= to@.len(),
            from.len() + an - rn == to@.len(),
            to@.len() <= len0,
            from.len() <= len0,
            children@.len() == len0,
            idx == kr + km + ka,
            0 <= kr <= rn,
            0 <= km <= mn,
            0 <= ka <= an,
            km > 0 || ka > 0 ==> kr == rn,
            ka > 0 ==> km == mn,
            *next_child_id == n0 + ka,
            children@ == mid_seq(old_cs, from, to@, n0, len0, kr, km, ka),
            items_to_move@.len() == km,
            forall|q: int|
                0 <= q < km ==> #[trigger] items_to_move@[q] == (
                    moves[q]->Move_to,
                    old_cs[moves[q]->Move_from as int],
                ),
            mounts@.len() == ka,
            len0 == batch_len(from, to@),
            mounts@ == spec_add_mounts(old_cs, from, to@, n0, len0, ka),
        decreases cmds.ops@.len() - idx,
    {
        proof {
            lemma_removes_char(from, to@, from.len() as int);
            lemma_moves_char(from, to@, to@.len() as int);
            lemma_adds_char(from, to@, to@.len() as int);
        }
        let op = cmds.ops[idx];
        match op {
            DiffOp::Remove { at } => {
                proof {
                    if idx >= rn + mn {
                        assert(op == adds[idx - rn - mn]);
                        assert(false);
                    } else if idx >= rn {
                        assert(op == moves[idx - rn]);
                        assert(false);
                    }
                    assert(km == 0 && ka == 0 && kr == idx);
                    assert(op == removes[kr]);
                    assert(is_removed_old(from, to@, at as int));
                    assert(remove_rank(from, to@, at as int) == kr);
                }
                children[at] = Slot { child: None };
                proof {
                    let ghost prev = mid_seq(old_cs, from, to@, n0, len0, kr, 0, 0);
                    assert forall|p: int| 0 <= p < len0 implies children@[p] == mid_slot(
                        old_cs,
                        from,
                        to@,
                        n0,
                        kr + 1,
                        0,
                        0,
                        p,
                    ) by {
                        if p == at as int {
                        } else {
                            if is_removed_old(from, to@, p) && remove_rank(from, to@, p) == kr {
                                assert(removes[remove_rank(from, to@, p)] == (DiffOp::Remove {
                                    at: p as usize,
                                }));
                                assert(false);
                            }
                            assert(children@[p] == prev[p]);
                        }
                    }
                    kr = kr + 1;
                    assert(children@ =~= mid_seq(old_cs, from, to@, n0, len0, kr, 0, 0));
                }
            },
            DiffOp::Move { from: f, to: t } => {
                proof {
                    if idx < rn {
                        assert(op == removes[idx as int]);
                        assert(false);
                    } else if idx >= rn + mn {
                        assert(op == adds[idx - rn - mn]);
                        assert(false);
                    }
                    assert(ka == 0 && kr == rn && km == idx - rn);
                    assert(op == moves[km]);
                    assert(is_moved(from, to@, t as int));
                    assert(move_rank(from, to@, t as int) == km);
                    assert(f as int == old_index_of(from, to@, t as int));
                    assert(0 <= f < from.len());
                    // The extracted slot is still the original one: its key
                    // is kept, so no remove touched it, and its own move is
                    // the one running now.
                    assert(from[f as int] == to@[t as int]);
                    lemma_distinct_index(to@, t as int, to@[t as int]);
                    assert(new_index_of(from, to@, f as int) == t as int);
                    assert(move_rank(from, to@, new_index_of(from, to@, f as int)) == km);
                    assert(!is_removed_old(from, to@, f as int));
                    assert(children@[f as int] == old_cs[f as int]);
                }
                let item = children[f];
                children[f] = Slot { child: None };
                items_to_move.push((t, item));
                proof {
                    let ghost prev = mid_seq(old_cs, from, to@, n0, len0, rn, km, 0);
                    assert forall|p: int| 0 <= p < len0 implies children@[p] == mid_slot(
                        old_cs,
                        from,
                        to@,
                        n0,
                        rn,
                        km + 1,
                        0,
                        p,
                    ) by {
                        if p == f as int {
                        } else {
                            if is_moved_old(from, to@, p) && move_rank(
                                from,
                                to@,
                                new_index_of(from, to@, p),
                            ) == km {
                                let j = new_index_of(from, to@, p);
                                lemma_index_of_witness(to@, from[p]);
                                assert(to@[j] == from[p]);
                                lemma_distinct_index(from, p, from[p]);
                                assert(old_index_of(from, to@, j) == p);
                                assert(is_moved(from, to@, j));
                                assert(moves[move_rank(from, to@, j)] == (DiffOp::Move {
                                    from: p as usize,
                                    to: j as usize,
                                }));
                                assert(false);
                            }
                            assert(children@[p] == prev[p]);
                        }
                    }
                    km = km + 1;
                    assert(children@ =~= mid_seq(old_cs, from, to@, n0, len0, rn, km, 0));
                }
            },
            DiffOp::Add { at } => {
                proof {
                    if idx < rn {
                        assert(op == removes[idx as int]);
                        assert(false);
                    } else if idx < rn + mn {
                        assert(op == moves[idx - rn]);
                        assert(false);
                    }
                    assert(kr == rn && km == mn && ka == idx - rn - mn);
                    assert(op == adds[ka]);
                    assert(is_added(from, to@, at as int));
                    assert(add_rank(from, to@, at as int) == ka);
                    assert(ka < an);
                }
                let id = *next_child_id;
                *next_child_id = id + 1;
                let rendered = Child { id, key: to[at] };
                let anchor = get_next_closest_mounted_sibling(children, at + 1);
                mounts.push((id, anchor));
                children[at] = Slot { child: Some(rendered) };
                proof {
                    let ghost prev = mid_seq(old_cs, from, to@, n0, len0, rn, mn, ka);
                    assert forall|p: int| 0 <= p < len0 implies children@[p] == mid_slot(
                        old_cs,
                        from,
                        to@,
                        n0,
                        rn,
                        mn,
                        ka + 1,
                        p,
                    ) by {
                        if p == at as int {
                            assert((n0 + add_rank(from, to@, p)) as u64 == id);
                        } else {
                            if is_added(from, to@, p) && add_rank(from, to@, p) == ka {
                                assert(adds[add_rank(from, to@, p)] == (DiffOp::Add {
                                    at: p as usize,
                                }));
                                assert(false);
                            }
                            assert(children@[p] == prev[p]);
                        }
                    }
                    assert(anchor == spec_next_mounted(
                        mid_seq(old_cs, from, to@, n0, len0, rn, mn, ka),
                        at + 1,
                    ));
                    assert(mounts@ =~= spec_add_mounts(old_cs, from, to@, n0, len0, ka + 1));
                    ka = ka + 1;
                    assert(children@ =~= mid_seq(old_cs, from, to@, n0, len0, rn, mn, ka));
                }
            },
        }
        idx += 1;
    }
    proof {
        assert(kr == rn && km == mn && ka == an);
        assert(children@ =~= flush_seq(old_cs, from, to@, n0, len0, 0));
        assert(mounts@ =~= spec_add_mounts(old_cs, from, to@, n0, len0, an) + spec_flush_mounts(
            old_cs,
            from,
            to@,
            n0,
            len0,
            0,
        ));
    }

    // Re-insert the deferred moves, each before its freshly scanned anchor.
    let ghost mut kf: int = 0;
    let mut q: usize = 0;
    while q < items_to_move.len()
        invariant
            distinct_keys(from),
            distinct_keys(to@),
            all_mounted(old_cs),
            from == slot_keys(old_cs),
            old_cs.len() == from.len(),
            from.len() <= isize::MAX as int,
            to@.len() <= isize::MAX as int,
            moves == spec_moves(from, to@),
            adds == spec_adds(from, to@),
            removes == spec_removes(from, to@),
            rn == removes.len(),
            mn == moves.len(),
            an == adds.len(),
            from.len() + an - rn == to@.len(),
            to@.len() <= len0,
            from.len() <= len0,
            children@.len() == len0,
            kf == q,
            0 <= kf <= mn,
            *next_child_id == n0 + an,
            children@ == flush_seq(old_cs, from, to@, n0, len0, kf),
            items_to_move@.len() == mn,
            forall|r: int|
                0 <= r < mn ==> #[trigger] items_to_move@[r] == (
                    moves[r]->Move_to,
                    old_cs[moves[r]->Move_from as int],
                ),
            mounts@.len() == an + kf,
            len0 == batch_len(from, to@),
            mounts@ == spec_add_mounts(old_cs, from, to@, n0, len0, an) + spec_flush_mounts(
                old_cs,
                from,
                to@,
                n0,
                len0,
                kf,
            ),
        decreases items_to_move@.len() - q,
    {
        proof {
            lemma_moves_char(from, to@, to@.len() as int);
            lemma_removes_char(from, to@, from.len() as int);
            lemma_adds_char(from, to@, to@.len() as int);
        }
        let (t, slot) = items_to_move[q];
        proof {
            assert(items_to_move@[q as int] == (moves[kf]->Move_to, old_cs[moves[kf]->Move_from
                as int]));
            assert(is_moved(from, to@, t as int));
            assert(move_rank(from, to@, t as int) == kf);
            assert(t < to@.len());
            assert(slot == old_cs[old_index_of(from, to@, t as int)]);
            assert(slot.child is Some);
        }
        let anchor = get_next_closest_mounted_sibling(children, t + 1);
        let c = slot.child.unwrap();
        mounts.push((c.id, anchor));
        children[t] = slot;
        proof {
            let ghost prev = flush_seq(old_cs, from, to@, n0, len0, kf);
            assert forall|p: int| 0 <= p < len0 implies children@[p] == flush_slot(
                old_cs,
                from,
                to@,
                n0,
                kf + 1,
                p,
            ) by {
                if p == t as int {
                } else {
                    if is_moved(from, to@, p) && move_rank(from, to@, p) == kf {
                        assert(moves[move_rank(from, to@, p)] == (DiffOp::Move {
                            from: old_index_of(from, to@, p) as usize,
                            to: p as usize,
                        }));
                        assert(false);
                    }
                    assert(children@[p] == prev[p]);
                }
            }
            assert(anchor == spec_next_mounted(flush_seq(old_cs, from, to@, n0, len0, kf), t
                + 1));
            assert(mounts@ =~= spec_add_mounts(old_cs, from, to@, n0, len0, an)
                + spec_flush_mounts(old_cs, from, to@, n0, len0, kf + 1));
            kf = kf + 1;
            assert(children@ =~= flush_seq(old_cs, from, to@, n0, len0, kf));
        }
        q += 1;
    }

    // Shrink policy: trim to the new snapshot's length; every slot past it
    // has been vacated by a remove or a move by now.
    children.truncate(to.len());

    proof {
        lemma_removes_char(from, to@, from.len() as int);
        lemma_moves_char(from, to@, to@.len() as int);
        lemma_adds_char(from, to@, to@.len() as int);
        assert(children@ =~= flush_seq(old_cs, from, to@, n0, len0, mn).subrange(
            0,
            to@.len() as int,
        ));
        assert forall|j: int| 0 <= j < to@.len() implies (#[trigger] children@[j]).child is Some
            && slot_key(children@[j]) == to@[j] by {
            lemma_final_slot(old_cs, from, to@, n0, j);
        }
        assert forall|j: int|
            0 <= j < to@.len() && is_kept(from, to@, j) implies (#[trigger] children@[j]).child
            == old_cs[old_index_of(from, to@, j)].child by {
            lemma_final_slot(old_cs, from, to@, n0, j);
        }
        assert forall|j: int|
            0 <= j < to@.len() && is_added(from, to@, j) implies (#[trigger] children@[j]).child
            == Some(Child { id: (n0 + add_rank(from, to@, j)) as u64, key: to@[j] }) by {
            lemma_final_slot(old_cs, from, to@, n0, j);
        }
        assert(slot_keys(children@) =~= to@);
        assert(mounts@ == spec_mounts(old_cs, from, to@, n0));
    }
    mounts
}

/// What the apply batch leaves at new position `j`: the freshly rendered
/// subtree for an added key, and the previously mounted subtree — the same
/// instance, found at its old position — for a kept key.
proof fn lemma_final_slot(old_cs: Seq<Slot>, from: Seq<u64>, to: Seq<u64>, n0: u64, j: int)
    requires
        distinct_keys(from),
        distinct_keys(to),
        all_mounted(old_cs),
        from == slot_keys(old_cs),
        old_cs.len() == from.len(),
        from.len() <= usize::MAX,
        to.len() <= usize::MAX,
        0 <= j < to.len(),
    ensures
        is_added(from, to, j) ==> flush_slot(old_cs, from, to, n0, spec_moves(from, to).len() as int, j)
            == (Slot { child: Some(Child { id: (n0 + add_rank(from, to, j)) as u64, key: to[j] }) }),
        is_kept(from, to, j) ==> {
            &&& 0 <= old_index_of(from, to, j) < old_cs.len()
            &&& flush_slot(old_cs, from, to, n0, spec_moves(from, to).len() as int, j) == old_cs[old_index_of(
                from,
                to,
                j,
            )]
            &&& from[old_index_of(from, to, j)] == to[j]
        },
        flush_slot(old_cs, from, to, n0, spec_moves(from, to).len() as int, j).child is Some,
        slot_key(flush_slot(old_cs, from, to, n0, spec_moves(from, to).len() as int, j)) == to[j],
{
    lemma_removes_char(from, to, from.len() as int);
    lemma_moves_char(from, to, to.len() as int);
    lemma_adds_char(from, to, to.len() as int);
    let mn = spec_moves(from, to).len() as int;
    if is_added(from, to, j) {
        assert(!is_moved(from, to, j));
        assert(add_rank(from, to, j) < spec_adds(from, to).len());
    } else {
        assert(is_kept(from, to, j));
        lemma_index_of_witness(from, to[j]);
        let oi = old_index_of(from, to, j);
        assert(from[oi] == to[j]);
        if oi == j {
            // Kept without a move: the slot was never touched.
            assert(!is_moved(from, to, j));
            assert(!is_added(from, to, j));
            lemma_distinct_index(to, j, to[j]);
            assert(new_index_of(from, to, j) == j);
            assert(!is_moved_old(from, to, j));
            assert(!is_removed_old(from, to, j));
            assert(flush_slot(old_cs, from, to, n0, mn, j) == old_cs[j]);
        } else {
            assert(is_moved(from, to, j));
            assert(move_rank(from, to, j) < mn);
            assert(flush_slot(old_cs, from, to, n0, mn, j) == old_cs[oi]);
        }
        assert(slot_key(old_cs[oi]) == from[oi]);
    }
}

} // verus!
