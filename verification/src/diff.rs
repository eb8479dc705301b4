//! The keyed diff calculator: compares two snapshots of a keyed sequence and
//! produces the operations that turn the first into the second.
//!
//! A snapshot is the sequence of keys in index order; the pair `(key, index)`
//! of the specification is implicit in the position. Keys must be distinct
//! within one snapshot; with duplicate keys the comparison is meaningless
//! (which duplicate survives would depend on iteration order).

use vstd::prelude::*;

verus! {

/// One reconciliation operation. `Remove.at` and `Move.from` index the old
/// snapshot; `Add.at` and `Move.to` index the new snapshot.
#[derive(Clone, Copy, Debug, PartialEq, Eq, Structural)]
pub enum DiffOp {
    Move { from: usize, to: usize },
    Add { at: usize },
    Remove { at: usize },
}

/// The outcome of comparing two snapshots: the operations in the order they
/// must be applied (all removes, then all moves, then all adds), the net
/// size change, and the number of moves.
pub struct Diff {
    /// The number of items added minus the number of items removed.
    pub added_delta: isize,
    /// The number of `Move` operations in `ops`.
    pub moving: usize,
    /// All operations, grouped as removes, then moves, then adds.
    pub ops: Vec<DiffOp>,
}

/// No key occurs twice in the snapshot.
pub open spec fn distinct_keys(s: Seq<u64>) -> bool {
    forall|i: int, j: int| 0 <= i < j < s.len() ==> s[i] != s[j]
}

/// The remove operations contributed by old indices below `n`, in
/// increasing index order: one per key of `from` that is absent from `to`.
pub open spec fn spec_removes_up_to(from: Seq<u64>, to: Seq<u64>, n: int) -> Seq<DiffOp>
    decreases n,
{
    if n <= 0 {
        Seq::empty()
    } else if !to.contains(from[n - 1]) {
        spec_removes_up_to(from, to, n - 1).push(DiffOp::Remove { at: (n - 1) as usize })
    } else {
        spec_removes_up_to(from, to, n - 1)
    }
}

pub open spec fn spec_removes(from: Seq<u64>, to: Seq<u64>) -> Seq<DiffOp> {
    spec_removes_up_to(from, to, from.len() as int)
}

/// The move operations contributed by new indices below `n`, in increasing
/// target order: one per key present in both snapshots at different indices.
pub open spec fn spec_moves_up_to(from: Seq<u64>, to: Seq<u64>, n: int) -> Seq<DiffOp>
    decreases n,
{
    if n <= 0 {
        Seq::empty()
    } else if from.contains(to[n - 1]) && from.index_of(to[n - 1]) != n - 1 {
        spec_moves_up_to(from, to, n - 1).push(
            DiffOp::Move { from: from.index_of(to[n - 1]) as usize, to: (n - 1) as usize },
        )
    } else {
        spec_moves_up_to(from, to, n - 1)
    }
}

pub open spec fn spec_moves(from: Seq<u64>, to: Seq<u64>) -> Seq<DiffOp> {
    spec_moves_up_to(from, to, to.len() as int)
}

/// The add operations contributed by new indices below `n`, in increasing
/// index order: one per key of `to` that is absent from `from`.
pub open spec fn spec_adds_up_to(from: Seq<u64>, to: Seq<u64>, n: int) -> Seq<DiffOp>
    decreases n,
{
    if n <= 0 {
        Seq::empty()
    } else if !from.contains(to[n - 1]) {
        spec_adds_up_to(from, to, n - 1).push(DiffOp::Add { at: (n - 1) as usize })
    } else {
        spec_adds_up_to(from, to, n - 1)
    }
}

pub open spec fn spec_adds(from: Seq<u64>, to: Seq<u64>) -> Seq<DiffOp> {
    spec_adds_up_to(from, to, to.len() as int)
}

/// How many removed old indices lie below `p`; the position of old index `p`
/// among the remove operations.
pub open spec fn remove_rank(from: Seq<u64>, to: Seq<u64>, p: int) -> int {
    spec_removes_up_to(from, to, p).len() as int
}

/// How many moved new indices lie below `j`; the position of new index `j`
/// among the move operations.
pub open spec fn move_rank(from: Seq<u64>, to: Seq<u64>, j: int) -> int {
    spec_moves_up_to(from, to, j).len() as int
}

/// How many added new indices lie below `j`; the position of new index `j`
/// among the add operations.
pub open spec fn add_rank(from: Seq<u64>, to: Seq<u64>, j: int) -> int {
    spec_adds_up_to(from, to, j).len() as int
}

/// Old index `p` holds a key that the new snapshot no longer contains.
pub open spec fn is_removed_old(from: Seq<u64>, to: Seq<u64>, p: int) -> bool {
    0 <= p < from.len() && !to.contains(from[p])
}

/// New index `j` holds a key that the old snapshot did not contain.
pub open spec fn is_added(from: Seq<u64>, to: Seq<u64>, j: int) -> bool {
    0 <= j < to.len() && !from.contains(to[j])
}

/// New index `j` holds a key that the old snapshot also contained.
pub open spec fn is_kept(from: Seq<u64>, to: Seq<u64>, j: int) -> bool {
    0 <= j < to.len() && from.contains(to[j])
}

/// The old index of the key now at new index `j` (meaningful when kept).
pub open spec fn old_index_of(from: Seq<u64>, to: Seq<u64>, j: int) -> int {
    from.index_of(to[j])
}

/// New index `j` holds a kept key whose old index differs.
pub open spec fn is_moved(from: Seq<u64>, to: Seq<u64>, j: int) -> bool {
    is_kept(from, to, j) && old_index_of(from, to, j) != j
}

/// The new index of the key at old index `p` (meaningful when kept).
pub open spec fn new_index_of(from: Seq<u64>, to: Seq<u64>, p: int) -> int {
    to.index_of(from[p])
}

/// Old index `p` holds a kept key whose new index differs.
pub open spec fn is_moved_old(from: Seq<u64>, to: Seq<u64>, p: int) -> bool {
    0 <= p < from.len() && to.contains(from[p]) && new_index_of(from, to, p) != p
}

/// `d` is exactly the diff of `from` against `to`.
pub open spec fn diff_matches(d: Diff, from: Seq<u64>, to: Seq<u64>) -> bool {
    &&& d.ops@ == spec_removes(from, to) + spec_moves(from, to) + spec_adds(from, to)
    &&& d.moving == spec_moves(from, to).len()
    &&& d.added_delta as int == spec_adds(from, to).len() - spec_removes(from, to).len()
}

/// In a snapshot without duplicates, an occurrence of a key is the
/// occurrence `index_of` picks.
pub proof fn lemma_distinct_index(s: Seq<u64>, i: int, k: u64)
    requires
        distinct_keys(s),
        0 <= i < s.len(),
        s[i] == k,
    ensures
        s.contains(k),
        s.index_of(k) == i,
{
    assert(s.contains(k));
    assert(0 <= s.index_of(k) < s.len() && s[s.index_of(k)] == k) by {
        assert(0 <= i < s.len() && s[i] == k);
    }
}

/// A key a snapshot contains sits at its `index_of`, inside bounds.
pub proof fn lemma_index_of_witness(s: Seq<u64>, k: u64)
    requires
        s.contains(k),
    ensures
        0 <= s.index_of(k) < s.len(),
        s[s.index_of(k)] == k,
{
    let i = choose|i: int| 0 <= i < s.len() && s[i] == k;
    assert(0 <= i < s.len() && s[i] == k);
}

/// What the remove sequence holds: its `q`-th element is `Remove { at }` for
/// the `q`-th removed old index below `n`, and every removed old index below
/// `n` appears at its rank.
pub proof fn lemma_removes_char(from: Seq<u64>, to: Seq<u64>, n: int)
    requires
        0 <= n <= from.len(),
        from.len() <= usize::MAX,
    ensures
        spec_removes_up_to(from, to, n).len() <= n,
        forall|q: int|
            #![trigger spec_removes_up_to(from, to, n)[q]]
            0 <= q < spec_removes_up_to(from, to, n).len() ==> {
                let op = spec_removes_up_to(from, to, n)[q];
                &&& op is Remove
                &&& 0 <= op->Remove_at < n
                &&& is_removed_old(from, to, op->Remove_at as int)
                &&& remove_rank(from, to, op->Remove_at as int) == q
            },
        forall|p: int|
            0 <= p < n && is_removed_old(from, to, p) ==> {
                &&& 0 <= #[trigger] remove_rank(from, to, p) < spec_removes_up_to(
                    from,
                    to,
                    n,
                ).len()
                &&& spec_removes_up_to(from, to, n)[remove_rank(from, to, p)] == DiffOp::Remove {
                    at: p as usize,
                }
            },
    decreases n,
{
    if n > 0 {
        lemma_removes_char(from, to, n - 1);
    }
}

/// What the move sequence holds: its `q`-th element is the move of the
/// `q`-th moved new index below `n`, and every moved new index below `n`
/// appears at its rank with its old index as source.
pub proof fn lemma_moves_char(from: Seq<u64>, to: Seq<u64>, n: int)
    requires
        0 <= n <= to.len(),
        from.len() <= usize::MAX,
        to.len() <= usize::MAX,
    ensures
        spec_moves_up_to(from, to, n).len() <= n,
        forall|q: int|
            #![trigger spec_moves_up_to(from, to, n)[q]]
            0 <= q < spec_moves_up_to(from, to, n).len() ==> {
                let op = spec_moves_up_to(from, to, n)[q];
                &&& op is Move
                &&& 0 <= op->Move_to < n
                &&& is_moved(from, to, op->Move_to as int)
                &&& 0 <= op->Move_from < from.len()
                &&& op->Move_from as int == old_index_of(from, to, op->Move_to as int)
                &&& from[op->Move_from as int] == to[op->Move_to as int]
                &&& move_rank(from, to, op->Move_to as int) == q
            },
        forall|j: int|
            0 <= j < n && is_moved(from, to, j) ==> {
                &&& 0 <= #[trigger] move_rank(from, to, j) < spec_moves_up_to(from, to, n).len()
                &&& spec_moves_up_to(from, to, n)[move_rank(from, to, j)] == DiffOp::Move {
                    from: old_index_of(from, to, j) as usize,
                    to: j as usize,
                }
            },
    decreases n,
{
    if n > 0 {
        lemma_moves_char(from, to, n - 1);
        if from.contains(to[n - 1]) {
            lemma_index_of_witness(from, to[n - 1]);
        }
    }
}

/// What the add sequence holds: its `q`-th element is `Add { at }` for the
/// `q`-th added new index below `n`, and every added new index below `n`
/// appears at its rank.
pub proof fn lemma_adds_char(from: Seq<u64>, to: Seq<u64>, n: int)
    requires
        0 <= n <= to.len(),
        to.len() <= usize::MAX,
    ensures
        spec_adds_up_to(from, to, n).len() <= n,
        forall|q: int|
            #![trigger spec_adds_up_to(from, to, n)[q]]
            0 <= q < spec_adds_up_to(from, to, n).len() ==> {
                let op = spec_adds_up_to(from, to, n)[q];
                &&& op is Add
                &&& 0 <= op->Add_at < n
                &&& is_added(from, to, op->Add_at as int)
                &&& add_rank(from, to, op->Add_at as int) == q
            },
        forall|j: int|
            0 <= j < n && is_added(from, to, j) ==> {
                &&& 0 <= #[trigger] add_rank(from, to, j) < spec_adds_up_to(from, to, n).len()
                &&& spec_adds_up_to(from, to, n)[add_rank(from, to, j)] == DiffOp::Add {
                    at: j as usize,
                }
            },
    decreases n,
{
    if n > 0 {
        lemma_adds_char(from, to, n - 1);
    }
}

/// The keys of the first `n` entries, as a set, gain exactly `s[n - 1]`
/// over the keys of the first `n - 1` entries.
proof fn lemma_take_push_set(s: Seq<u64>, n: int)
    requires
        1 <= n <= s.len(),
    ensures
        s.take(n).to_set() == s.take(n - 1).to_set().insert(s[n - 1]),
{
    broadcast use vstd::set::group_set_axioms;

    assert forall|a: u64| s.take(n).to_set().contains(a) implies s.take(n - 1).to_set().insert(
        s[n - 1],
    ).contains(a) by {
        let i = choose|i: int| 0 <= i < s.take(n).len() && #[trigger] s.take(n)[i] == a;
        if i < n - 1 {
            assert(s.take(n - 1)[i] == a);
            assert(s.take(n - 1).contains(a));
        } else {
            assert(a == s[n - 1]);
        }
    }
    assert forall|a: u64| s.take(n - 1).to_set().insert(s[n - 1]).contains(a) implies s.take(
        n,
    ).to_set().contains(a) by {
        if a == s[n - 1] {
            assert(s.take(n)[n - 1] == a);
            assert(s.take(n).contains(a));
        } else {
            let i = choose|i: int| 0 <= i < s.take(n - 1).len() && #[trigger] s.take(n - 1)[i] == a;
            assert(s.take(n)[i] == a);
            assert(s.take(n).contains(a));
        }
    }
    assert(s.take(n).to_set() =~= s.take(n - 1).to_set().insert(s[n - 1]));
}

/// The remove count over the first `n` old indices equals the number of old
/// keys there that are gone from `to`; the rest of those keys are kept.
proof fn lemma_removes_count(from: Seq<u64>, to: Seq<u64>, n: int)
    requires
        distinct_keys(from),
        0 <= n <= from.len(),
        from.len() <= usize::MAX,
    ensures
        spec_removes_up_to(from, to, n).len() == from.take(n).to_set().difference(
            to.to_set(),
        ).len(),
        spec_removes_up_to(from, to, n).len() == n - from.take(n).to_set().intersect(
            to.to_set(),
        ).len(),
    decreases n,
{
    broadcast use vstd::set::group_set_axioms;
    broadcast use vstd::seq_lib::seq_to_set_is_finite;

    let t = to.to_set();
    if n <= 0 {
        assert(from.take(0).to_set() =~= Set::<u64>::empty());
        assert(Set::<u64>::empty().difference(t) =~= Set::<u64>::empty());
        assert(Set::<u64>::empty().intersect(t) =~= Set::<u64>::empty());
    } else {
        lemma_removes_count(from, to, n - 1);
        let k = from[n - 1];
        let f0 = from.take(n - 1).to_set();
        lemma_take_push_set(from, n);
        assert(!f0.contains(k)) by {
            if f0.contains(k) {
                let i = choose|i: int|
                    0 <= i < from.take(n - 1).len() && #[trigger] from.take(n - 1)[i] == k;
                assert(from[i] == k);
                assert(false);
            }
        }
        if to.contains(k) {
            assert(t.contains(k));
            assert(f0.insert(k).difference(t) =~= f0.difference(t));
            assert(f0.insert(k).intersect(t) =~= f0.intersect(t).insert(k));
            assert(!f0.intersect(t).contains(k));
        } else {
            assert(!t.contains(k));
            assert(f0.insert(k).difference(t) =~= f0.difference(t).insert(k));
            assert(!f0.difference(t).contains(k));
            assert(f0.insert(k).intersect(t) =~= f0.intersect(t));
        }
    }
}

/// The add count over the first `n` new indices equals the number of new
/// keys there that are absent from `from`; the rest of those keys are kept.
proof fn lemma_adds_count(from: Seq<u64>, to: Seq<u64>, n: int)
    requires
        distinct_keys(to),
        0 <= n <= to.len(),
        to.len() <= usize::MAX,
    ensures
        spec_adds_up_to(from, to, n).len() == to.take(n).to_set().difference(
            from.to_set(),
        ).len(),
        spec_adds_up_to(from, to, n).len() == n - to.take(n).to_set().intersect(
            from.to_set(),
        ).len(),
    decreases n,
{
    broadcast use vstd::set::group_set_axioms;
    broadcast use vstd::seq_lib::seq_to_set_is_finite;

    let f = from.to_set();
    if n <= 0 {
        assert(to.take(0).to_set() =~= Set::<u64>::empty());
        assert(Set::<u64>::empty().difference(f) =~= Set::<u64>::empty());
        assert(Set::<u64>::empty().intersect(f) =~= Set::<u64>::empty());
    } else {
        lemma_adds_count(from, to, n - 1);
        let k = to[n - 1];
        let t0 = to.take(n - 1).to_set();
        lemma_take_push_set(to, n);
        assert(!t0.contains(k)) by {
            if t0.contains(k) {
                let i = choose|i: int| 0 <= i < to.take(n - 1).len() && #[trigger] to.take(n - 1)[i] == k;
                assert(to[i] == k);
                assert(false);
            }
        }
        if from.contains(k) {
            assert(f.contains(k));
            assert(t0.insert(k).difference(f) =~= t0.difference(f));
            assert(t0.insert(k).intersect(f) =~= t0.intersect(f).insert(k));
            assert(!t0.intersect(f).contains(k));
        } else {
            assert(!f.contains(k));
            assert(t0.insert(k).difference(f) =~= t0.difference(f).insert(k));
            assert(!t0.difference(f).contains(k));
            assert(t0.insert(k).intersect(f) =~= t0.intersect(f));
        }
    }
}

/// The move count over the first `n` new indices never exceeds the number
/// of kept keys among them.
proof fn lemma_moves_count(from: Seq<u64>, to: Seq<u64>, n: int)
    requires
        distinct_keys(to),
        0 <= n <= to.len(),
        to.len() <= usize::MAX,
        from.len() <= usize::MAX,
    ensures
        spec_moves_up_to(from, to, n).len() <= to.take(n).to_set().intersect(
            from.to_set(),
        ).len(),
    decreases n,
{
    broadcast use vstd::set::group_set_axioms;
    broadcast use vstd::seq_lib::seq_to_set_is_finite;

    let f = from.to_set();
    if n <= 0 {
        assert(to.take(0).to_set() =~= Set::<u64>::empty());
        assert(Set::<u64>::empty().intersect(f) =~= Set::<u64>::empty());
    } else {
        lemma_moves_count(from, to, n - 1);
        let k = to[n - 1];
        let t0 = to.take(n - 1).to_set();
        lemma_take_push_set(to, n);
        assert(!t0.contains(k)) by {
            if t0.contains(k) {
                let i = choose|i: int| 0 <= i < to.take(n - 1).len() && #[trigger] to.take(n - 1)[i] == k;
                assert(to[i] == k);
                assert(false);
            }
        }
        if from.contains(k) {
            assert(f.contains(k));
            assert(t0.insert(k).intersect(f) =~= t0.intersect(f).insert(k));
            assert(!t0.intersect(f).contains(k));
        } else {
            assert(!f.contains(k));
            assert(t0.insert(k).intersect(f) =~= t0.intersect(f));
        }
    }
}

/// The whole snapshot, taken in full, as its key set.
proof fn lemma_take_full(s: Seq<u64>)
    ensures
        s.take(s.len() as int) == s,
{
    assert(s.take(s.len() as int) =~= s);
}

/// The new snapshot's size is the old one's plus the net size delta of the
/// diff: every key is either kept, removed, or added.
pub proof fn lemma_snapshot_delta(from: Seq<u64>, to: Seq<u64>)
    requires
        distinct_keys(from),
        distinct_keys(to),
        from.len() <= usize::MAX,
        to.len() <= usize::MAX,
    ensures
        from.len() + spec_adds(from, to).len() - spec_removes(from, to).len() == to.len(),
{
    lemma_removes_count(from, to, from.len() as int);
    lemma_adds_count(from, to, to.len() as int);
    lemma_take_full(from);
    lemma_take_full(to);
    assert(from.to_set().intersect(to.to_set()) =~= to.to_set().intersect(from.to_set()));
}

/// Minimality of the diff: the remove and add operations together number
/// exactly the symmetric difference of the two key sets (so never more),
/// and the move count never exceeds the size of either snapshot.
pub proof fn lemma_diff_minimality(from: Seq<u64>, to: Seq<u64>)
    requires
        distinct_keys(from),
        distinct_keys(to),
        from.len() <= usize::MAX,
        to.len() <= usize::MAX,
    ensures
        spec_removes(from, to).len() + spec_adds(from, to).len() == from.to_set().difference(
            to.to_set(),
        ).len() + to.to_set().difference(from.to_set()).len(),
        spec_moves(from, to).len() <= from.len(),
        spec_moves(from, to).len() <= to.len(),
{
    broadcast use vstd::set::group_set_axioms;
    broadcast use vstd::seq_lib::seq_to_set_is_finite;

    lemma_removes_count(from, to, from.len() as int);
    lemma_adds_count(from, to, to.len() as int);
    lemma_moves_count(from, to, to.len() as int);
    lemma_take_full(from);
    lemma_take_full(to);
    lemma_moves_char(from, to, to.len() as int);
    assert(to.to_set().intersect(from.to_set()) =~= from.to_set().intersect(to.to_set()));
    vstd::set_lib::lemma_len_intersect(from.to_set(), to.to_set());
    assert(from.no_duplicates());
    from.unique_seq_to_set();
}

/// Idempotence of the no-op diff, one prefix at a time: comparing a
/// snapshot against itself yields no operation.
proof fn lemma_diff_self_up_to(a: Seq<u64>, n: int)
    requires
        distinct_keys(a),
        0 <= n <= a.len(),
    ensures
        spec_removes_up_to(a, a, n).len() == 0,
        spec_moves_up_to(a, a, n).len() == 0,
        spec_adds_up_to(a, a, n).len() == 0,
    decreases n,
{
    if n > 0 {
        lemma_diff_self_up_to(a, n - 1);
        assert(a.contains(a[n - 1]));
        lemma_distinct_index(a, n - 1, a[n - 1]);
    }
}

/// Idempotence of the no-op diff: comparing a snapshot against itself
/// yields zero remove, move, and add operations.
pub proof fn lemma_diff_idempotent(a: Seq<u64>)
    requires
        distinct_keys(a),
    ensures
        spec_removes(a, a).len() == 0,
        spec_moves(a, a).len() == 0,
        spec_adds(a, a).len() == 0,
{
    lemma_diff_self_up_to(a, a.len() as int);
}

/// Finds the position of `k` in `keys` by a forward scan.
fn index_of_key(keys: &Vec<u64>, k: u64) -> (r: Option<usize>)
    ensures
        match r {
            Some(i) => i < keys@.len() && keys@[i as int] == k,
            None => !keys@.contains(k),
        },
{
    let mut i: usize = 0;
    while i < keys.len()
        invariant
            i <= keys@.len(),
            forall|p: int| 0 <= p < i ==> keys@[p] != k,
        decreases keys@.len() - i,
    {
        if keys[i] == k {
            return Some(i);
        }
        i += 1;
    }
    None
}

/// Calculates the operations needed to get from `from` to `to`.
///
/// The result lists one `Remove` per key that disappears (in increasing old
/// index order), then one `Move` per key kept at a different index (in
/// increasing target index order), then one `Add` per key that appears (in
/// increasing new index order).
pub fn diff(from: &Vec<u64>, to: &Vec<u64>) -> (d: Diff)
    requires
        distinct_keys(from@),
        distinct_keys(to@),
        from@.len() <= isize::MAX as int,
        to@.len() <= isize::MAX as int,
    ensures
        diff_matches(d, from@, to@),
{
    let mut cmds: Vec<DiffOp> = Vec::new();

    // Removed keys: in `from` but no longer in `to`.
    let mut i: usize = 0;
    while i < from.len()
        invariant
            i <= from@.len(),
            cmds@ == spec_removes_up_to(from@, to@, i as int),
        decreases from@.len() - i,
    {
        if index_of_key(to, from[i]).is_none() {
            cmds.push(DiffOp::Remove { at: i });
        }
        proof {
            assert(!to@.contains(from@[i as int]) ==> spec_removes_up_to(from@, to@, i + 1)
                == spec_removes_up_to(from@, to@, i as int).push(DiffOp::Remove { at: i }));
            if to@.contains(from@[i as int]) {
                assert(spec_removes_up_to(from@, to@, i + 1) == spec_removes_up_to(
                    from@,
                    to@,
                    i as int,
                ));
            }
        }
        i += 1;
    }
    let removed_amount = cmds.len();
    proof {
        lemma_removes_char(from@, to@, from@.len() as int);
    }

    // Kept keys at a changed index, and added keys: one pass over `to`.
    let mut moves: Vec<DiffOp> = Vec::new();
    let mut adds: Vec<DiffOp> = Vec::new();
    let mut j: usize = 0;
    while j < to.len()
        invariant
            j <= to@.len(),
            distinct_keys(from@),
            moves@ == spec_moves_up_to(from@, to@, j as int),
            adds@ == spec_adds_up_to(from@, to@, j as int),
        decreases to@.len() - j,
    {
        match index_of_key(from, to[j]) {
            Some(f) => {
                proof {
                    lemma_distinct_index(from@, f as int, to@[j as int]);
                }
                if f != j {
                    moves.push(DiffOp::Move { from: f, to: j });
                }
            },
            None => {
                adds.push(DiffOp::Add { at: j });
            },
        }
        j += 1;
    }
    let moved_amount = moves.len();
    let added_amount = adds.len();
    proof {
        lemma_moves_char(from@, to@, to@.len() as int);
        lemma_adds_char(from@, to@, to@.len() as int);
    }

    cmds.append(&mut moves);
    cmds.append(&mut adds);

    let delta = (added_amount as isize) - (removed_amount as isize);
    Diff { added_delta: delta, moving: moved_amount, ops: cmds }
}

} // verus!
