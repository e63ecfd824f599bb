//! The two choices a greedy step can make: the piece that finishes a beam
//! with the least overshoot, and the piece that extends it the furthest.

use vstd::prelude::*;

verus! {

/// Whether some piece is long enough to cover `needed`.
pub open spec fn can_finish(pool: Seq<usize>, needed: int) -> bool {
    exists|index: int| 0 <= index < pool.len() && pool[index] >= needed
}

/// Whether some piece is no longer than `needed`.
pub open spec fn can_extend(pool: Seq<usize>, needed: int) -> bool {
    exists|index: int| 0 <= index < pool.len() && pool[index] <= needed
}

/// Whether `index` is the piece that finishes a beam still `needed`
/// short: the shortest piece that covers `needed`, and the first of them in
/// the pool where several are equally short.
pub open spec fn is_finishing_choice(pool: Seq<usize>, needed: int, index: int) -> bool {
    &&& 0 <= index < pool.len()
    &&& pool[index] >= needed
    &&& forall|other: int|
        0 <= other < pool.len() && pool[other] >= needed ==> pool[index] <= pool[other]
    &&& forall|other: int| 0 <= other < index ==> pool[other] != pool[index]
}

/// Whether `index` is the piece that extends a beam still `needed` short:
/// the longest piece that does not exceed `needed`, and the last of them in
/// the pool where several are equally long.
pub open spec fn is_extending_choice(pool: Seq<usize>, needed: int, index: int) -> bool {
    &&& 0 <= index < pool.len()
    &&& pool[index] <= needed
    &&& forall|other: int|
        0 <= other < pool.len() && pool[other] <= needed ==> pool[other] <= pool[index]
    &&& forall|other: int| index < other < pool.len() ==> pool[other] != pool[index]
}

/// The index of the finishing piece, where `can_finish` holds.
pub open spec fn finishing_choice(pool: Seq<usize>, needed: int) -> int {
    choose|index: int| is_finishing_choice(pool, needed, index)
}

/// The index of the extending piece, where `can_extend` holds.
pub open spec fn extending_choice(pool: Seq<usize>, needed: int) -> int {
    choose|index: int| is_extending_choice(pool, needed, index)
}

/// A pool has at most one finishing piece.
pub proof fn lemma_finishing_choice_is(pool: Seq<usize>, needed: int, index: int)
    requires
        is_finishing_choice(pool, needed, index),
    ensures
        can_finish(pool, needed),
        finishing_choice(pool, needed) == index,
{
    let chosen = finishing_choice(pool, needed);
    assert(is_finishing_choice(pool, needed, chosen));
    assert(pool[chosen] == pool[index]);
}

/// A pool has at most one extending piece.
pub proof fn lemma_extending_choice_is(pool: Seq<usize>, needed: int, index: int)
    requires
        is_extending_choice(pool, needed, index),
    ensures
        can_extend(pool, needed),
        extending_choice(pool, needed) == index,
{
    let chosen = extending_choice(pool, needed);
    assert(is_extending_choice(pool, needed, chosen));
    assert(pool[chosen] == pool[index]);
}

/// Where some piece covers `needed`, the pool has a finishing piece.
pub proof fn lemma_finishing_choice_exists(pool: Seq<usize>, needed: int)
    requires
        can_finish(pool, needed),
    ensures
        is_finishing_choice(pool, needed, finishing_choice(pool, needed)),
    decreases pool.len(),
{
    let last = pool.len() - 1;
    let front = pool.drop_last();
    if can_finish(front, needed) {
        lemma_finishing_choice_exists(front, needed);
        let earlier = finishing_choice(front, needed);
        assert(forall|k: int| 0 <= k < front.len() ==> front[k] == pool[k]);
        if pool[last] >= needed && pool[last] < pool[earlier] {
            assert(is_finishing_choice(pool, needed, last));
        } else {
            assert(is_finishing_choice(pool, needed, earlier));
        }
    } else {
        assert forall|k: int| 0 <= k < last implies pool[k] < needed by {
            assert(front[k] == pool[k]);
        }
        assert(is_finishing_choice(pool, needed, last));
    }
}

/// Where some piece does not exceed `needed`, the pool has an extending piece.
pub proof fn lemma_extending_choice_exists(pool: Seq<usize>, needed: int)
    requires
        can_extend(pool, needed),
    ensures
        is_extending_choice(pool, needed, extending_choice(pool, needed)),
    decreases pool.len(),
{
    let last = pool.len() - 1;
    let front = pool.drop_last();
    if can_extend(front, needed) {
        lemma_extending_choice_exists(front, needed);
        let earlier = extending_choice(front, needed);
        assert(forall|k: int| 0 <= k < front.len() ==> front[k] == pool[k]);
        if pool[last] <= needed && pool[last] >= pool[earlier] {
            assert(is_extending_choice(pool, needed, last));
        } else {
            assert(is_extending_choice(pool, needed, earlier));
        }
    } else {
        assert forall|k: int| 0 <= k < last implies pool[k] > needed by {
            assert(front[k] == pool[k]);
        }
        assert(is_extending_choice(pool, needed, last));
    }
}

/// Finds the finishing piece for a beam still `needed` short.
pub fn smallest_at_least(pool: &Vec<usize>, needed: usize) -> (found: Option<usize>)
    ensures
        found is Some == can_finish(pool@, needed as int),
        found matches Some(index) ==> is_finishing_choice(pool@, needed as int, index as int),
{
    let mut best: Option<usize> = None;
    let mut seen: usize = 0;
    while seen < pool.len()
        invariant
            seen <= pool.len(),
            best is Some == can_finish(pool@.take(seen as int), needed as int),
            best matches Some(index) ==> is_finishing_choice(
                pool@.take(seen as int),
                needed as int,
                index as int,
            ),
        decreases pool.len() - seen,
    {
        let ghost head = pool@.take(seen as int);
        let ghost next = pool@.take(seen + 1);
        let piece = pool[seen];
        let better = piece >= needed && match best {
            Some(index) => piece < pool[index],
            None => true,
        };
        proof {
            assert(forall|k: int| 0 <= k < seen ==> head[k] == next[k]);
            assert(next[seen as int] == piece);
            if best is Some {
                let index = best->0 as int;
                assert(next[index] >= needed);
            }
            if !can_finish(head, needed as int) {
                assert forall|k: int| 0 <= k < seen implies next[k] < needed by {
                    assert(head[k] == next[k]);
                }
            }
        }
        if better {
            best = Some(seen);
        }
        seen += 1;
    }
    proof {
        assert(pool@.take(pool@.len() as int) =~= pool@);
    }
    best
}

/// Finds the extending piece for a beam still `needed` short.
pub fn largest_at_most(pool: &Vec<usize>, needed: usize) -> (found: Option<usize>)
    ensures
        found is Some == can_extend(pool@, needed as int),
        found matches Some(index) ==> is_extending_choice(pool@, needed as int, index as int),
{
    let mut best: Option<usize> = None;
    let mut seen: usize = 0;
    while seen < pool.len()
        invariant
            seen <= pool.len(),
            best is Some == can_extend(pool@.take(seen as int), needed as int),
            best matches Some(index) ==> is_extending_choice(
                pool@.take(seen as int),
                needed as int,
                index as int,
            ),
        decreases pool.len() - seen,
    {
        let ghost head = pool@.take(seen as int);
        let ghost next = pool@.take(seen + 1);
        let piece = pool[seen];
        let better = piece <= needed && match best {
            Some(index) => piece >= pool[index],
            None => true,
        };
        proof {
            assert(forall|k: int| 0 <= k < seen ==> head[k] == next[k]);
            assert(next[seen as int] == piece);
            if best is Some {
                let index = best->0 as int;
                assert(next[index] <= needed);
            }
            if !can_extend(head, needed as int) {
                assert forall|k: int| 0 <= k < seen implies next[k] > needed by {
                    assert(head[k] == next[k]);
                }
            }
        }
        if better {
            best = Some(seen);
        }
        seen += 1;
    }
    proof {
        assert(pool@.take(pool@.len() as int) =~= pool@);
    }
    best
}

} // verus!
