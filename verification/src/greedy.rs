//! The greedy run as a mathematical function of the pool, and what holds of
//! every run.
//!
//! A step first looks for the piece that finishes the beam with the least
//! overshoot. Where no piece is long enough, it takes the longest piece
//! there is and goes on, for as many pieces as it is allowed.

use crate::choice::{
    can_extend, can_finish, extending_choice, finishing_choice, lemma_extending_choice_exists,
    lemma_finishing_choice_exists,
};
use crate::pool::{
    is_descending, lemma_longest_first, lemma_material_concat, lemma_material_nonnegative,
    lemma_material_of_same_pieces, lemma_material_push, lemma_no_pieces,
    lemma_remove_keeps_descending, longest_first, material,
};
use vstd::multiset::*;
use vstd::prelude::*;
use vstd::seq_lib::*;

verus! {

/// The result of a successful run of greedy steps: the pieces taken, in
/// order, and the pool that is left.
pub struct Allocation {
    pub used: Seq<usize>,
    pub rest: Seq<usize>,
}

/// The greedy run on `pool` for a beam still `needed` short, with at most
/// `pieces` pieces to go.
pub open spec fn allocate(pool: Seq<usize>, needed: int, pieces: nat) -> Option<Allocation>
    decreases pieces,
{
    if pieces == 0 {
        None
    } else if can_finish(pool, needed) {
        let index = finishing_choice(pool, needed);
        Some(Allocation { used: seq![pool[index]], rest: pool.remove(index) })
    } else if can_extend(pool, needed) {
        let index = extending_choice(pool, needed);
        match allocate(pool.remove(index), needed - pool[index], (pieces - 1) as nat) {
            Some(later) => Some(
                Allocation { used: seq![pool[index]] + later.used, rest: later.rest },
            ),
            None => None,
        }
    } else {
        None
    }
}

/// The greedy run for a whole beam: `max_welds` joints allow one piece more
/// than that.
pub open spec fn attempt(
    pool: Seq<usize>,
    target_length: usize,
    max_welds: usize,
) -> Option<Allocation> {
    allocate(pool, target_length as int, (max_welds + 1) as nat)
}

/// A successful run covers what was needed, with at least one piece and no
/// more pieces than it was allowed or than the pool holds. Each piece but
/// the last is shorter than what was still needed when it was taken, so all
/// but the last together fall short.
pub proof fn lemma_allocation_reaches_target(pool: Seq<usize>, needed: int, pieces: nat)
    requires
        allocate(pool, needed, pieces) is Some,
    ensures
        ({
            let used = allocate(pool, needed, pieces)->0.used;
            &&& 1 <= used.len() <= pieces
            &&& used.len() <= pool.len()
            &&& material(used) >= needed
            &&& used.len() > 1 ==> material(used.drop_last()) < needed
        }),
    decreases pieces,
{
    if can_finish(pool, needed) {
        lemma_finishing_choice_exists(pool, needed);
        let index = finishing_choice(pool, needed);
        lemma_material_push(Seq::empty(), pool[index]);
        assert(seq![pool[index]] =~= Seq::empty().push(pool[index]));
    } else {
        lemma_extending_choice_exists(pool, needed);
        let index = extending_choice(pool, needed);
        let later = allocate(pool.remove(index), needed - pool[index], (pieces - 1) as nat)->0;
        lemma_allocation_reaches_target(
            pool.remove(index),
            needed - pool[index],
            (pieces - 1) as nat,
        );
        let first = seq![pool[index]];
        lemma_material_concat(first, later.used);
        lemma_material_push(Seq::empty(), pool[index]);
        assert(first =~= Seq::empty().push(pool[index]));
        assert((first + later.used).drop_last() =~= first + later.used.drop_last());
        lemma_material_concat(first, later.used.drop_last());
        assert(pool[index] < needed);
        if later.used.len() == 1 {
            assert(later.used.drop_last() =~= Seq::empty());
        }
    }
}

/// A successful run moves pieces and neither makes nor loses any: the pieces
/// used and the pieces left are, together, the pieces of the pool. A pool
/// that stood longest first still does.
pub proof fn lemma_allocation_conserves_pool(pool: Seq<usize>, needed: int, pieces: nat)
    requires
        allocate(pool, needed, pieces) is Some,
    ensures
        ({
            let allocation = allocate(pool, needed, pieces)->0;
            &&& allocation.rest.to_multiset().add(allocation.used.to_multiset())
                == pool.to_multiset()
            &&& material(allocation.rest) + material(allocation.used) == material(pool)
            &&& is_descending(pool) ==> is_descending(allocation.rest)
        }),
    decreases pieces,
{
    broadcast use group_multiset_axioms;

    let allocation = allocate(pool, needed, pieces)->0;
    if can_finish(pool, needed) {
        lemma_finishing_choice_exists(pool, needed);
        let index = finishing_choice(pool, needed);
        lemma_taking_conserves(pool, index, Seq::empty());
        assert(Seq::<usize>::empty().push(pool[index]) =~= seq![pool[index]]);
        lemma_no_pieces();
        assert(allocation.rest.to_multiset().add(allocation.used.to_multiset())
            =~= pool.to_multiset());
        if is_descending(pool) {
            lemma_remove_keeps_descending(pool, index);
        }
    } else {
        lemma_extending_choice_exists(pool, needed);
        let index = extending_choice(pool, needed);
        let later = allocate(pool.remove(index), needed - pool[index], (pieces - 1) as nat)->0;
        if is_descending(pool) {
            lemma_remove_keeps_descending(pool, index);
        }
        lemma_allocation_conserves_pool(
            pool.remove(index),
            needed - pool[index],
            (pieces - 1) as nat,
        );
        let first = seq![pool[index]];
        lemma_multiset_commutative(first, later.used);
        lemma_taking_conserves(pool, index, Seq::empty());
        lemma_no_pieces();
        assert(first =~= Seq::empty().push(pool[index]));
        let taken = first.to_multiset();
        let left = pool.remove(index).to_multiset();
        assert(later.rest.to_multiset().add(later.used.to_multiset()) == left);
        assert(left.add(taken) =~= pool.to_multiset());
        assert(later.rest.to_multiset().add(taken.add(later.used.to_multiset())) =~= left.add(
            taken,
        ));
    }
    lemma_material_concat(allocation.rest, allocation.used);
    lemma_multiset_commutative(allocation.rest, allocation.used);
    lemma_material_of_same_pieces(allocation.rest + allocation.used, pool);
}

/// Moving piece `index` from the pool to the end of the pieces used keeps,
/// between the two, the same pieces.
pub proof fn lemma_taking_conserves(pool: Seq<usize>, index: int, used: Seq<usize>)
    requires
        0 <= index < pool.len(),
    ensures
        pool.remove(index).to_multiset().add(used.push(pool[index]).to_multiset())
            == pool.to_multiset().add(used.to_multiset()),
{
    broadcast use group_multiset_axioms;

    to_multiset_remove(pool, index);
    to_multiset_build(used, pool[index]);
    pool.to_multiset_ensures();
    assert(pool.contains(pool[index]));
    assert(pool.remove(index).to_multiset().add(used.push(pool[index]).to_multiset())
        =~= pool.to_multiset().add(used.to_multiset()));
}

/// Some piece of `right` has the length of piece `index` of `left`, where
/// both hold the same pieces.
proof fn lemma_same_pieces_has(left: Seq<usize>, right: Seq<usize>, index: int) -> (at: int)
    requires
        left.to_multiset() == right.to_multiset(),
        0 <= index < left.len(),
    ensures
        0 <= at < right.len(),
        right[at] == left[index],
{
    assert(left.contains(left[index]));
    to_multiset_contains(left, left[index]);
    to_multiset_contains(right, left[index]);
    choose|k: int| 0 <= k < right.len() && right[k] == left[index]
}

/// The order of the pool does not matter to a run: two pools of the same
/// pieces succeed or fail together, use pieces of the same lengths in the
/// same order, and leave the same pieces.
pub proof fn lemma_allocation_of_same_pieces(
    left: Seq<usize>,
    right: Seq<usize>,
    needed: int,
    pieces: nat,
)
    requires
        left.to_multiset() == right.to_multiset(),
    ensures
        allocate(left, needed, pieces) is Some <==> allocate(right, needed, pieces) is Some,
        allocate(left, needed, pieces) is Some ==> ({
            let of_left = allocate(left, needed, pieces)->0;
            let of_right = allocate(right, needed, pieces)->0;
            &&& of_left.used == of_right.used
            &&& of_left.rest.to_multiset() == of_right.rest.to_multiset()
        }),
    decreases pieces,
{
    if pieces > 0 {
        assert(can_finish(left, needed) <==> can_finish(right, needed)) by {
            if can_finish(left, needed) {
                let i = choose|i: int| 0 <= i < left.len() && left[i] >= needed;
                let j = lemma_same_pieces_has(left, right, i);
            }
            if can_finish(right, needed) {
                let i = choose|i: int| 0 <= i < right.len() && right[i] >= needed;
                let j = lemma_same_pieces_has(right, left, i);
            }
        }
        assert(can_extend(left, needed) <==> can_extend(right, needed)) by {
            if can_extend(left, needed) {
                let i = choose|i: int| 0 <= i < left.len() && left[i] <= needed;
                let j = lemma_same_pieces_has(left, right, i);
            }
            if can_extend(right, needed) {
                let i = choose|i: int| 0 <= i < right.len() && right[i] <= needed;
                let j = lemma_same_pieces_has(right, left, i);
            }
        }
        if can_finish(left, needed) {
            lemma_finishing_choice_exists(left, needed);
            lemma_finishing_choice_exists(right, needed);
            let of_left = finishing_choice(left, needed);
            let of_right = finishing_choice(right, needed);
            let in_right = lemma_same_pieces_has(left, right, of_left);
            let in_left = lemma_same_pieces_has(right, left, of_right);
            assert(left[of_left] == right[of_right]);
            to_multiset_remove(left, of_left);
            to_multiset_remove(right, of_right);
        } else if can_extend(left, needed) {
            lemma_extending_choice_exists(left, needed);
            lemma_extending_choice_exists(right, needed);
            let of_left = extending_choice(left, needed);
            let of_right = extending_choice(right, needed);
            let in_right = lemma_same_pieces_has(left, right, of_left);
            let in_left = lemma_same_pieces_has(right, left, of_right);
            assert(left[of_left] == right[of_right]);
            to_multiset_remove(left, of_left);
            to_multiset_remove(right, of_right);
            lemma_allocation_of_same_pieces(
                left.remove(of_left),
                right.remove(of_right),
                needed - left[of_left],
                (pieces - 1) as nat,
            );
        }
    }
}

/// Whether the `pieces` longest pieces of the pool, or all of its pieces
/// where it has fewer, together cover `needed`. No pieces cover nothing,
/// not even a need of nothing.
pub open spec fn within_reach(pool: Seq<usize>, needed: int, pieces: nat) -> bool {
    let count = if pieces <= pool.len() {
        pieces as int
    } else {
        pool.len() as int
    };
    count > 0 && material(longest_first(pool).take(count)) >= needed
}

/// The last piece of a successful run covers what the pieces before it
/// left open, and no piece that stays in the pool would have covered it
/// with less overshoot.
pub proof fn lemma_last_piece_wastes_least(pool: Seq<usize>, needed: int, pieces: nat)
    requires
        allocate(pool, needed, pieces) is Some,
    ensures
        ({
            let allocation = allocate(pool, needed, pieces)->0;
            let open = needed - material(allocation.used.drop_last());
            &&& allocation.used.len() >= 1
            &&& allocation.used.last() >= open
            &&& forall|k: int|
                0 <= k < allocation.rest.len() && allocation.rest[k] >= open
                    ==> allocation.rest[k] >= allocation.used.last()
        }),
    decreases pieces,
{
    if can_finish(pool, needed) {
        lemma_finishing_choice_exists(pool, needed);
        let index = finishing_choice(pool, needed);
        let rest = pool.remove(index);
        assert(seq![pool[index]].drop_last() =~= Seq::<usize>::empty());
        assert forall|k: int| 0 <= k < rest.len() && rest[k] >= needed implies rest[k]
            >= pool[index] by {
            let from = if k < index {
                k
            } else {
                k + 1
            };
            assert(rest[k] == pool[from]);
        }
    } else {
        lemma_extending_choice_exists(pool, needed);
        let index = extending_choice(pool, needed);
        let later = allocate(pool.remove(index), needed - pool[index], (pieces - 1) as nat)->0;
        lemma_last_piece_wastes_least(
            pool.remove(index),
            needed - pool[index],
            (pieces - 1) as nat,
        );
        let first = seq![pool[index]];
        assert((first + later.used).drop_last() =~= first + later.used.drop_last());
        lemma_material_concat(first, later.used.drop_last());
        lemma_material_push(Seq::empty(), pool[index]);
        assert(first =~= Seq::empty().push(pool[index]));
    }
}

/// The material of the first pieces is the first piece and the material
/// of those that follow it.
proof fn lemma_material_from_first(pool: Seq<usize>, count: int)
    requires
        1 <= count <= pool.len(),
    ensures
        material(pool.take(count)) == pool[0] + material(pool.drop_first().take(count - 1)),
        material(pool.take(count)) >= pool[0],
{
    let first = seq![pool[0]];
    let others = pool.drop_first().take(count - 1);
    assert(pool.take(count) =~= first + others);
    lemma_material_concat(first, others);
    lemma_material_push(Seq::empty(), pool[0]);
    assert(first =~= Seq::empty().push(pool[0]));
    lemma_material_nonnegative(others);
}

/// On a pool that stands longest first, a run succeeds exactly where the
/// pieces it may take, taken from the front, cover what is needed; and the
/// pieces before its last are then the front of the pool.
pub proof fn lemma_allocation_from_descending(pool: Seq<usize>, needed: int, pieces: nat)
    requires
        is_descending(pool),
    ensures
        allocate(pool, needed, pieces) is Some <==> within_reach(pool, needed, pieces),
        allocate(pool, needed, pieces) matches Some(allocation) ==> allocation.used.drop_last()
            == pool.take(allocation.used.len() - 1),
    decreases pieces,
{
    lemma_longest_first(pool);
    assert(longest_first(pool) == pool);
    let count = if pieces <= pool.len() {
        pieces as int
    } else {
        pool.len() as int
    };
    if pieces > 0 && pool.len() > 0 {
        lemma_material_from_first(pool, count);
        if pool[0] >= needed {
            assert(can_finish(pool, needed));
            lemma_finishing_choice_exists(pool, needed);
            let index = finishing_choice(pool, needed);
            assert(seq![pool[index]].drop_last() =~= pool.take(0));
        } else {
            assert(!can_finish(pool, needed));
            assert(can_extend(pool, needed));
            lemma_extending_choice_exists(pool, needed);
            let index = extending_choice(pool, needed);
            assert(pool[index] == pool[0]);
            let others = pool.drop_first();
            assert(pool.remove(index) =~= others) by {
                assert forall|k: int| 0 <= k < others.len() implies pool.remove(index)[k]
                    == others[k] by {
                    if k < index {
                        assert(pool[k] >= pool[k + 1] >= pool[index]);
                    }
                }
            }
            assert(is_descending(others)) by {
                assert forall|i: int, j: int| 0 <= i <= j < others.len() implies others[i]
                    >= others[j] by {
                    assert(others[i] == pool[i + 1]);
                    assert(others[j] == pool[j + 1]);
                }
            }
            lemma_allocation_from_descending(others, needed - pool[0], (pieces - 1) as nat);
            lemma_longest_first(others);
            assert(longest_first(others) == others);
            if count == 1 {
                assert(others.take(0) =~= Seq::<usize>::empty());
            }
            let later = allocate(others, needed - pool[0], (pieces - 1) as nat);
            if later is Some {
                let used = later->0.used;
                lemma_allocation_reaches_target(
                    others,
                    needed - pool[0],
                    (pieces - 1) as nat,
                );
                let first = seq![pool[0]];
                assert((first + used).drop_last() =~= first + used.drop_last());
                assert(first + others.take(used.len() - 1) =~= pool.take(used.len() as int));
            }
        }
    } else if pieces > 0 {
        assert(!can_finish(pool, needed));
        assert(!can_extend(pool, needed));
    }
}

/// A run succeeds exactly where the pieces it may take, the longest of the
/// pool, together cover what is needed. The pieces before its last are
/// then the longest of the pool, longest first.
pub proof fn lemma_allocation_succeeds_within_reach(pool: Seq<usize>, needed: int, pieces: nat)
    ensures
        allocate(pool, needed, pieces) is Some <==> within_reach(pool, needed, pieces),
        allocate(pool, needed, pieces) matches Some(allocation) ==> allocation.used.drop_last()
            == longest_first(pool).take(allocation.used.len() - 1),
{
    let sorted = longest_first(pool);
    lemma_longest_first(pool);
    lemma_longest_first(sorted);
    assert(longest_first(sorted) == sorted);
    to_multiset_len(pool);
    to_multiset_len(sorted);
    lemma_allocation_of_same_pieces(pool, sorted, needed, pieces);
    lemma_allocation_from_descending(sorted, needed, pieces);
}


} // verus!
