//! The offcut pool: a sequence of piece lengths, kept longest first.
//!
//! A piece has no identity beyond its length, so a pool is modelled as a
//! `Seq<usize>` and compared with other pools through its multiset.

use vstd::multiset::*;
use vstd::prelude::*;
use vstd::seq_lib::*;

verus! {

/// The combined length of a run of pieces.
pub open spec fn material(pieces: Seq<usize>) -> int
    decreases pieces.len(),
{
    if pieces.len() == 0 {
        0
    } else {
        material(pieces.drop_last()) + pieces.last()
    }
}

/// Whether the pieces stand longest first.
pub open spec fn is_descending(pieces: Seq<usize>) -> bool {
    forall|i: int, j: int| 0 <= i <= j < pieces.len() ==> pieces[i] >= pieces[j]
}

/// Adding a piece at the end adds its length.
pub proof fn lemma_material_push(pieces: Seq<usize>, piece: usize)
    ensures
        material(pieces.push(piece)) == material(pieces) + piece,
{
    assert(pieces.push(piece).drop_last() =~= pieces);
}

/// The material of two runs laid end to end is the sum of their materials.
pub proof fn lemma_material_concat(front: Seq<usize>, back: Seq<usize>)
    ensures
        material(front + back) == material(front) + material(back),
    decreases back.len(),
{
    if back.len() == 0 {
        assert(front + back =~= front);
    } else {
        assert((front + back).drop_last() =~= front + back.drop_last());
        lemma_material_concat(front, back.drop_last());
    }
}

/// Material is never negative.
pub proof fn lemma_material_nonnegative(pieces: Seq<usize>)
    ensures
        material(pieces) >= 0,
    decreases pieces.len(),
{
    if pieces.len() > 0 {
        lemma_material_nonnegative(pieces.drop_last());
    }
}

/// Taking a piece out takes its length out.
pub proof fn lemma_material_remove(pieces: Seq<usize>, index: int)
    requires
        0 <= index < pieces.len(),
    ensures
        material(pieces.remove(index)) == material(pieces) - pieces[index],
{
    let front = pieces.subrange(0, index);
    let back = pieces.subrange(index + 1, pieces.len() as int);
    assert(pieces =~= front.push(pieces[index]) + back);
    lemma_material_concat(front, back);
    lemma_material_concat(front.push(pieces[index]), back);
    lemma_material_push(front, pieces[index]);
}

/// An empty run holds no pieces.
pub proof fn lemma_no_pieces()
    ensures
        Seq::<usize>::empty().to_multiset() == Multiset::<usize>::empty(),
{
    to_multiset_len(Seq::<usize>::empty());
    lemma_multiset_empty_len(Seq::<usize>::empty().to_multiset());
}

/// Material depends on which pieces there are, not on their order.
pub proof fn lemma_material_of_same_pieces(left: Seq<usize>, right: Seq<usize>)
    requires
        left.to_multiset() == right.to_multiset(),
    ensures
        material(left) == material(right),
    decreases left.len(),
{
    to_multiset_len(left);
    to_multiset_len(right);
    if left.len() > 0 {
        let piece = left.last();
        let last = left.len() - 1;
        assert(left.contains(piece)) by {
            assert(left[last] == piece);
        }
        to_multiset_contains(left, piece);
        to_multiset_contains(right, piece);
        let at = choose|k: int| 0 <= k < right.len() && right[k] == piece;
        assert(left.drop_last() =~= left.remove(last));
        to_multiset_remove(left, last);
        to_multiset_remove(right, at);
        lemma_material_of_same_pieces(left.drop_last(), right.remove(at));
        lemma_material_remove(right, at);
    }
}

/// A multiset of pieces has exactly one longest-first arrangement.
pub proof fn lemma_descending_is_unique(left: Seq<usize>, right: Seq<usize>)
    requires
        is_descending(left),
        is_descending(right),
        left.to_multiset() == right.to_multiset(),
    ensures
        left == right,
{
    let at_least = |a: usize, b: usize| a >= b;
    assert(vstd::relations::total_ordering(at_least));
    assert(vstd::relations::sorted_by(left, at_least));
    assert(vstd::relations::sorted_by(right, at_least));
    lemma_sorted_unique(left, right, at_least);
}

/// The pieces rearranged longest first.
pub open spec fn longest_first(pieces: Seq<usize>) -> Seq<usize> {
    pieces.sort_by(|a: usize, b: usize| a >= b)
}

/// `longest_first` keeps every piece and puts them longest first; nothing else
/// does both.
pub proof fn lemma_longest_first(pieces: Seq<usize>)
    ensures
        is_descending(longest_first(pieces)),
        longest_first(pieces).to_multiset() == pieces.to_multiset(),
        forall|other: Seq<usize>|
            is_descending(other) && other.to_multiset() == pieces.to_multiset()
                ==> other == longest_first(pieces),
{
    let at_least = |a: usize, b: usize| a >= b;
    assert(vstd::relations::total_ordering(at_least));
    pieces.lemma_sort_by_ensures(at_least);
    let sorted = longest_first(pieces);
    assert forall|i: int, j: int| 0 <= i <= j < sorted.len() implies sorted[i] >= sorted[j] by {
        if i < j {
            assert(at_least(sorted[i], sorted[j]));
        }
    }
    assert forall|other: Seq<usize>|
        is_descending(other) && other.to_multiset() == pieces.to_multiset()
        implies other == sorted by {
        lemma_descending_is_unique(other, sorted);
    }
}

/// Taking a piece out of a longest-first pool leaves it longest first.
pub proof fn lemma_remove_keeps_descending(pieces: Seq<usize>, index: int)
    requires
        is_descending(pieces),
        0 <= index < pieces.len(),
    ensures
        is_descending(pieces.remove(index)),
{
    let rest = pieces.remove(index);
    assert forall|i: int, j: int| 0 <= i <= j < rest.len() implies rest[i] >= rest[j] by {
        let from_i = if i < index { i } else { i + 1 };
        let from_j = if j < index { j } else { j + 1 };
        assert(rest[i] == pieces[from_i]);
        assert(rest[j] == pieces[from_j]);
    }
}

/// Rearranges the pieces longest first. Pieces of equal length are
/// interchangeable, so the result is the one longest-first arrangement of
/// the pieces that were given.
///
/// Each piece is moved forward to its place, which takes one pass over a
/// pool that is in order but for a few pieces at its end.
pub fn sort_descending(pieces: &mut Vec<usize>)
    ensures
        final(pieces)@ == longest_first(old(pieces)@),
        is_descending(final(pieces)@),
        final(pieces)@.to_multiset() == old(pieces)@.to_multiset(),
        is_descending(old(pieces)@) ==> final(pieces)@ == old(pieces)@,
{
    let ghost before = pieces@;
    let mut sorted: usize = 0;
    while sorted < pieces.len()
        invariant
            sorted <= pieces.len(),
            pieces@.to_multiset() == before.to_multiset(),
            is_descending(pieces@.take(sorted as int)),
        decreases pieces.len() - sorted,
    {
        let piece = pieces[sorted];
        let mut slot: usize = sorted;
        while slot > 0 && pieces[slot - 1] < piece
            invariant
                slot <= sorted < pieces.len(),
                piece == pieces[sorted as int],
                forall|k: int| slot <= k < sorted ==> pieces[k] < piece,
            decreases slot,
        {
            slot -= 1;
        }
        let ghost unsorted = pieces@;
        let taken = pieces.remove(sorted);
        pieces.insert(slot, taken);
        proof {
            let without = unsorted.remove(sorted as int);
            let placed = without.insert(slot as int, piece);
            assert(pieces@ == placed);
            assert(placed.to_multiset() == before.to_multiset()) by {
                broadcast use group_multiset_axioms;

                to_multiset_remove(unsorted, sorted as int);
                to_multiset_insert(without, slot as int, piece);
                unsorted.to_multiset_ensures();
                assert(unsorted.contains(piece)) by {
                    assert(unsorted[sorted as int] == piece);
                }
                assert(unsorted.to_multiset().remove(piece).insert(piece)
                    =~= unsorted.to_multiset());
            }
            let head = placed.take(sorted + 1);
            let old_head = unsorted.take(sorted as int);
            assert forall|i: int, j: int| 0 <= i <= j < head.len() implies head[i] >= head[j] by {
                if slot > 0 {
                    assert(old_head[slot - 1] >= piece);
                }
                if i < slot {
                    assert(head[i] == old_head[i]);
                    if slot > 0 {
                        assert(old_head[i] >= old_head[slot - 1]);
                    }
                } else if i > slot {
                    assert(head[i] == old_head[i - 1]);
                }
                if j < slot {
                    assert(head[j] == old_head[j]);
                } else if j > slot {
                    assert(head[j] == old_head[j - 1]);
                }
            }
        }
        sorted += 1;
    }
    proof {
        assert(pieces@.take(pieces@.len() as int) =~= pieces@);
        lemma_longest_first(before);
        if is_descending(before) {
            lemma_descending_is_unique(pieces@, before);
        }
    }
}

/// The combined length of the pieces, or `None` where it does not fit in a
/// `usize`.
pub fn total_material(pieces: &Vec<usize>) -> (total: Option<usize>)
    ensures
        match total {
            Some(t) => t == material(pieces@),
            None => material(pieces@) > usize::MAX,
        },
{
    let mut sum: usize = 0;
    let mut done: usize = 0;
    while done < pieces.len()
        invariant
            done <= pieces.len(),
            sum == material(pieces@.take(done as int)),
        decreases pieces.len() - done,
    {
        proof {
            assert(pieces@.take(done + 1).drop_last() =~= pieces@.take(done as int));
        }
        match sum.checked_add(pieces[done]) {
            Some(next) => {
                sum = next;
            },
            None => {
                proof {
                    let counted = pieces@.take(done + 1);
                    let ahead = pieces@.skip(done + 1);
                    assert(pieces@ =~= counted + ahead);
                    lemma_material_concat(counted, ahead);
                    lemma_material_nonnegative(ahead);
                }
                return None;
            },
        }
        done += 1;
    }
    proof {
        assert(pieces@.take(pieces@.len() as int) =~= pieces@);
    }
    Some(sum)
}

} // verus!
