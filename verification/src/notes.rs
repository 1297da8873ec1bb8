//! Note collections: ordered sequences of pitch-class offsets.

use vstd::prelude::*;

use crate::error::ScaleError;

verus! {

/// An ordered sequence of pitch classes, one interval pattern of a scale.
pub type NoteCollection = Vec<i8>;

/// How far apart two notes lie: the absolute value of their difference.
pub open spec fn note_gap(a: i8, b: i8) -> int {
    if a >= b {
        a - b
    } else {
        b - a
    }
}

/// The sum of the gaps between `a` and `b` over their first `upto` positions.
pub open spec fn gap_sum(a: Seq<i8>, b: Seq<i8>, upto: nat) -> int
    decreases upto,
{
    if upto == 0 {
        0
    } else {
        gap_sum(a, b, (upto - 1) as nat) + note_gap(a[upto - 1], b[upto - 1])
    }
}

/// The distance between two note collections of one length: the sum of the
/// gaps between the notes at each position.
pub open spec fn note_distance(a: Seq<i8>, b: Seq<i8>) -> int {
    gap_sum(a, b, a.len())
}

/// A gap sum is never negative, and it is 0 only where the notes agree.
pub proof fn lemma_gap_sum_zero(a: Seq<i8>, b: Seq<i8>, upto: nat)
    ensures
        0 <= gap_sum(a, b, upto) <= 255 * upto,
        gap_sum(a, b, upto) == 0 ==> forall|i: int| 0 <= i < upto ==> a[i] == b[i],
    decreases upto,
{
    if upto > 0 {
        lemma_gap_sum_zero(a, b, (upto - 1) as nat);
    }
}

/// The distance between collections of one length is never negative, and it
/// is 0 only between a collection and itself.
pub proof fn lemma_note_distance_zero(a: Seq<i8>, b: Seq<i8>)
    requires
        a.len() == b.len(),
    ensures
        0 <= note_distance(a, b) <= 255 * a.len(),
        note_distance(a, b) == 0 ==> a == b,
{
    lemma_gap_sum_zero(a, b, a.len());
    if note_distance(a, b) == 0 {
        assert(a =~= b);
    }
}

/// The gap sum of a collection with itself is 0.
proof fn lemma_gap_sum_to_self(a: Seq<i8>, upto: nat)
    ensures
        gap_sum(a, a, upto) == 0,
    decreases upto,
{
    if upto > 0 {
        lemma_gap_sum_to_self(a, (upto - 1) as nat);
    }
}

/// A collection has distance 0 from itself.
pub proof fn lemma_note_distance_to_self(a: Seq<i8>)
    ensures
        note_distance(a, a) == 0,
{
    lemma_gap_sum_to_self(a, a.len());
}

/// Whether two note collections hold the same notes in the same order.
pub fn same_notes(a: &NoteCollection, b: &NoteCollection) -> (same: bool)
    ensures
        same == (a@ == b@),
{
    let same = a == b;
    proof {
        if same {
            assert(a@ =~= b@);
        }
    }
    same
}

/// The distance between `a` and `b`, or `LengthMismatch` when their lengths
/// differ.
pub fn note_collection_distance(a: &NoteCollection, b: &NoteCollection) -> (result: Result<
    u128,
    ScaleError,
>)
    ensures
        match result {
            Ok(distance) => a@.len() == b@.len() && distance == note_distance(a@, b@),
            Err(error) => a@.len() != b@.len() && error == ScaleError::LengthMismatch,
        },
{
    if a.len() != b.len() {
        return Err(ScaleError::LengthMismatch);
    }
    let mut sum: u128 = 0;
    let mut at: usize = 0;
    while at < a.len()
        invariant
            at <= a.len(),
            a.len() == b.len(),
            sum == gap_sum(a@, b@, at as nat),
            sum <= 255 * at,
        decreases a.len() - at,
    {
        let x: i16 = a[at] as i16;
        let y: i16 = b[at] as i16;
        let gap: i16 = if x >= y {
            x - y
        } else {
            y - x
        };
        sum = sum + gap as u128;
        at += 1;
    }
    Ok(sum)
}

} // verus!
