//! Rotation: the step from one mode of a scale to the next.
//!
//! Rotating a note collection lowers every note by the collection's second
//! note, wraps the result into one octave, and sorts it.

use vstd::prelude::*;

use crate::error::ScaleError;
use crate::notes::NoteCollection;
use crate::sorting::{
    ascending, lemma_sorted_form, lemma_sorted_form_of_ascending, lemma_sorted_form_unique,
    sort_notes, sorted_form,
};

verus! {

/// The number of pitch classes in an octave.
pub const OCTAVE: i8 = 12;

/// The pitch class `by` semitones below `note`: their difference, taken
/// modulo the octave into the range from 0 to 11.
pub open spec fn lowered(note: i8, by: i8) -> i8 {
    ((note - by) % (OCTAVE as int)) as i8
}

/// Every note of `s` lowered by the second note of `s`.
pub open spec fn shifted(s: Seq<i8>) -> Seq<i8> {
    Seq::new(s.len(), |i: int| lowered(s[i], s[1]))
}

/// The rotation of `s`: its notes lowered by the second of them, ascending.
pub open spec fn rotated(s: Seq<i8>) -> Seq<i8>
    recommends
        s.len() >= 2,
{
    sorted_form(shifted(s))
}

/// `s` rotated `times` times in a row.
pub open spec fn rotated_times(s: Seq<i8>, times: nat) -> Seq<i8>
    decreases times,
{
    if times == 0 {
        s
    } else {
        rotated(rotated_times(s, (times - 1) as nat))
    }
}

/// The first `count` rotations of `s`, itself first.
pub open spec fn first_rotations(s: Seq<i8>, count: nat) -> Seq<Seq<i8>> {
    Seq::new(count, |i: int| rotated_times(s, i as nat))
}

/// The first `count` rotations of `s`, itself included, differ from each
/// other.
pub open spec fn distinct_rotations(s: Seq<i8>, count: nat) -> bool {
    forall|i: nat, j: nat|
        i < j < count ==> #[trigger] rotated_times(s, i) != #[trigger] rotated_times(s, j)
}

/// Every note lies within one octave above the tonic.
pub open spec fn in_octave(s: Seq<i8>) -> bool {
    forall|i: int| 0 <= i < s.len() ==> 0 <= #[trigger] s[i] < OCTAVE
}

/// The form that every rotation has: at least two notes within one octave,
/// ascending from the tonic.
pub open spec fn in_mode_form(s: Seq<i8>) -> bool {
    &&& s.len() >= 2
    &&& s[0] == 0
    &&& ascending(s)
    &&& in_octave(s)
}

/// What rotation makes of a collection in mode form whose second note lies
/// above the tonic: the notes from the second on, lowered by the second, and
/// after them the tonic an octave higher, lowered likewise.
pub open spec fn restarted(s: Seq<i8>) -> Seq<i8> {
    Seq::new(
        s.len(),
        |i: int|
            if i + 1 < s.len() {
                (s[i + 1] - s[1]) as i8
            } else {
                (OCTAVE - s[1]) as i8
            },
    )
}

/// Collections with the same notes have the same members.
proof fn lemma_same_members(r: Seq<i8>, s: Seq<i8>)
    requires
        r.to_multiset() == s.to_multiset(),
    ensures
        forall|x: i8| r.contains(x) <==> s.contains(x),
{
    assert forall|x: i8| r.contains(x) <==> s.contains(x) by {
        vstd::seq_lib::to_multiset_contains(r, x);
        vstd::seq_lib::to_multiset_contains(s, x);
    }
}

/// A rotation is in mode form, whatever was rotated, and keeps the length.
pub proof fn lemma_rotated_in_mode_form(s: Seq<i8>)
    requires
        s.len() >= 2,
    ensures
        in_mode_form(rotated(s)),
        rotated(s).len() == s.len(),
{
    let low = shifted(s);
    let r = rotated(s);
    lemma_sorted_form(low);
    lemma_same_members(r, low);
    assert forall|i: int| 0 <= i < r.len() implies 0 <= #[trigger] r[i] < OCTAVE by {
        assert(r.contains(r[i]));
        let j = choose|j: int| 0 <= j < low.len() && low[j] == r[i];
        assert(low[j] == lowered(s[j], s[1]));
    }
    assert(low[1] == 0);
    assert(low.contains(0i8));
    let k = choose|k: int| 0 <= k < r.len() && r[k] == 0;
    assert(r[0] <= r[k]);
}

/// A collection in mode form whose second note is the tonic again rotates
/// to itself.
pub proof fn lemma_rotated_fixed(s: Seq<i8>)
    requires
        in_mode_form(s),
        s[1] == 0,
    ensures
        rotated(s) == s,
{
    assert(shifted(s) =~= s);
    lemma_sorted_form_of_ascending(s);
}

/// A collection in mode form whose second note lies above the tonic rotates
/// to the collection restarted on that note.
pub proof fn lemma_rotated_restarts(s: Seq<i8>)
    requires
        in_mode_form(s),
        s[1] > 0,
    ensures
        rotated(s) == restarted(s),
{
    let low = shifted(s);
    let next = restarted(s);
    let n = s.len() as int;
    assert forall|i: int| 1 <= i < n implies low[i] == s[i] - s[1] by {
        assert(s[1] <= s[i]);
    }
    assert(low[0] == OCTAVE - s[1]);
    let head = seq![low[0]];
    let tail = low.subrange(1, n);
    assert(low =~= head + tail);
    assert(next =~= tail + head);
    vstd::seq_lib::lemma_seq_union_to_multiset_commutative(head, tail);
    assert forall|i: int, j: int| 0 <= i <= j < next.len() implies next[i] <= next[j] by {
        if j + 1 < n {
            assert(s[i + 1] <= s[j + 1]);
        } else if i + 1 < n {
            assert(s[i + 1] < OCTAVE);
        }
    }
    lemma_sorted_form_unique(next, low);
}

/// Rotating keeps the length, and from the first rotation on the result is
/// in mode form.
pub proof fn lemma_rotated_times_form(s: Seq<i8>, times: nat)
    requires
        s.len() >= 2,
    ensures
        rotated_times(s, times).len() == s.len(),
        times >= 1 ==> in_mode_form(rotated_times(s, times)),
    decreases times,
{
    if times >= 1 {
        lemma_rotated_times_form(s, (times - 1) as nat);
        lemma_rotated_in_mode_form(rotated_times(s, (times - 1) as nat));
    }
}

/// Rotating `times` times and after that `more` times is rotating
/// `times + more` times.
pub proof fn lemma_rotated_times_add(s: Seq<i8>, times: nat, more: nat)
    requires
        s.len() >= 2,
    ensures
        rotated_times(rotated_times(s, times), more) == rotated_times(s, times + more),
    decreases more,
{
    if more >= 1 {
        lemma_rotated_times_add(s, times, (more - 1) as nat);
        lemma_rotated_times_form(s, times);
    }
}

/// Lowers `note` by `by` semitones and wraps the result into one octave.
pub fn lower(note: i8, by: i8) -> (pitch: i8)
    ensures
        pitch == lowered(note, by),
        0 <= pitch < OCTAVE,
{
    let difference: i16 = note as i16 - by as i16;
    let remainder: i16 = difference % (OCTAVE as i16);
    if remainder < 0 {
        (remainder + OCTAVE as i16) as i8
    } else {
        remainder as i8
    }
}

/// Rotates `notes` to the next mode, or fails with `InvalidScale` when there
/// are fewer than two notes.
pub fn rotate(notes: NoteCollection) -> (result: Result<NoteCollection, ScaleError>)
    ensures
        match result {
            Ok(next) => notes@.len() >= 2 && next@ == rotated(notes@),
            Err(error) => notes@.len() < 2 && error == ScaleError::InvalidScale,
        },
{
    if notes.len() < 2 {
        return Err(ScaleError::InvalidScale);
    }
    let by = notes[1];
    let mut lowered_notes: NoteCollection = Vec::new();
    let mut at: usize = 0;
    while at < notes.len()
        invariant
            at <= notes.len(),
            notes.len() >= 2,
            by == notes@[1],
            lowered_notes@.len() == at,
            forall|i: int| 0 <= i < at ==> lowered_notes@[i] == lowered(notes@[i], by),
        decreases notes.len() - at,
    {
        lowered_notes.push(lower(notes[at], by));
        at += 1;
    }
    assert(lowered_notes@ =~= shifted(notes@));
    Ok(sort_notes(&lowered_notes))
}

} // verus!
