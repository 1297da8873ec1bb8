//! The modes of a note collection: everything that repeated rotation reaches
//! from its sorted form.

use vstd::prelude::*;

use crate::degrees::{
    lemma_distinct_rotations_bound, lemma_first_repeat_is_start, lemma_period_divides,
    lemma_repeat_closes, lemma_rising_scale_returns, lemma_rotations_follow_degrees,
    mode_on_degree, rising_upto,
};
use crate::error::ScaleError;
use crate::notes::{same_notes, NoteCollection};
use crate::rotation::{
    distinct_rotations, first_rotations, in_mode_form, lemma_rotated_times_form, rotate,
    rotated, rotated_times,
};
use crate::sorting::{
    ascending, lemma_sorted_form, lemma_sorted_form_of_ascending, sort_notes, sorted_form,
};

verus! {

/// The modes of `notes`: the sorted form of `notes` and every collection
/// that some number of rotations makes of it.
pub open spec fn mode_set(notes: Seq<i8>) -> Set<Seq<i8>> {
    Set::new(|mode: Seq<i8>| exists|times: nat| mode == rotated_times(sorted_form(notes), times))
}

/// The note sequences that a list of note collections holds, in its order.
pub open spec fn mode_views(modes: Seq<NoteCollection>) -> Seq<Seq<i8>> {
    Seq::new(modes.len(), |i: int| modes[i]@)
}

/// The sorted form of a collection is one of its modes.
pub proof fn lemma_sorted_form_is_mode(notes: Seq<i8>)
    ensures
        mode_set(notes).contains(sorted_form(notes)),
{
    assert(sorted_form(notes) == rotated_times(sorted_form(notes), 0));
}

/// Every mode of a collection of at least two notes has as many notes as the
/// collection, in ascending order.
pub proof fn lemma_modes_are_sorted(notes: Seq<i8>, mode: Seq<i8>)
    requires
        notes.len() >= 2,
        mode_set(notes).contains(mode),
    ensures
        mode.len() == notes.len(),
        ascending(mode),
{
    let root = sorted_form(notes);
    lemma_sorted_form(notes);
    let times = choose|times: nat| mode == rotated_times(root, times);
    lemma_rotated_times_form(root, times);
}

/// The modes of a collection of at least two notes are closed under
/// rotation: the rotation of a mode is a mode.
pub proof fn lemma_modes_closed_under_rotation(notes: Seq<i8>, mode: Seq<i8>)
    requires
        notes.len() >= 2,
        mode_set(notes).contains(mode),
    ensures
        mode_set(notes).contains(rotated(mode)),
{
    let root = sorted_form(notes);
    let times = choose|times: nat| mode == rotated_times(root, times);
    assert(rotated(mode) == rotated_times(root, times + 1));
}

/// Rotations that differ from each other make a list without duplicates.
pub proof fn lemma_distinct_rotations_listed(s: Seq<i8>, count: nat)
    requires
        distinct_rotations(s, count),
    ensures
        first_rotations(s, count).no_duplicates(),
{
    let listed = first_rotations(s, count);
    assert forall|i: int, j: int| 0 <= i < listed.len() && 0 <= j < listed.len() && i
        != j implies listed[i] != listed[j] by {
        if i < j {
            assert(rotated_times(s, i as nat) != rotated_times(s, j as nat));
        } else {
            assert(rotated_times(s, j as nat) != rotated_times(s, i as nat));
        }
    }
}

/// Once the next rotation of the sorted form is among the rotations before
/// it, these are all the modes.
pub proof fn lemma_modes_complete(notes: Seq<i8>, count: nat)
    requires
        notes.len() >= 2,
        first_rotations(sorted_form(notes), count).contains(
            rotated_times(sorted_form(notes), count),
        ),
    ensures
        first_rotations(sorted_form(notes), count).to_set() == mode_set(notes),
{
    let root = sorted_form(notes);
    lemma_sorted_form(notes);
    let listed = first_rotations(root, count);
    let earlier = choose|i: int| 0 <= i < count && listed[i] == rotated_times(root, count);
    assert(listed[earlier] == rotated_times(root, earlier as nat));
    assert forall|mode: Seq<i8>| listed.to_set().contains(mode) <==> mode_set(notes).contains(
        mode,
    ) by {
        if listed.to_set().contains(mode) {
            let i = choose|i: int| 0 <= i < listed.len() && listed[i] == mode;
            assert(mode == rotated_times(root, i as nat));
        }
        if mode_set(notes).contains(mode) {
            let times = choose|times: nat| mode == rotated_times(root, times);
            let back = lemma_repeat_closes(root, earlier as nat, count, times);
            assert(listed[back as int] == mode);
        }
    }
    assert(listed.to_set() =~= mode_set(notes));
}

/// Counts rotations of the sorted form, from `count` on, until the next one
/// is among those before it.
proof fn lemma_count_modes_from(notes: Seq<i8>, count: nat) -> (modes: nat)
    requires
        notes.len() >= 2,
        count >= 1,
        distinct_rotations(sorted_form(notes), count),
    ensures
        modes >= count,
        distinct_rotations(sorted_form(notes), modes),
        first_rotations(sorted_form(notes), modes).contains(
            rotated_times(sorted_form(notes), modes),
        ),
    decreases notes.len() + 1 - count,
{
    let root = sorted_form(notes);
    lemma_sorted_form(notes);
    lemma_distinct_rotations_bound(root, count);
    let listed = first_rotations(root, count);
    if listed.contains(rotated_times(root, count)) {
        count
    } else {
        assert forall|i: nat, j: nat| i < j < count + 1 implies #[trigger] rotated_times(root, i)
            != #[trigger] rotated_times(root, j) by {
            if j == count {
                assert(listed[i as int] == rotated_times(root, i));
            }
        }
        lemma_distinct_rotations_bound(root, count + 1);
        lemma_count_modes_from(notes, count + 1)
    }
}

/// The modes of a collection of at least two notes are the first rotations
/// of its sorted form, up to the last that differs from all before it. There
/// is at least one mode, and there is at most one more than the collection
/// has notes; where the sorted form is in mode form, at most as many as it
/// has notes.
pub proof fn lemma_mode_count(notes: Seq<i8>) -> (count: nat)
    requires
        notes.len() >= 2,
    ensures
        mode_set(notes).finite(),
        mode_set(notes).len() == count,
        1 <= count <= notes.len() + 1,
        in_mode_form(sorted_form(notes)) ==> count <= notes.len(),
        distinct_rotations(sorted_form(notes), count),
        first_rotations(sorted_form(notes), count).to_set() == mode_set(notes),
        first_rotations(sorted_form(notes), count).contains(
            rotated_times(sorted_form(notes), count),
        ),
{
    let root = sorted_form(notes);
    lemma_sorted_form(notes);
    assert(distinct_rotations(root, 1));
    let count = lemma_count_modes_from(notes, 1);
    lemma_distinct_rotations_bound(root, count);
    lemma_modes_complete(notes, count);
    lemma_distinct_rotations_listed(root, count);
    let listed = first_rotations(root, count);
    vstd::seq_lib::seq_to_set_is_finite(listed);
    listed.unique_seq_to_set();
    count
}

/// A collection whose sorted form is in mode form and has no note twice has
/// a number of modes that divides its number of notes, and the rotation of
/// its last mode is its sorted form again.
pub proof fn lemma_rising_scale_mode_count(notes: Seq<i8>)
    requires
        in_mode_form(sorted_form(notes)),
        rising_upto(sorted_form(notes), notes.len() as int),
    ensures
        mode_set(notes).finite(),
        mode_set(notes).len() >= 1,
        notes.len() % mode_set(notes).len() == 0,
        rotated_times(sorted_form(notes), mode_set(notes).len()) == sorted_form(notes),
{
    let root = sorted_form(notes);
    lemma_sorted_form(notes);
    let count = lemma_mode_count(notes);
    lemma_rising_scale_returns(root);
    let listed = first_rotations(root, count);
    let earlier = choose|i: int| 0 <= i < count && listed[i] == rotated_times(root, count);
    assert(listed[earlier] == rotated_times(root, earlier as nat));
    lemma_first_repeat_is_start(root, root.len(), count, earlier as nat);
    lemma_period_divides(root, root.len(), count);
}

/// The modes of a collection in mode form that has no note twice are the
/// collection restarted on each of its degrees.
pub proof fn lemma_rising_scale_modes(s: Seq<i8>)
    requires
        in_mode_form(s),
        rising_upto(s, s.len() as int),
    ensures
        forall|mode: Seq<i8>|
            mode_set(s).contains(mode) <==> exists|degree: int|
                0 <= degree < s.len() && mode == #[trigger] mode_on_degree(s, degree),
{
    lemma_sorted_form_of_ascending(s);
    lemma_rising_scale_returns(s);
    assert(rotated_times(s, 0) == s);
    assert forall|mode: Seq<i8>|
        mode_set(s).contains(mode) <==> exists|degree: int|
            0 <= degree < s.len() && mode == #[trigger] mode_on_degree(s, degree) by {
        if mode_set(s).contains(mode) {
            let times = choose|times: nat| mode == rotated_times(s, times);
            let degree = lemma_repeat_closes(s, 0, s.len(), times);
            lemma_rotations_follow_degrees(s, degree);
            assert(mode == mode_on_degree(s, degree as int));
        }
        if exists|degree: int| 0 <= degree < s.len() && mode == #[trigger] mode_on_degree(s, degree) {
            let degree = choose|degree: int|
                0 <= degree < s.len() && mode == #[trigger] mode_on_degree(s, degree);
            lemma_rotations_follow_degrees(s, degree as nat);
            assert(mode == rotated_times(sorted_form(s), degree as nat));
        }
    }
}

/// Whether `modes` holds a collection with the notes of `mode`.
pub fn contains_mode(modes: &Vec<NoteCollection>, mode: &NoteCollection) -> (found: bool)
    ensures
        found == mode_views(modes@).contains(mode@),
{
    let mut at: usize = 0;
    while at < modes.len()
        invariant
            at <= modes.len(),
            forall|i: int| 0 <= i < at ==> mode_views(modes@)[i] != mode@,
        decreases modes.len() - at,
    {
        if same_notes(&modes[at], mode) {
            assert(mode_views(modes@)[at as int] == mode@);
            return true;
        }
        at += 1;
    }
    false
}

/// Generates the modes of `notes`: its sorted form, then each further
/// rotation until one comes out that is already there. Fails with
/// `InvalidScale` when there are fewer than two notes.
///
/// The result holds each mode once, in the order in which rotation reaches
/// them. Every mode is ascending and as long as `notes`, and the rotation of
/// each is among them. There are no more modes than notes where the sorted
/// form of `notes` is in mode form, and at most one more otherwise.
pub fn generate_modes(notes: &NoteCollection) -> (result: Result<Vec<NoteCollection>, ScaleError>)
    ensures
        match result {
            Ok(modes) => {
                &&& notes@.len() >= 2
                &&& mode_views(modes@) == first_rotations(sorted_form(notes@), modes@.len())
                &&& mode_views(modes@).no_duplicates()
                &&& mode_views(modes@).to_set() == mode_set(notes@)
                &&& 1 <= modes@.len() <= notes@.len() + 1
                &&& in_mode_form(sorted_form(notes@)) ==> modes@.len() <= notes@.len()
                &&& forall|i: int|
                    0 <= i < modes@.len() ==> {
                        &&& (#[trigger] modes@[i])@.len() == notes@.len()
                        &&& ascending(modes@[i]@)
                        &&& mode_views(modes@).contains(rotated(modes@[i]@))
                    }
            },
            Err(error) => notes@.len() < 2 && error == ScaleError::InvalidScale,
        },
{
    if notes.len() < 2 {
        return Err(ScaleError::InvalidScale);
    }
    let root = sort_notes(notes);
    let ghost start = root@;
    proof {
        lemma_sorted_form(notes@);
    }
    let mut modes: Vec<NoteCollection> = Vec::new();
    modes.push(root.clone());
    let mut mode = root;
    proof {
        assert(mode_views(modes@) =~= first_rotations(start, 1));
    }
    loop
        invariant
            notes@.len() >= 2,
            start == sorted_form(notes@),
            start.len() == notes@.len(),
            1 <= modes@.len() <= notes@.len() + 1,
            mode_views(modes@) == first_rotations(start, modes@.len()),
            mode@ == rotated_times(start, (modes@.len() - 1) as nat),
            distinct_rotations(start, modes@.len()),
        ensures
            mode_views(modes@).contains(rotated_times(start, modes@.len())),
        decreases notes@.len() + 1 - modes@.len(),
    {
        let ghost count = modes@.len();
        proof {
            lemma_rotated_times_form(start, (count - 1) as nat);
        }
        // Every mode has at least two notes, so rotation does not refuse it.
        let next = match rotate(mode) {
            Ok(next) => next,
            Err(error) => {
                return Err(error);
            },
        };
        assert(next@ == rotated_times(start, count));
        if contains_mode(&modes, &next) {
            break ;
        }
        proof {
            assert forall|i: nat, j: nat| i < j < count + 1 implies #[trigger] rotated_times(
                start,
                i,
            ) != #[trigger] rotated_times(start, j) by {
                if j == count {
                    assert(mode_views(modes@)[i as int] == rotated_times(start, i));
                }
            }
            lemma_distinct_rotations_bound(start, count + 1);
        }
        let ghost before = modes@;
        modes.push(next.clone());
        mode = next;
        proof {
            assert forall|i: int| 0 <= i < modes@.len() implies mode_views(modes@)[i]
                == first_rotations(start, modes@.len())[i] by {
                if i < count {
                    assert(mode_views(before)[i] == first_rotations(start, count)[i]);
                }
            }
            assert(mode_views(modes@) =~= first_rotations(start, modes@.len()));
        }
    }
    proof {
        let held = mode_views(modes@);
        lemma_distinct_rotations_bound(start, modes@.len());
        lemma_distinct_rotations_listed(start, modes@.len());
        lemma_modes_complete(notes@, modes@.len());
        assert forall|i: int| 0 <= i < modes@.len() implies {
            &&& (#[trigger] modes@[i])@.len() == notes@.len()
            &&& ascending(modes@[i]@)
            &&& held.contains(rotated(modes@[i]@))
        } by {
            assert(held[i] == modes@[i]@);
            assert(held.to_set().contains(held[i]));
            lemma_modes_are_sorted(notes@, held[i]);
            lemma_modes_closed_under_rotation(notes@, held[i]);
            assert(held.to_set().contains(rotated(held[i])));
        }
    }
    Ok(modes)
}

} // verus!
