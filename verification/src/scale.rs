//! Scales: a note collection together with all of its modes.

use vstd::prelude::*;

use crate::error::ScaleError;
use crate::modes::{
    contains_mode, generate_modes, lemma_mode_count, lemma_modes_are_sorted,
    lemma_sorted_form_is_mode, mode_set, mode_views,
};
use crate::notes::{
    lemma_note_distance_to_self, lemma_note_distance_zero, note_collection_distance,
    note_distance, same_notes, NoteCollection,
};
use crate::rotation::first_rotations;
use crate::sorting::{ascending, lemma_sorted_form_of_ascending, sorted_form};

verus! {

/// What a scale is to those who use it: its notes as they were given, and
/// the set of its modes.
pub struct ScaleView {
    pub notes: Seq<i8>,
    pub modes: Set<Seq<i8>>,
}

/// Among the first `upto` of `modes`, one is as near to `target` as any.
proof fn lemma_nearest(modes: Seq<Seq<i8>>, target: Seq<i8>, upto: nat) -> (nearest: int)
    requires
        1 <= upto <= modes.len(),
    ensures
        0 <= nearest < upto,
        forall|i: int|
            0 <= i < upto ==> note_distance(modes[nearest], target) <= note_distance(
                #[trigger] modes[i],
                target,
            ),
    decreases upto,
{
    if upto == 1 {
        0
    } else {
        let before = lemma_nearest(modes, target, (upto - 1) as nat);
        if note_distance(modes[upto - 1], target) < note_distance(modes[before], target) {
            upto - 1
        } else {
            before
        }
    }
}

impl ScaleView {
    /// There are at least two notes, and the modes are those of the notes.
    pub open spec fn wf(self) -> bool {
        &&& self.notes.len() >= 2
        &&& self.modes == mode_set(self.notes)
    }

    /// The two scales have the same notes in the same order.
    pub open spec fn equals(self, other: ScaleView) -> bool {
        self.notes == other.notes
    }

    /// The two scales have a mode in common.
    pub open spec fn is_mode_of(self, other: ScaleView) -> bool {
        exists|mode: Seq<i8>| #[trigger] self.modes.contains(mode) && other.modes.contains(mode)
    }

    /// `distance` is the least distance that a mode of this scale has from
    /// the notes of `other`.
    pub open spec fn is_distance_from(self, other: ScaleView, distance: int) -> bool {
        &&& exists|mode: Seq<i8>| #[trigger]
            self.modes.contains(mode) && note_distance(mode, other.notes) == distance
        &&& forall|mode: Seq<i8>| #[trigger]
            self.modes.contains(mode) ==> distance <= note_distance(mode, other.notes)
    }

    /// The least distance that a mode of this scale has from the notes of
    /// `other`.
    pub open spec fn distance_from(self, other: ScaleView) -> int {
        choose|distance: int| self.is_distance_from(other, distance)
    }

    /// There is at most one least distance.
    pub proof fn lemma_distance_unique(self, other: ScaleView, one: int, two: int)
        requires
            self.is_distance_from(other, one),
            self.is_distance_from(other, two),
        ensures
            one == two,
    {
    }

    /// A least distance, where there is one, is the distance.
    pub proof fn lemma_distance_is(self, other: ScaleView, distance: int)
        requires
            self.is_distance_from(other, distance),
        ensures
            self.distance_from(other) == distance,
    {
        self.lemma_distance_unique(other, distance, self.distance_from(other));
    }

    /// Between a well-formed scale and any other there is a least distance.
    pub proof fn lemma_distance_exists(self, other: ScaleView)
        requires
            self.wf(),
        ensures
            self.is_distance_from(other, self.distance_from(other)),
    {
        let count = lemma_mode_count(self.notes);
        let listed = first_rotations(sorted_form(self.notes), count);
        let nearest = lemma_nearest(listed, other.notes, count);
        assert(self.modes.contains(listed[nearest]));
        assert forall|mode: Seq<i8>| #[trigger] self.modes.contains(mode) implies note_distance(
            listed[nearest],
            other.notes,
        ) <= note_distance(mode, other.notes) by {
            let i = choose|i: int| 0 <= i < listed.len() && listed[i] == mode;
            assert(note_distance(listed[nearest], other.notes) <= note_distance(
                listed[i],
                other.notes,
            ));
        }
        assert(self.is_distance_from(other, note_distance(listed[nearest], other.notes)));
    }

    /// Every scale is a mode of itself.
    pub proof fn lemma_is_mode_of_reflexive(self)
        requires
            self.wf(),
        ensures
            self.is_mode_of(self),
    {
        lemma_sorted_form_is_mode(self.notes);
    }

    /// Whether two scales are modes of each other does not depend on which
    /// of the two is asked.
    pub proof fn lemma_is_mode_of_symmetric(self, other: ScaleView)
        ensures
            self.is_mode_of(other) == other.is_mode_of(self),
    {
        if self.is_mode_of(other) {
            let mode = choose|mode: Seq<i8>| #[trigger]
                self.modes.contains(mode) && other.modes.contains(mode);
            assert(other.modes.contains(mode) && self.modes.contains(mode));
        }
        if other.is_mode_of(self) {
            let mode = choose|mode: Seq<i8>| #[trigger]
                other.modes.contains(mode) && self.modes.contains(mode);
            assert(self.modes.contains(mode) && other.modes.contains(mode));
        }
    }

    /// Equal scales are modes of each other.
    pub proof fn lemma_equals_implies_is_mode_of(self, other: ScaleView)
        requires
            self.wf(),
            other.wf(),
            self.equals(other),
        ensures
            self.is_mode_of(other),
    {
        lemma_sorted_form_is_mode(self.notes);
    }

    /// A scale whose notes ascend has distance 0 from itself.
    pub proof fn lemma_distance_from_self(self)
        requires
            self.wf(),
            ascending(self.notes),
        ensures
            self.is_distance_from(self, 0),
            self.distance_from(self) == 0,
    {
        lemma_sorted_form_of_ascending(self.notes);
        lemma_sorted_form_is_mode(self.notes);
        lemma_note_distance_to_self(self.notes);
        assert(self.modes.contains(self.notes));
        assert forall|mode: Seq<i8>| #[trigger] self.modes.contains(mode) implies 0
            <= note_distance(mode, self.notes) by {
            lemma_modes_are_sorted(self.notes, mode);
            lemma_note_distance_zero(mode, self.notes);
        }
        self.lemma_distance_is(self, 0);
    }

    /// A scale that has distance 0 from itself has ascending notes.
    pub proof fn lemma_distance_from_self_needs_ascending(self)
        requires
            self.wf(),
            self.is_distance_from(self, 0),
        ensures
            ascending(self.notes),
    {
        let mode = choose|mode: Seq<i8>| #[trigger]
            self.modes.contains(mode) && note_distance(mode, self.notes) == 0;
        lemma_modes_are_sorted(self.notes, mode);
        lemma_note_distance_zero(mode, self.notes);
    }
}

/// A note collection together with its modes. It is made once and never
/// changed.
#[derive(Debug)]
pub struct Scale {
    notes: NoteCollection,
    modes: Vec<NoteCollection>,
}

impl View for Scale {
    type V = ScaleView;

    closed spec fn view(&self) -> ScaleView {
        ScaleView { notes: self.notes@, modes: mode_views(self.modes@).to_set() }
    }
}

impl Scale {
    /// The modes are held in the order in which rotation reaches them from
    /// the sorted form of the notes, none twice.
    pub closed spec fn held_in_order(&self) -> bool {
        &&& mode_views(self.modes@).no_duplicates()
        &&& mode_views(self.modes@) == first_rotations(
            sorted_form(self.notes@),
            self.modes@.len(),
        )
    }

    /// What holds of every scale.
    #[verifier::type_invariant]
    pub open spec fn inv(&self) -> bool {
        &&& self@.wf()
        &&& self.held_in_order()
    }

    /// Makes the scale of `notes`, with all its modes, or fails with
    /// `InvalidScale` when there are fewer than two notes.
    pub fn new(notes: NoteCollection) -> (result: Result<Scale, ScaleError>)
        ensures
            match result {
                Ok(scale) => {
                    &&& notes@.len() >= 2
                    &&& scale@.notes == notes@
                    &&& scale@.modes == mode_set(notes@)
                },
                Err(error) => notes@.len() < 2 && error == ScaleError::InvalidScale,
            },
    {
        match generate_modes(&notes) {
            Ok(modes) => Ok(Scale { notes, modes }),
            Err(error) => Err(error),
        }
    }

    /// The notes as they were given.
    pub fn notes(&self) -> (notes: &NoteCollection)
        ensures
            notes@ == self@.notes,
    {
        &self.notes
    }

    /// The modes, each once, in the order in which rotation reaches them
    /// from the sorted form of the notes.
    pub fn modes(&self) -> (modes: &Vec<NoteCollection>)
        ensures
            mode_views(modes@).to_set() == self@.modes,
            mode_views(modes@).no_duplicates(),
            mode_views(modes@) == first_rotations(sorted_form(self@.notes), modes@.len()),
    {
        proof {
            use_type_invariant(self);
        }
        &self.modes
    }

    /// Whether the two scales have the same notes in the same order.
    pub fn equals(&self, other: &Scale) -> (equal: bool)
        ensures
            equal == self@.equals(other@),
    {
        same_notes(&self.notes, &other.notes)
    }

    /// Whether the two scales have a mode in common.
    pub fn is_mode_of(&self, other: &Scale) -> (related: bool)
        ensures
            related == self@.is_mode_of(other@),
    {
        let mut at: usize = 0;
        while at < self.modes.len()
            invariant
                at <= self.modes.len(),
                forall|i: int|
                    0 <= i < at ==> !mode_views(other.modes@).contains(
                        #[trigger] mode_views(self.modes@)[i],
                    ),
            decreases self.modes.len() - at,
        {
            if contains_mode(&other.modes, &self.modes[at]) {
                proof {
                    let mode = mode_views(self.modes@)[at as int];
                    assert(self@.modes.contains(mode) && other@.modes.contains(mode));
                }
                return true;
            }
            at += 1;
        }
        proof {
            if self@.is_mode_of(other@) {
                let mode = choose|mode: Seq<i8>| #[trigger]
                    self@.modes.contains(mode) && other@.modes.contains(mode);
                let i = choose|i: int|
                    0 <= i < mode_views(self.modes@).len() && mode_views(self.modes@)[i] == mode;
                assert(!mode_views(other.modes@).contains(mode_views(self.modes@)[i]));
            }
        }
        false
    }

    /// The least distance that a mode of this scale has from the notes of
    /// `other`, or `LengthMismatch` when the two scales differ in their
    /// number of notes.
    pub fn distance_from(&self, other: &Scale) -> (result: Result<u128, ScaleError>)
        ensures
            match result {
                Ok(distance) => {
                    &&& self@.notes.len() == other@.notes.len()
                    &&& self@.is_distance_from(other@, distance as int)
                    &&& distance == self@.distance_from(other@)
                },
                Err(error) => {
                    &&& self@.notes.len() != other@.notes.len()
                    &&& error == ScaleError::LengthMismatch
                },
            },
    {
        proof {
            use_type_invariant(self);
            lemma_sorted_form_is_mode(self.notes@);
        }
        if self.notes.len() != other.notes.len() {
            return Err(ScaleError::LengthMismatch);
        }
        let ghost held = mode_views(self.modes@);
        assert(held.len() > 0) by {
            assert(held.to_set().contains(sorted_form(self.notes@)));
        }
        proof {
            assert(held.to_set().contains(held[0]));
            lemma_modes_are_sorted(self.notes@, held[0]);
        }
        // Every mode is as long as the notes, so no distance below is refused.
        let mut least: u128 = match note_collection_distance(&self.modes[0], &other.notes) {
            Ok(distance) => distance,
            Err(error) => {
                return Err(error);
            },
        };
        assert(note_distance(held[0], other.notes@) == least);
        let mut at: usize = 1;
        while at < self.modes.len()
            invariant
                1 <= at <= self.modes.len(),
                held == mode_views(self.modes@),
                held.to_set() == mode_set(self.notes@),
                self.notes@.len() >= 2,
                self.notes@.len() == other.notes@.len(),
                exists|i: int| 0 <= i < at && note_distance(#[trigger] held[i], other.notes@) == least,
                forall|i: int| 0 <= i < at ==> least <= note_distance(#[trigger] held[i], other.notes@),
            decreases self.modes.len() - at,
        {
            proof {
                assert(held.to_set().contains(held[at as int]));
                lemma_modes_are_sorted(self.notes@, held[at as int]);
            }
            match note_collection_distance(&self.modes[at], &other.notes) {
                Ok(distance) => {
                    if distance < least {
                        least = distance;
                    }
                },
                Err(error) => {
                    return Err(error);
                },
            }
            at += 1;
        }
        proof {
            let i = choose|i: int|
                0 <= i < at && note_distance(#[trigger] held[i], other.notes@) == least;
            assert(self@.modes.contains(held[i]));
            assert forall|mode: Seq<i8>| #[trigger] self@.modes.contains(mode) implies least
                <= note_distance(mode, other.notes@) by {
                let j = choose|j: int| 0 <= j < held.len() && held[j] == mode;
                assert(least <= note_distance(held[j], other.notes@));
            }
            self@.lemma_distance_is(other@, least as int);
        }
        Ok(least)
    }
}

} // verus!
