//! Ascending order on note collections.
//!
//! The sorted form of a collection is the one ascending sequence that holds
//! the same notes, each as often as the collection does.

use vstd::prelude::*;
use vstd::relations::sorted_by;
use vstd::seq_lib::{lemma_sorted_unique, to_multiset_insert, to_multiset_len};

use crate::notes::NoteCollection;

verus! {

/// The order by which notes are sorted.
pub open spec fn note_leq() -> spec_fn(i8, i8) -> bool {
    |a: i8, b: i8| a <= b
}

/// No note is followed by a smaller one.
pub open spec fn ascending(s: Seq<i8>) -> bool {
    forall|i: int, j: int| 0 <= i <= j < s.len() ==> s[i] <= s[j]
}

/// The notes of `s` in ascending order.
pub open spec fn sorted_form(s: Seq<i8>) -> Seq<i8> {
    s.sort_by(note_leq())
}

/// The sorted form of `s` is ascending, and holds each note as often as `s`
/// does.
pub proof fn lemma_sorted_form(s: Seq<i8>)
    ensures
        ascending(sorted_form(s)),
        sorted_form(s).to_multiset() == s.to_multiset(),
        sorted_form(s).len() == s.len(),
{
    s.lemma_sort_by_ensures(note_leq());
    to_multiset_len(s);
    to_multiset_len(sorted_form(s));
    let r = sorted_form(s);
    assert forall|i: int, j: int| 0 <= i <= j < r.len() implies r[i] <= r[j] by {
        if i < j {
            assert(note_leq()(r[i], r[j]));
        }
    }
}

/// An ascending sequence with the notes of `s` is the sorted form of `s`.
pub proof fn lemma_sorted_form_unique(r: Seq<i8>, s: Seq<i8>)
    requires
        ascending(r),
        r.to_multiset() == s.to_multiset(),
    ensures
        r == sorted_form(s),
{
    s.lemma_sort_by_ensures(note_leq());
    lemma_sorted_form(s);
    assert(sorted_by(r, note_leq()));
    lemma_sorted_unique(r, sorted_form(s), note_leq());
}

/// An ascending sequence is its own sorted form.
pub proof fn lemma_sorted_form_of_ascending(s: Seq<i8>)
    requires
        ascending(s),
    ensures
        sorted_form(s) == s,
{
    lemma_sorted_form_unique(s, s);
}

/// Returns the notes of `notes` in ascending order.
pub fn sort_notes(notes: &NoteCollection) -> (sorted: NoteCollection)
    ensures
        sorted@ == sorted_form(notes@),
{
    let mut sorted: NoteCollection = Vec::new();
    let mut taken: usize = 0;
    proof {
        assert(notes@.take(0) =~= sorted@);
    }
    while taken < notes.len()
        invariant
            taken <= notes.len(),
            ascending(sorted@),
            sorted@.to_multiset() == notes@.take(taken as int).to_multiset(),
            sorted@.len() == taken,
        decreases notes.len() - taken,
    {
        let note = notes[taken];
        let mut at: usize = 0;
        while at < sorted.len() && sorted[at] <= note
            invariant
                at <= sorted.len(),
                forall|k: int| 0 <= k < at ==> sorted@[k] <= note,
            decreases sorted.len() - at,
        {
            at += 1;
        }
        proof {
            let before = sorted@;
            let after = before.insert(at as int, note);
            to_multiset_insert(before, at as int, note);
            assert(notes@.take(taken + 1) =~= notes@.take(taken as int).push(note));
            vstd::seq_lib::to_multiset_build(notes@.take(taken as int), note);
            assert(ascending(after));
        }
        sorted.insert(at, note);
        taken += 1;
    }
    proof {
        assert(notes@.take(taken as int) =~= notes@);
        lemma_sorted_form_unique(sorted@, notes@);
    }
    sorted
}

} // verus!
