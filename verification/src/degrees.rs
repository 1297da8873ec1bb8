//! How rotation walks through the degrees of a scale.
//!
//! Rotating a scale restarts it on its second degree. So its rotations are
//! the scale restarted on one degree after the other, until two neighbouring
//! notes coincide or the walk is back at the start. From this follows how
//! soon the rotations of any note collection repeat.

use vstd::prelude::*;

use crate::rotation::{
    distinct_rotations, in_mode_form, lemma_rotated_fixed, lemma_rotated_in_mode_form,
    lemma_rotated_restarts, lemma_rotated_times_add, lemma_rotated_times_form, restarted,
    rotated, rotated_times, OCTAVE,
};

verus! {

/// The pitch of the scale degree `degree`, where the degrees past the last
/// note of `s` repeat `s` one octave higher.
pub open spec fn degree_pitch(s: Seq<i8>, degree: int) -> int {
    if degree < s.len() {
        s[degree] as int
    } else {
        s[degree - s.len()] + OCTAVE
    }
}

/// The scale `s` restarted on its degree `degree`: as many notes as `s` has,
/// counted from that degree's pitch.
pub open spec fn mode_on_degree(s: Seq<i8>, degree: int) -> Seq<i8> {
    Seq::new(s.len(), |i: int| (degree_pitch(s, degree + i) - degree_pitch(s, degree)) as i8)
}

/// Each of the first `upto` notes of `s` lies below the note after it.
pub open spec fn rising_upto(s: Seq<i8>, upto: int) -> bool {
    forall|j: int| 0 <= j < upto && j + 1 < s.len() ==> #[trigger] s[j] < s[j + 1]
}

/// Over two octaves, the degrees' pitches stay below two octaves.
proof fn lemma_degree_pitch_bounds(s: Seq<i8>, degree: int)
    requires
        in_mode_form(s),
        0 <= degree < 2 * s.len(),
    ensures
        0 <= degree_pitch(s, degree) < 2 * OCTAVE,
        degree < s.len() ==> degree_pitch(s, degree) == s[degree],
        degree >= s.len() ==> degree_pitch(s, degree) == s[degree - s.len()] + OCTAVE,
{
}

/// The notes of a scale restarted on a degree, as plain differences.
proof fn lemma_mode_on_degree_note(s: Seq<i8>, degree: int, i: int)
    requires
        in_mode_form(s),
        0 <= degree <= s.len(),
        0 <= i < s.len(),
    ensures
        mode_on_degree(s, degree)[i] == degree_pitch(s, degree + i) - degree_pitch(s, degree),
{
    lemma_degree_pitch_bounds(s, degree);
    lemma_degree_pitch_bounds(s, degree + i);
}

/// Restarting a scale on one degree, and the result on its second note, is
/// restarting the scale on the next degree.
proof fn lemma_restart_on_next_degree(s: Seq<i8>, degree: int)
    requires
        in_mode_form(s),
        0 <= degree < s.len(),
        in_mode_form(mode_on_degree(s, degree)),
        degree + 1 < s.len() ==> s[degree] < s[degree + 1],
    ensures
        mode_on_degree(s, degree)[1] > 0,
        restarted(mode_on_degree(s, degree)) == mode_on_degree(s, degree + 1),
{
    let n = s.len() as int;
    let current = mode_on_degree(s, degree);
    let target = mode_on_degree(s, degree + 1);
    lemma_mode_on_degree_note(s, degree, 1);
    lemma_degree_pitch_bounds(s, degree);
    lemma_degree_pitch_bounds(s, degree + 1);
    assert(current[1] > 0) by {
        if degree + 1 == n {
            assert(s[0] == 0);
        }
    }
    assert forall|i: int| 0 <= i < n implies restarted(current)[i] == target[i] by {
        lemma_mode_on_degree_note(s, degree + 1, i);
        if i + 1 < n {
            lemma_mode_on_degree_note(s, degree, i + 1);
        } else {
            lemma_degree_pitch_bounds(s, degree + n);
        }
    }
    assert(restarted(current) =~= target);
}

/// While the notes of a collection in mode form keep rising, its rotations
/// are the collection restarted on its degrees, one after the other.
pub proof fn lemma_rotations_follow_degrees(s: Seq<i8>, times: nat)
    requires
        in_mode_form(s),
        times <= s.len(),
        rising_upto(s, times as int),
    ensures
        rotated_times(s, times) == mode_on_degree(s, times as int),
    decreases times,
{
    if times == 0 {
        assert(mode_on_degree(s, 0) =~= s) by {
            assert forall|i: int| 0 <= i < s.len() implies mode_on_degree(s, 0)[i] == s[i] by {
                lemma_mode_on_degree_note(s, 0, i);
            }
        }
    } else {
        let degree = times - 1;
        lemma_rotations_follow_degrees(s, degree as nat);
        let current = rotated_times(s, degree as nat);
        lemma_rotated_times_form(s, degree as nat);
        assert(in_mode_form(current));
        if degree + 1 < s.len() {
            assert(s[degree] < s[degree + 1]);
        }
        lemma_restart_on_next_degree(s, degree);
        lemma_rotated_restarts(current);
    }
}

/// A collection in mode form whose notes all differ is back at itself after
/// as many rotations as it has notes.
pub proof fn lemma_rising_scale_returns(s: Seq<i8>)
    requires
        in_mode_form(s),
        rising_upto(s, s.len() as int),
    ensures
        rotated_times(s, s.len()) == s,
{
    lemma_rotations_follow_degrees(s, s.len());
    assert(mode_on_degree(s, s.len() as int) =~= s) by {
        assert forall|i: int| 0 <= i < s.len() implies mode_on_degree(s, s.len() as int)[i]
            == s[i] by {
            lemma_mode_on_degree_note(s, s.len() as int, i);
            lemma_degree_pitch_bounds(s, s.len() as int);
            lemma_degree_pitch_bounds(s, s.len() + i);
        }
    }
}

/// From a collection in mode form whose first `start` notes rise, two
/// different numbers of rotations, neither above the number of notes, lead to
/// the same collection.
proof fn lemma_repeat_from(s: Seq<i8>, start: nat) -> (pair: (nat, nat))
    requires
        in_mode_form(s),
        start <= s.len(),
        rising_upto(s, start as int),
    ensures
        pair.0 < pair.1 <= s.len(),
        rotated_times(s, pair.1) == rotated_times(s, pair.0),
    decreases s.len() - start,
{
    let n = s.len();
    let k = start as int;
    if start == n {
        lemma_rising_scale_returns(s);
        (0, n)
    } else if k + 1 < n && s[k] >= s[k + 1] {
        lemma_rotations_follow_degrees(s, start);
        let current = rotated_times(s, start);
        lemma_rotated_times_form(s, start);
        lemma_mode_on_degree_note(s, k, 1);
        lemma_degree_pitch_bounds(s, k);
        lemma_degree_pitch_bounds(s, k + 1);
        assert(s[k] <= s[k + 1]);
        assert(current[1] == 0);
        lemma_rotated_fixed(current);
        (start, start + 1)
    } else {
        assert forall|j: int| 0 <= j < start + 1 && j + 1 < s.len() implies #[trigger] s[j] < s[j
            + 1] by {
            if j < start {
                assert(rising_upto(s, start as int));
            }
        }
        lemma_repeat_from(s, start + 1)
    }
}

/// Any collection of at least two notes is back at an earlier rotation of
/// itself after at most one rotation more than it has notes, and after at
/// most as many as it has notes where it is in mode form.
pub proof fn lemma_rotations_repeat(s: Seq<i8>) -> (pair: (nat, nat))
    requires
        s.len() >= 2,
    ensures
        pair.0 < pair.1 <= s.len() + 1,
        in_mode_form(s) ==> pair.1 <= s.len(),
        rotated_times(s, pair.1) == rotated_times(s, pair.0),
{
    if in_mode_form(s) {
        lemma_repeat_from(s, 0)
    } else {
        lemma_rotated_in_mode_form(s);
        let later = lemma_repeat_from(rotated(s), 0);
        lemma_rotated_times_add(s, 1, later.0);
        lemma_rotated_times_add(s, 1, later.1);
        assert(rotated_times(s, 1) == rotated(s)) by {
            assert(rotated_times(s, 1) == rotated(rotated_times(s, 0)));
        }
        (later.0 + 1, later.1 + 1)
    }
}

/// Once a rotation repeats an earlier one, every further rotation does.
pub proof fn lemma_repeat_closes(s: Seq<i8>, first: nat, again: nat, times: nat) -> (earlier: nat)
    requires
        s.len() >= 2,
        first < again,
        rotated_times(s, again) == rotated_times(s, first),
    ensures
        earlier < again,
        rotated_times(s, times) == rotated_times(s, earlier),
    decreases times,
{
    if times < again {
        times
    } else {
        let before = lemma_repeat_closes(s, first, again, (times - 1) as nat);
        assert(rotated_times(s, times) == rotated(rotated_times(s, before)));
        assert(rotated_times(s, before + 1) == rotated(rotated_times(s, before)));
        if before + 1 < again {
            before + 1
        } else {
            first
        }
    }
}

/// No more rotations differ from each other than the collection has notes,
/// and one; and no more than it has notes where it is in mode form.
pub proof fn lemma_distinct_rotations_bound(s: Seq<i8>, count: nat)
    requires
        s.len() >= 2,
        distinct_rotations(s, count),
    ensures
        count <= s.len() + 1,
        in_mode_form(s) ==> count <= s.len(),
{
    let pair = lemma_rotations_repeat(s);
    if pair.1 < count {
        assert(rotated_times(s, pair.0) != rotated_times(s, pair.1));
    }
}

/// A collection that some number of rotations brings back to itself is
/// brought back by some number of rotations that is `least` or more.
proof fn lemma_returns_later(s: Seq<i8>, period: nat, least: nat) -> (times: nat)
    requires
        s.len() >= 2,
        period >= 1,
        rotated_times(s, period) == s,
    ensures
        times >= least,
        rotated_times(s, times) == s,
    decreases least,
{
    if least == 0 {
        0
    } else {
        let sooner = lemma_returns_later(s, period, (least - 1) as nat);
        if sooner >= least {
            sooner
        } else {
            lemma_rotated_times_add(s, sooner, period);
            sooner + period
        }
    }
}

/// Where rotation brings a collection back to itself at all, the first
/// rotation that repeats an earlier one repeats the collection itself.
pub proof fn lemma_first_repeat_is_start(s: Seq<i8>, period: nat, count: nat, earlier: nat)
    requires
        s.len() >= 2,
        period >= 1,
        rotated_times(s, period) == s,
        distinct_rotations(s, count),
        earlier < count,
        rotated_times(s, count) == rotated_times(s, earlier),
    ensures
        earlier == 0,
        rotated_times(s, count) == s,
{
    if earlier > 0 {
        let back = lemma_returns_later(s, period, earlier);
        let rest = (back - earlier) as nat;
        let step = (count - earlier) as nat;
        // Rotating on from the two equal rotations leads to the same
        // collection: `s` itself on one side, its rotation `step` on the other.
        lemma_rotated_times_add(s, earlier, rest);
        lemma_rotated_times_add(s, count, rest);
        lemma_rotated_times_add(s, back, step);
        assert(back + step == count + rest);
        assert(rotated_times(s, step) == s);
        assert(rotated_times(s, 0) != rotated_times(s, step));
    }
}

/// The least number of rotations that brings a collection back to itself
/// divides every number of rotations that does.
pub proof fn lemma_period_divides(s: Seq<i8>, period: nat, count: nat)
    requires
        s.len() >= 2,
        period >= 1,
        rotated_times(s, period) == s,
        count >= 1,
        distinct_rotations(s, count),
        rotated_times(s, count) == s,
    ensures
        period % count == 0,
    decreases period,
{
    if period < count {
        assert(rotated_times(s, 0) != rotated_times(s, period));
    } else if period == count {
        vstd::arithmetic::div_mod::lemma_mod_self_0(count as int);
    } else {
        let rest = (period - count) as nat;
        lemma_rotated_times_add(s, count, rest);
        lemma_period_divides(s, rest, count);
        vstd::arithmetic::div_mod::lemma_mod_add_multiples_vanish(rest as int, count as int);
    }
}

} // verus!
