use std::collections::HashSet;

use scale_modes::{Scale, ScaleError};

fn mode_set_of(scale: &Scale) -> HashSet<Vec<i8>> {
    scale.modes().iter().cloned().collect()
}

#[test]
fn test_scale_modes_generated_correctly() {
    let major = Scale::new(vec!(0, 2, 4, 5, 7, 9, 11)).unwrap();
    assert_eq!(
        mode_set_of(&major),
        HashSet::from([
            vec!(0, 2, 4, 5, 7, 9, 11),
            vec!(0, 2, 3, 5, 7, 9, 10),
            vec!(0, 1, 3, 5, 7, 8, 10),
            vec!(0, 2, 4, 6, 7, 9, 11),
            vec!(0, 2, 4, 5, 7, 9, 10),
            vec!(0, 2, 3, 5, 7, 8, 10),
            vec!(0, 1, 3, 5, 6, 8, 10),
        ])
    );
}

#[test]
fn test_scale_equals_itself() {
    let major = Scale::new(vec!(0, 2, 4, 5, 7, 9, 11)).unwrap();
    assert!(major.equals(&major));
}

#[test]
fn test_dorian_is_mode_of_major() {
    let major = Scale::new(vec!(0, 2, 4, 5, 7, 9, 11)).unwrap();
    let dorian = Scale::new(vec!(0, 2, 3, 5, 7, 9, 10)).unwrap();
    assert!(major.is_mode_of(&dorian));
    assert!(dorian.is_mode_of(&major));
}

#[test]
fn test_melodic_minor_is_not_major() {
    let major = Scale::new(vec!(0, 2, 4, 5, 7, 9, 11)).unwrap();
    let melodic_minor = Scale::new(vec!(0, 2, 3, 5, 7, 9, 11)).unwrap();
    assert!(!major.equals(&melodic_minor));
    assert!(!major.is_mode_of(&melodic_minor));
}

#[test]
fn test_scale_distance() {
    let major = Scale::new(vec!(0, 2, 4, 5, 7, 9, 11)).unwrap();
    let melodic_minor = Scale::new(vec!(0, 2, 3, 5, 7, 9, 11)).unwrap();
    assert_eq!(major.distance_from(&major), Ok(0));
    assert_eq!(major.distance_from(&melodic_minor), Ok(1));
}

#[test]
fn major_has_exactly_seven_modes_in_rotation_order() {
    let major = Scale::new(vec![0, 2, 4, 5, 7, 9, 11]).unwrap();
    let expected: Vec<Vec<i8>> = vec![
        vec![0, 2, 4, 5, 7, 9, 11],
        vec![0, 2, 3, 5, 7, 9, 10],
        vec![0, 1, 3, 5, 7, 8, 10],
        vec![0, 2, 4, 6, 7, 9, 11],
        vec![0, 2, 4, 5, 7, 9, 10],
        vec![0, 2, 3, 5, 7, 8, 10],
        vec![0, 1, 3, 5, 6, 8, 10],
    ];
    assert_eq!(major.modes(), &expected);
}

#[test]
fn dorian_is_a_mode_of_major_but_not_equal_to_it() {
    let major = Scale::new(vec![0, 2, 4, 5, 7, 9, 11]).unwrap();
    let dorian = Scale::new(vec![0, 2, 3, 5, 7, 9, 10]).unwrap();
    assert!(major.is_mode_of(&dorian));
    assert!(dorian.is_mode_of(&major));
    assert!(!major.equals(&dorian));
    assert!(!dorian.equals(&major));
    assert_eq!(mode_set_of(&major), mode_set_of(&dorian));
}

#[test]
fn melodic_minor_is_neither_major_nor_one_of_its_modes() {
    let major = Scale::new(vec![0, 2, 4, 5, 7, 9, 11]).unwrap();
    let melodic_minor = Scale::new(vec![0, 2, 3, 5, 7, 9, 11]).unwrap();
    assert!(!major.equals(&melodic_minor));
    assert!(!melodic_minor.equals(&major));
    assert!(!major.is_mode_of(&melodic_minor));
    assert!(!melodic_minor.is_mode_of(&major));
    assert_eq!(major.distance_from(&melodic_minor), Ok(1));
}

#[test]
fn hungarian_minor_distances_are_pinned() {
    let major = Scale::new(vec![0, 2, 4, 5, 7, 9, 11]).unwrap();
    let melodic_minor = Scale::new(vec![0, 2, 3, 5, 7, 9, 11]).unwrap();
    let hungarian_minor = Scale::new(vec![0, 2, 3, 6, 7, 8, 11]).unwrap();
    assert_eq!(hungarian_minor.distance_from(&major), Ok(2));
    assert_eq!(hungarian_minor.distance_from(&melodic_minor), Ok(2));
    assert_eq!(major.distance_from(&hungarian_minor), Ok(2));
    assert_eq!(melodic_minor.distance_from(&hungarian_minor), Ok(2));
}

#[test]
fn hungarian_minor_distance_is_the_least_over_its_modes() {
    let major = Scale::new(vec![0, 2, 4, 5, 7, 9, 11]).unwrap();
    let hungarian_minor = Scale::new(vec![0, 2, 3, 6, 7, 8, 11]).unwrap();
    let least = hungarian_minor
        .modes()
        .iter()
        .map(|mode| scale_modes::note_collection_distance(mode, major.notes()).unwrap())
        .min()
        .unwrap();
    assert_eq!(hungarian_minor.distance_from(&major), Ok(least));
}

#[test]
fn distance_differs_with_the_direction() {
    let hungarian_minor = Scale::new(vec![0, 2, 3, 6, 7, 8, 11]).unwrap();
    let dorian = Scale::new(vec![0, 2, 3, 5, 7, 9, 10]).unwrap();
    assert_eq!(hungarian_minor.distance_from(&dorian), Ok(3));
    assert_eq!(dorian.distance_from(&hungarian_minor), Ok(2));
}

#[test]
fn too_few_notes_make_no_scale() {
    assert_eq!(Scale::new(vec![]).err(), Some(ScaleError::InvalidScale));
    assert_eq!(Scale::new(vec![0]).err(), Some(ScaleError::InvalidScale));
    assert_eq!(Scale::new(vec![7]).err(), Some(ScaleError::InvalidScale));
    assert!(Scale::new(vec![0, 7]).is_ok());
}

#[test]
fn distance_between_scales_of_different_lengths_is_refused() {
    let major = Scale::new(vec![0, 2, 4, 5, 7, 9, 11]).unwrap();
    let triad = Scale::new(vec![0, 4, 7]).unwrap();
    assert_eq!(major.distance_from(&triad), Err(ScaleError::LengthMismatch));
    assert_eq!(triad.distance_from(&major), Err(ScaleError::LengthMismatch));
}

#[test]
fn symmetric_scales_have_fewer_modes_than_notes() {
    let whole_tone = Scale::new(vec![0, 2, 4, 6, 8, 10]).unwrap();
    assert_eq!(whole_tone.modes(), &vec![vec![0i8, 2, 4, 6, 8, 10]]);
    let diminished = Scale::new(vec![0, 3, 6, 9]).unwrap();
    assert_eq!(diminished.modes(), &vec![vec![0i8, 3, 6, 9]]);
    let tritone = Scale::new(vec![0, 6]).unwrap();
    assert_eq!(tritone.modes(), &vec![vec![0i8, 6]]);
    let chromatic = Scale::new((0..12).collect()).unwrap();
    assert_eq!(chromatic.modes().len(), 1);
}

#[test]
fn triads_have_three_modes() {
    let major_triad = Scale::new(vec![0, 4, 7]).unwrap();
    assert_eq!(
        major_triad.modes(),
        &vec![vec![0i8, 4, 7], vec![0, 3, 8], vec![0, 5, 9]]
    );
    let minor_triad = Scale::new(vec![0, 3, 7]).unwrap();
    assert_eq!(
        minor_triad.modes(),
        &vec![vec![0i8, 3, 7], vec![0, 4, 9], vec![0, 5, 8]]
    );
    assert!(!major_triad.is_mode_of(&minor_triad));
    assert_eq!(major_triad.distance_from(&minor_triad), Ok(1));
    assert_eq!(minor_triad.distance_from(&major_triad), Ok(1));
}

#[test]
fn unsorted_notes_are_kept_and_the_modes_start_from_their_sorted_form() {
    let given = Scale::new(vec![2, 0, 4, 5, 7, 9, 11]).unwrap();
    let major = Scale::new(vec![0, 2, 4, 5, 7, 9, 11]).unwrap();
    assert_eq!(given.notes(), &vec![2i8, 0, 4, 5, 7, 9, 11]);
    assert_eq!(given.modes(), major.modes());
    assert!(!given.equals(&major));
    assert!(given.equals(&given));
    assert!(given.is_mode_of(&major));
    assert_eq!(given.distance_from(&major), Ok(0));
    assert_eq!(major.distance_from(&given), Ok(4));
    assert_eq!(given.distance_from(&given), Ok(4));
}

#[test]
fn collections_outside_mode_form_still_close_under_rotation() {
    let off_tonic = Scale::new(vec![1, 3]).unwrap();
    assert_eq!(
        off_tonic.modes(),
        &vec![vec![1i8, 3], vec![0, 10], vec![0, 2]]
    );
    let doubled = Scale::new(vec![0, 5, 5]).unwrap();
    assert_eq!(doubled.modes(), &vec![vec![0i8, 5, 5], vec![0, 0, 7]]);
    let wide = Scale::new(vec![127, -128]).unwrap();
    assert_eq!(
        wide.modes(),
        &vec![vec![-128i8, 127], vec![0, 9], vec![0, 3]]
    );
    let unison = Scale::new(vec![0, 0]).unwrap();
    assert_eq!(unison.modes(), &vec![vec![0i8, 0]]);
}

#[test]
fn a_scale_can_be_printed() {
    let triad = Scale::new(vec![0, 4, 7]).unwrap();
    let text = format!("{:?}", triad);
    assert!(text.contains("notes"));
    assert!(text.contains("[0, 4, 7]"));
    assert!(text.contains("[0, 3, 8]"));
    assert!(text.contains("[0, 5, 9]"));
}
