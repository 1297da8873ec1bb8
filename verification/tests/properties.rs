use scale_modes::modes::contains_mode;
use scale_modes::{generate_modes, rotate, Scale, ScaleError};

fn samples() -> Vec<Vec<i8>> {
    vec![
        vec![0, 2, 4, 5, 7, 9, 11],
        vec![0, 2, 3, 5, 7, 9, 10],
        vec![0, 2, 3, 5, 7, 9, 11],
        vec![0, 2, 3, 6, 7, 8, 11],
        vec![0, 2, 4, 6, 8, 10],
        vec![0, 3, 6, 9],
        vec![0, 4, 7],
        vec![0, 7],
        vec![2, 0, 4, 5, 7, 9, 11],
        vec![1, 3],
        vec![0, 5, 5],
        vec![0, 0],
        vec![-128, 127],
        vec![0, 1, 2, 3, 4, 5, 6, 7, 8, 9, 10, 11],
    ]
}

fn is_ascending(notes: &[i8]) -> bool {
    notes.windows(2).all(|pair| pair[0] <= pair[1])
}

#[test]
fn every_mode_is_ascending_and_as_long_as_the_notes() {
    for notes in samples() {
        let scale = Scale::new(notes.clone()).unwrap();
        assert!(!scale.modes().is_empty());
        for mode in scale.modes() {
            assert_eq!(mode.len(), notes.len());
            assert!(is_ascending(mode));
        }
    }
}

#[test]
fn the_modes_are_closed_under_rotation() {
    for notes in samples() {
        let scale = Scale::new(notes).unwrap();
        for mode in scale.modes() {
            let next = rotate(mode.clone()).unwrap();
            assert!(contains_mode(scale.modes(), &next));
        }
    }
}

#[test]
fn the_first_mode_is_the_sorted_form_and_each_next_its_rotation() {
    for notes in samples() {
        let scale = Scale::new(notes.clone()).unwrap();
        let mut sorted = notes;
        sorted.sort();
        assert_eq!(scale.modes()[0], sorted);
        for pair in scale.modes().windows(2) {
            assert_eq!(rotate(pair[0].clone()), Ok(pair[1].clone()));
        }
    }
}

#[test]
fn no_mode_is_held_twice() {
    for notes in samples() {
        let scale = Scale::new(notes).unwrap();
        let modes = scale.modes();
        for i in 0..modes.len() {
            for j in 0..i {
                assert_ne!(modes[i], modes[j]);
            }
        }
    }
}

#[test]
fn collections_in_mode_form_have_no_more_modes_than_notes() {
    for notes in samples() {
        let scale = Scale::new(notes.clone()).unwrap();
        let mut sorted = notes.clone();
        sorted.sort();
        let in_mode_form = sorted[0] == 0 && sorted.iter().all(|note| (0..12).contains(note));
        if in_mode_form {
            assert!(scale.modes().len() <= notes.len());
        }
        assert!(scale.modes().len() <= notes.len() + 1);
    }
}

#[test]
fn is_mode_of_is_reflexive() {
    for notes in samples() {
        let scale = Scale::new(notes).unwrap();
        assert!(scale.is_mode_of(&scale));
    }
}

#[test]
fn is_mode_of_is_symmetric() {
    for a in samples() {
        for b in samples() {
            let a = Scale::new(a.clone()).unwrap();
            let b = Scale::new(b).unwrap();
            assert_eq!(a.is_mode_of(&b), b.is_mode_of(&a));
        }
    }
}

#[test]
fn equal_scales_are_modes_of_each_other() {
    for a in samples() {
        for b in samples() {
            let a = Scale::new(a.clone()).unwrap();
            let b = Scale::new(b).unwrap();
            if a.equals(&b) {
                assert!(a.is_mode_of(&b));
            }
        }
    }
    let major = Scale::new(vec![0, 2, 4, 5, 7, 9, 11]).unwrap();
    let again = Scale::new(vec![0, 2, 4, 5, 7, 9, 11]).unwrap();
    assert!(major.equals(&again));
    assert!(major.is_mode_of(&again));
}

#[test]
fn modes_of_each_other_need_not_be_equal() {
    let major = Scale::new(vec![0, 2, 4, 5, 7, 9, 11]).unwrap();
    let lydian = Scale::new(vec![0, 2, 4, 6, 7, 9, 11]).unwrap();
    assert!(major.is_mode_of(&lydian));
    assert!(!major.equals(&lydian));
}

#[test]
fn an_ascending_scale_has_distance_zero_from_itself() {
    for notes in samples() {
        let scale = Scale::new(notes.clone()).unwrap();
        let distance = scale.distance_from(&scale).unwrap();
        assert_eq!(distance == 0, is_ascending(&notes));
    }
}

#[test]
fn generated_modes_are_those_of_the_scale() {
    for notes in samples() {
        let scale = Scale::new(notes.clone()).unwrap();
        assert_eq!(generate_modes(&notes).as_ref(), Ok(scale.modes()));
    }
    assert_eq!(generate_modes(&vec![]), Err(ScaleError::InvalidScale));
    assert_eq!(generate_modes(&vec![3]), Err(ScaleError::InvalidScale));
}

#[test]
fn contains_mode_finds_what_is_there() {
    let modes: Vec<Vec<i8>> = vec![vec![0, 4, 7], vec![0, 3, 8]];
    assert!(contains_mode(&modes, &vec![0, 3, 8]));
    assert!(contains_mode(&modes, &vec![0, 4, 7]));
    assert!(!contains_mode(&modes, &vec![0, 5, 9]));
    assert!(!contains_mode(&modes, &vec![0, 4]));
    assert!(!contains_mode(&vec![], &vec![0, 4, 7]));
}
