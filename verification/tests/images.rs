use ferrosim::{image_shell_count, image_shifts};

#[test]
fn image_box_of_a_periodic_pair() {
    let s = image_shifts([1, 1, 1], [true; 3], false);
    assert_eq!(s.len(), 27);
    assert_eq!(s[0], [-1, -1, -1]);
    assert_eq!(s[1], [-1, -1, 0]);
    assert_eq!(s[13], [0, 0, 0]);
    assert_eq!(s[26], [1, 1, 1]);
}

#[test]
fn image_box_of_an_atom_with_itself_skips_zero() {
    let s = image_shifts([1, 1, 1], [true; 3], true);
    assert_eq!(s.len(), 26);
    assert!(!s.contains(&[0, 0, 0]));
}

#[test]
fn open_axes_only_use_the_zero_image() {
    let s = image_shifts([2, 5, 5], [true, false, false], false);
    assert_eq!(s, vec![[-2, 0, 0], [-1, 0, 0], [0, 0, 0], [1, 0, 0], [2, 0, 0]]);
    assert!(image_shifts([0, 0, 0], [false; 3], true).is_empty());
    assert_eq!(image_shifts([0, 0, 0], [false; 3], false), vec![[0, 0, 0]]);
}

#[test]
fn image_shell_count_adds_cutoff_spread_and_one() {
    assert_eq!(image_shell_count(0, 0), 1);
    assert_eq!(image_shell_count(4, 2), 7);
}
