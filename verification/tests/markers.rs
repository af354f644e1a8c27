use episode_check::marker::{episode_label, parse_episode};

#[test]
fn marker_with_leading_zeros() {
    assert_eq!(parse_episode("S01E02"), Some((1, 2)));
}

#[test]
fn marker_inside_a_longer_name() {
    assert_eq!(parse_episode("ShowS01E02.mkv"), Some((1, 2)));
}

#[test]
fn only_the_leftmost_marker_counts() {
    assert_eq!(parse_episode("Show.S03E04.and.S05E06.mkv"), Some((3, 4)));
}

#[test]
fn name_without_marker() {
    assert_eq!(parse_episode("notes.txt"), None);
    assert_eq!(parse_episode(""), None);
    assert_eq!(parse_episode("S"), None);
    assert_eq!(parse_episode("S1"), None);
    assert_eq!(parse_episode("S1E"), None);
    assert_eq!(parse_episode("SE1"), None);
    assert_eq!(parse_episode("S1 E1"), None);
}

#[test]
fn marker_is_case_sensitive() {
    assert_eq!(parse_episode("s01e02"), None);
    assert_eq!(parse_episode("S01e02"), None);
}

#[test]
fn digits_have_no_fixed_width() {
    assert_eq!(parse_episode("S2021E7"), Some((2021, 7)));
    assert_eq!(parse_episode("S000000001E000000002"), Some((1, 2)));
}

#[test]
fn largest_season_and_number() {
    assert_eq!(parse_episode("S65535E255"), Some((65535, 255)));
}

#[test]
fn oversized_numeral_is_no_marker() {
    assert_eq!(parse_episode("S65536E1"), None);
    assert_eq!(parse_episode("S1E256"), None);
    assert_eq!(parse_episode("S99999999999999999999E1"), None);
}

#[test]
fn search_goes_on_behind_an_oversized_numeral() {
    assert_eq!(parse_episode("S1E300.S02E03"), Some((2, 3)));
    assert_eq!(parse_episode("S70000E1-S4E5"), Some((4, 5)));
}

#[test]
fn marker_may_start_inside_a_failed_one() {
    assert_eq!(parse_episode("SS01E02"), Some((1, 2)));
    assert_eq!(parse_episode("S1S2E3"), Some((2, 3)));
}

#[test]
fn marker_in_a_name_with_other_scripts() {
    assert_eq!(parse_episode("Füchse・S04E11・终.mkv"), Some((4, 11)));
}

#[test]
fn zero_is_a_number_too() {
    assert_eq!(parse_episode("S00E00"), Some((0, 0)));
}

#[test]
fn label_has_two_digits_at_least() {
    assert_eq!(episode_label(2, 5), "S02E05");
    assert_eq!(episode_label(12, 34), "S12E34");
    assert_eq!(episode_label(2021, 255), "S2021E255");
    assert_eq!(episode_label(0, 0), "S00E00");
    assert_eq!(episode_label(65535, 100), "S65535E100");
}

#[test]
fn label_is_read_back() {
    for season in [0u16, 1, 9, 10, 99, 100, 2024, 65535] {
        for number in [0u8, 1, 9, 10, 99, 100, 255] {
            let text = episode_label(season, number);
            assert_eq!(parse_episode(&text), Some((season, number)));
        }
    }
}
