use halo::import::{title_from_path, title_from_stem};

#[test]
fn title_cleans_separators() {
    assert_eq!(title_from_path("/a/math-lecture_01.m4a"), "math lecture 01");
    assert_eq!(title_from_path("Chemistry Class.wav"), "Chemistry Class");
}

#[test]
fn title_falls_back_when_empty() {
    assert_eq!(title_from_path("/a/___.wav"), "Recording");
    assert_eq!(title_from_path("/"), "Recording");
}

#[test]
fn title_collapses_runs_of_separators_and_spaces() {
    assert_eq!(title_from_stem("  week__3 -- review.final "), "week 3 review final");
    assert_eq!(title_from_stem(""), "Recording");
}

#[test]
fn title_keeps_only_the_last_extension_off() {
    assert_eq!(title_from_path("notes/lecture.part2.mp3"), "lecture part2");
}
