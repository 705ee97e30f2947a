use clip_cli::naming::{part_file_name, summary_mobile_name, summary_part_name};

#[test]
fn parts_are_numbered_with_three_digits() {
    assert_eq!(part_file_name(1), "part_001.mp4");
    assert_eq!(part_file_name(2), "part_002.mp4");
    assert_eq!(part_file_name(3), "part_003.mp4");
    assert_eq!(part_file_name(1234), "part_1234.mp4");
}

#[test]
fn summary_outputs_follow_the_output_name() {
    assert_eq!(summary_part_name(Some("talk"), Some("mp4"), 1), "talk_1.mp4");
    assert_eq!(summary_part_name(None, None, 12), "summary_12.mp4");
    assert_eq!(summary_mobile_name(Some("talk"), Some("mov")), "talk_mobile.mov");
    assert_eq!(summary_mobile_name(None, None), "summary_mobile.mp4");
}

#[test]
fn part_names_never_collide() {
    let names: std::collections::HashSet<String> = (1..=2500).map(part_file_name).collect();
    assert_eq!(names.len(), 2500);
}

#[test]
fn summary_names_never_collide() {
    let mut names: std::collections::HashSet<String> =
        (1..=50).map(|n| summary_part_name(Some("talk"), Some("mp4"), n)).collect();
    assert_eq!(names.len(), 50);
    assert!(names.insert(summary_mobile_name(Some("talk"), Some("mp4"))));
}
