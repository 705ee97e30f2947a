use clip_cli::validation::{validate_input, InputError};

#[test]
fn mp4_files_are_accepted_in_any_case() {
    assert_eq!(validate_input(true, Some("mp4")), Ok(()));
    assert_eq!(validate_input(true, Some("MP4")), Ok(()));
    assert_eq!(validate_input(true, Some("Mp4")), Ok(()));
}

#[test]
fn other_files_are_refused() {
    assert_eq!(validate_input(true, Some("mov")), Err(InputError::NotMp4));
    assert_eq!(validate_input(true, Some("mp4 ")), Err(InputError::NotMp4));
    assert_eq!(validate_input(true, Some("")), Err(InputError::NotMp4));
    assert_eq!(validate_input(true, None), Err(InputError::NotMp4));
}

#[test]
fn missing_files_are_refused_first() {
    assert_eq!(validate_input(false, Some("mp4")), Err(InputError::Missing));
    assert_eq!(validate_input(false, None), Err(InputError::Missing));
}
