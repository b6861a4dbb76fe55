use mp4_rotator::backup::{backup_file_name, temp_extension};

#[test]
fn backup_name_keeps_the_extension() {
    assert_eq!(backup_file_name("clip", "20240102_030405", "mov"), "clip_20240102_030405.mov");
    assert_eq!(backup_file_name("a.b", "x", "MP4"), "a.b_x.MP4");
}

#[test]
fn backup_name_without_extension_is_mp4() {
    assert_eq!(backup_file_name("clip", "20240102_030405", ""), "clip_20240102_030405.mp4");
    assert_eq!(backup_file_name("", "", ""), "_.mp4");
}

#[test]
fn temp_extension_appends_tmp() {
    assert_eq!(temp_extension(Some("mp4")), "mp4.tmp");
    assert_eq!(temp_extension(None), "tmp");
    assert_eq!(temp_extension(Some("")), ".tmp");
}

