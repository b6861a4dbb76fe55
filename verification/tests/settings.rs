use mp4_rotator::cli::{parse_args, settings, CliArgs};
use mp4_rotator::config::Config;

fn args(a: &[&str]) -> Vec<String> {
    a.iter().map(|s| s.to_string()).collect()
}

fn chars(s: &str) -> Vec<char> {
    s.chars().collect()
}

fn parsed(a: &[&str]) -> CliArgs {
    parse_args(&args(a)).unwrap()
}

#[test]
fn ini_rotate_and_backup() {
    let c = Config::from_ini("rotate=90\nbackup=true\n").unwrap();
    assert_eq!(c, Config { rotation: Some(90), backup: Some(true) });
}

#[test]
fn ini_empty_gives_nothing() {
    assert_eq!(Config::from_ini(""), Some(Config { rotation: None, backup: None }));
    assert_eq!(Config::from_ini("\n\n  \n"), Some(Config { rotation: None, backup: None }));
}

#[test]
fn ini_skips_comments_and_sections() {
    let text = "; comment = 1\n# rotate = 90\n[settings]\n  rotate = 180  \n";
    assert_eq!(Config::from_ini(text), Some(Config { rotation: Some(180), backup: None }));
}

#[test]
fn ini_keys_and_values_ignore_case_and_quotes() {
    let text = "ROTATE = \"270\"\r\nBackUp=\"FALSE\"\r\n";
    assert_eq!(Config::from_ini(text), Some(Config { rotation: Some(270), backup: Some(false) }));
    assert_eq!(Config::from_ini("backup = True"), Some(Config { rotation: None, backup: Some(true) }));
    assert_eq!(Config::from_ini("rotate=\"\"\"0\"\""), Some(Config { rotation: Some(0), backup: None }));
}

#[test]
fn ini_ignores_values_it_does_not_know() {
    let text = "rotate=45\nrotate=-90\nrotate=abc\nbackup=yes\ncolor=blue\nrotate=99999999999";
    assert_eq!(Config::from_ini(text), Some(Config { rotation: None, backup: None }));
    assert_eq!(Config::from_ini("rotate=+90"), Some(Config { rotation: Some(90), backup: None }));
    assert_eq!(Config::from_ini("rotate=090"), Some(Config { rotation: Some(90), backup: None }));
    assert_eq!(Config::from_ini("rotate=+"), Some(Config { rotation: None, backup: None }));
}

#[test]
fn ini_later_lines_win() {
    let text = "rotate=90\nbackup=true\nrotate=180\nbackup=false\n";
    assert_eq!(Config::from_ini(text), Some(Config { rotation: Some(180), backup: Some(false) }));
}

#[test]
fn ini_line_without_equals_refuses_the_file() {
    assert_eq!(Config::from_ini("rotate=90\njust words\nbackup=true"), None);
    assert_eq!(Config::from_ini("rotate"), None);
}

#[test]
fn ini_value_may_hold_equals() {
    assert_eq!(Config::from_ini("backup==true"), Some(Config { rotation: None, backup: None }));
    assert_eq!(Config::from_ini("\u{a0}rotate\u{3000}=\t90\u{2003}"), Some(Config { rotation: Some(90), backup: None }));
}

#[test]
fn args_name_files_and_options() {
    let c = parsed(&["a.mp4", "-b", "--rotate=180", "b.mp4"]);
    assert_eq!(c.files, vec![0, 3]);
    assert_eq!(c.backup, Some(true));
    assert_eq!(c.rotation, Some(180));
}

#[test]
fn args_short_and_long_forms() {
    let c = parsed(&["--backup", "-r=90"]);
    assert_eq!(c.backup, Some(true));
    assert_eq!(c.rotation, Some(90));
    assert!(c.files.is_empty());
}

#[test]
fn args_last_rotation_counts_and_unknown_options_are_ignored() {
    let c = parsed(&["-r=90", "--verbose", "-x", "--rotate=0", "clip.mp4"]);
    assert_eq!(c.rotation, Some(0));
    assert_eq!(c.backup, None);
    assert_eq!(c.files, vec![4]);
}

#[test]
fn args_without_options() {
    let c = parsed(&[]);
    assert_eq!(c.rotation, None);
    assert_eq!(c.backup, None);
    assert!(c.files.is_empty());
    assert_eq!(parsed(&["--backups"]).backup, None);
}

#[test]
fn args_refuse_an_invalid_rotation() {
    assert_eq!(parse_args(&args(&["-r=45", "a.mp4"])).unwrap_err(), chars("45"));
    assert_eq!(parse_args(&args(&["a.mp4", "--rotate=ninety"])).unwrap_err(), chars("ninety"));
    assert_eq!(parse_args(&args(&["--rotate="])).unwrap_err(), chars(""));
    assert_eq!(parse_args(&args(&["-r=90", "-r=-90", "-r=7"])).unwrap_err(), chars("-90"));
    assert_eq!(parse_args(&args(&["--rotate=+180"])).unwrap().rotation, Some(180));
}

#[test]
fn command_line_wins_over_settings_file() {
    let cfg = Some(Config { rotation: Some(180), backup: Some(true) });
    assert_eq!(settings(Some(90), Some(false), cfg), (Some(90), false));
    assert_eq!(settings(None, None, cfg), (Some(180), true));
    assert_eq!(settings(None, None, None), (None, false));
    assert_eq!(settings(None, None, Some(Config { rotation: None, backup: None })), (None, false));
    assert_eq!(settings(Some(0), None, None), (Some(0), false));
}

#[test]
fn ini_appended_lines_that_change_nothing() {
    let base = "rotate=180\nbackup=false";
    let c = Config::from_ini(base);
    assert_eq!(c, Some(Config { rotation: Some(180), backup: Some(false) }));
    for line in ["", "   ", "; rotate=90", "# backup=true", "[section]", "speed = 3", " Other=\"x\" "] {
        let s = format!("{}\n{}", base, line);
        assert_eq!(Config::from_ini(&s), c);
    }
    let refused = "no equals here";
    assert_eq!(Config::from_ini(refused), None);
    assert_eq!(Config::from_ini(&format!("{}\n; note", refused)), None);
}
