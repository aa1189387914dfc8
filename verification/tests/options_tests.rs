use sqlite2dir::git::GitErrorKind;
use sqlite2dir::options::{
    failure_exit_code, run_exit_code, select_backend, shows_origin_marker, Backend, Opt,
};

fn base_opt() -> Opt {
    Opt {
        db_filename: String::from("db.sqlite"),
        output_dir: String::from("out"),
        git: false,
        git_name: None,
        git_email: None,
        git_message: None,
        git_diff: false,
        git_diff_exit_code: false,
    }
}

#[test]
fn use_git_follows_any_git_option() {
    assert!(!base_opt().use_git());
    let mut o = base_opt();
    o.git = true;
    assert!(o.use_git());
    let mut o = base_opt();
    o.git_diff = true;
    assert!(o.use_git());
    let mut o = base_opt();
    o.git_diff_exit_code = true;
    assert!(o.use_git());
    let mut o = base_opt();
    o.git_name = Some(String::from("Tester"));
    assert!(o.use_git());
    let mut o = base_opt();
    o.git_email = Some(String::from("t@example.com"));
    assert!(o.use_git());
}

#[test]
fn message_defaults_when_absent() {
    assert_eq!(base_opt().git_message(), "sqlite2dir auto-commit");
    let mut o = base_opt();
    o.git_message = Some(String::from("nightly snapshot"));
    assert_eq!(o.git_message(), "nightly snapshot");
}

#[test]
fn author_accessors_hand_out_given_values() {
    let mut o = base_opt();
    assert!(o.git_name().is_none());
    assert!(o.git_email().is_none());
    o.git_name = Some(String::from("Tester"));
    o.git_email = Some(String::from("t@example.com"));
    assert_eq!(o.git_name(), Some("Tester"));
    assert_eq!(o.git_email(), Some("t@example.com"));
}

#[test]
fn backend_selection_matches_the_fallback_rules() {
    assert!(matches!(select_backend(None, false), Backend::Git));
    assert!(matches!(select_backend(None, true), Backend::Git));
    assert!(matches!(
        select_backend(Some(GitErrorKind::NotFound), false),
        Backend::Filesystem
    ));
    assert!(matches!(
        select_backend(Some(GitErrorKind::Other), false),
        Backend::Filesystem
    ));
    assert!(matches!(
        select_backend(Some(GitErrorKind::NotFound), true),
        Backend::CreateGit
    ));
    assert!(matches!(
        select_backend(Some(GitErrorKind::Other), true),
        Backend::Fail
    ));
}

#[test]
fn origin_markers_cover_exactly_the_three_line_kinds() {
    assert!(shows_origin_marker(' '));
    assert!(shows_origin_marker('+'));
    assert!(shows_origin_marker('-'));
    assert!(!shows_origin_marker('F'));
    assert!(!shows_origin_marker('H'));
    assert!(!shows_origin_marker('B'));
}

#[test]
fn exit_codes_match_the_contract() {
    assert_eq!(run_exit_code(true, true), 1);
    assert_eq!(run_exit_code(true, false), 0);
    assert_eq!(run_exit_code(false, true), 0);
    assert_eq!(run_exit_code(false, false), 0);
    assert_eq!(failure_exit_code(true), 2);
    assert_eq!(failure_exit_code(false), 1);
}
