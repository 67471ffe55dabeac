//! What the command line asks for.

use slopcount::cli::Cli;

fn subdir_of(value: &str) -> Option<String> {
    Cli {
        subdir: Some(value.to_string()),
        ..Cli::default()
    }
    .subdir()
}

#[test]
fn a_plain_subdirectory_is_used_as_written() {
    assert_eq!(subdir_of("src"), Some("src".to_string()));
    assert_eq!(subdir_of("src/deep"), Some("src/deep".to_string()));
}

#[test]
fn shell_completion_decoration_is_trimmed() {
    // `--in src/` and `--in ./src` are what tab-completion actually types.
    for value in ["src/", "./src", "./src/", "/src/", ".//src"] {
        assert_eq!(subdir_of(value), Some("src".to_string()), "{value:?}");
    }
}

#[test]
fn naming_the_root_is_the_same_as_not_narrowing() {
    for value in [".", "./", "", "/", "   "] {
        assert_eq!(subdir_of(value), None, "{value:?}");
    }
}

#[test]
fn absent_when_the_flag_is_not_given() {
    assert_eq!(Cli::default().subdir(), None);
}

#[test]
fn the_flag_is_spelled_in() {
    let args = Cli {
        subdir: Some("src".to_string()),
        ..Cli::default()
    };
    assert_eq!(args.subdir(), Some("src".to_string()));
}
