//! Counting the lines of single files.

use slopcount::count::{count, count_slice, CountConfig, CountOutcome, Counter};
use slopcount::data::registry;
use slopcount::lang::Registry;
use slopcount::report::{Counts, Stats};

fn languages() -> Registry {
    registry().expect("the definitions are valid")
}

/// Counts `src` as the language with the given key.
fn count_as(key: &str, src: &str) -> Stats {
    count_with(key, src, &CountConfig::default())
}

fn count_with(key: &str, src: &str, config: &CountConfig) -> Stats {
    let registry = languages();
    let id = registry
        .by_key(key)
        .unwrap_or_else(|| panic!("unknown language key {key:?}"));
    count_slice(&registry, src.as_bytes(), Some(id), false, config)
}

/// Counts `src` as a whole-file test.
fn count_test_file(key: &str, src: &str) -> Stats {
    let registry = languages();
    let id = registry.by_key(key).unwrap();
    count_slice(&registry, src.as_bytes(), Some(id), true, &CountConfig::default())
}

/// `(code, comments, blanks)` of the non-test bucket.
fn prod(s: &Stats) -> (u64, u64, u64) {
    (s.prod.code, s.prod.comments, s.prod.blanks)
}

/// `(code, comments, blanks)` of the test bucket.
fn test(s: &Stats) -> (u64, u64, u64) {
    (s.test.code, s.test.comments, s.test.blanks)
}

fn total(s: &Stats) -> Counts {
    s.total()
}

/// The share of code lines that are tests, as a number.
fn ratio(s: &Stats) -> Option<f64> {
    s.test_ratio().map(|(test, all)| test as f64 / all as f64)
}

// -- basic classification ------------------------------------------------

#[test]
fn empty_input_counts_nothing() {
    assert_eq!(count_as("Rust", ""), Stats::default());
}

#[test]
fn counts_code_comments_and_blanks() {
    let src = "\
fn main() {

    // a comment
    println!(\"hi\");
}
";
    assert_eq!(prod(&count_as("Rust", src)), (3, 1, 1));
}

#[test]
fn a_file_without_a_trailing_newline_still_counts_its_last_line() {
    assert_eq!(prod(&count_as("Rust", "let x = 1;")), (1, 0, 0));
}

#[test]
fn windows_line_endings_are_stripped() {
    let src = "fn a() {}\r\n\r\n// c\r\n";
    assert_eq!(prod(&count_as("Rust", src)), (1, 1, 1));
}

#[test]
fn whitespace_only_lines_are_blank() {
    assert_eq!(prod(&count_as("Rust", "\t \n   \n\n")), (0, 0, 3));
}

// -- line comments -------------------------------------------------------

#[test]
fn trailing_line_comments_count_as_code() {
    // The line does work, so it is code; tokei attributes the whole line to
    // whichever category it leads with.
    assert_eq!(prod(&count_as("Rust", "let x = 1; // set x\n")), (1, 0, 0));
}

#[test]
fn indented_line_comments_are_comments() {
    assert_eq!(prod(&count_as("Rust", "        // hi\n")), (0, 1, 0));
}

#[test]
fn line_comment_markers_inside_strings_are_not_comments() {
    assert_eq!(
        prod(&count_as("Rust", "let url = \"https://example.com\";\n")),
        (1, 0, 0)
    );
}

#[test]
fn a_hash_is_only_a_comment_in_languages_that_say_so() {
    assert_eq!(prod(&count_as("Python", "# hi\n")), (0, 1, 0));
    // In Rust `#` opens an attribute, not a comment.
    assert_eq!(prod(&count_as("Rust", "#![allow(dead_code)]\n")), (1, 0, 0));
}

// -- block comments ------------------------------------------------------

#[test]
fn single_line_block_comment() {
    assert_eq!(prod(&count_as("Rust", "/* hi */\n")), (0, 1, 0));
}

#[test]
fn multi_line_block_comment() {
    let src = "/*\n * hi\n */\nfn a() {}\n";
    assert_eq!(prod(&count_as("Rust", src)), (1, 3, 0));
}

#[test]
fn blank_lines_inside_a_block_comment_count_as_comment() {
    // The line is inside the comment, so it is not a blank separating code.
    let src = "/*\n\n*/\n";
    assert_eq!(prod(&count_as("Rust", src)), (0, 3, 0));
}

#[test]
fn code_after_a_block_comment_ends_on_the_same_line_is_code() {
    assert_eq!(prod(&count_as("Rust", "/* hi */ let x = 1;\n")), (1, 0, 0));
}

#[test]
fn rust_block_comments_nest() {
    let src = "/* outer /* inner */ still outer */\nlet x = 1;\n";
    assert_eq!(prod(&count_as("Rust", src)), (1, 1, 0));
}

#[test]
fn c_block_comments_do_not_nest() {
    // In C the first `*/` closes the comment, so the rest is code.
    let src = "/* outer /* inner */ x();\n";
    assert_eq!(prod(&count_as("C", src)), (1, 0, 0));
}

#[test]
fn block_comment_delimiters_inside_strings_are_inert() {
    let src = "let s = \"/*\";\nlet t = 1;\n";
    assert_eq!(prod(&count_as("Rust", src)), (2, 0, 0));
}

#[test]
fn an_unterminated_block_comment_swallows_the_rest_of_the_file() {
    let src = "/* oops\nfn a() {}\nfn b() {}\n";
    assert_eq!(prod(&count_as("Rust", src)), (0, 3, 0));
}

#[test]
fn d_has_its_own_nesting_comment_delimiters() {
    let src = "/+ outer /+ inner +/ still outer +/\nint x;\n";
    assert_eq!(prod(&count_as("D", src)), (1, 1, 0));
}

// -- strings -------------------------------------------------------------

#[test]
fn multi_line_strings_are_code() {
    let src = "let s = \"one\ntwo\nthree\";\n";
    assert_eq!(prod(&count_as("Rust", src)), (3, 0, 0));
}

#[test]
fn escaped_quotes_do_not_end_a_string() {
    let src = "let s = \"a \\\" /* b\";\nlet t = 1;\n";
    assert_eq!(prod(&count_as("Rust", src)), (2, 0, 0));
}

#[test]
fn an_escaped_backslash_does_not_escape_the_closing_quote() {
    // "a\\" is a complete string; the `//` that follows is a comment.
    let src = "let s = \"a\\\\\"; // done\nlet t = 1;\n";
    assert_eq!(prod(&count_as("Rust", src)), (2, 0, 0));
}

#[test]
fn verbatim_strings_do_not_honour_backslash_escapes() {
    let src = "let s = r#\"a \\\"#;\nlet t = 1;\n";
    assert_eq!(prod(&count_as("Rust", src)), (2, 0, 0));
}

#[test]
fn an_escaped_quote_in_plain_code_opens_nothing() {
    let src = "$name =~ s/^\\\"|\\\"$//g;\n# a comment\n\n";
    assert_eq!(prod(&count_as("Perl", src)), (1, 1, 1));
}

#[test]
fn an_escaped_quote_after_a_verbatim_string_is_not_escaped() {
    // Nothing is escaped from a verbatim string up to the next ordinary one.
    let src = "let s = r#\"x\"#; \\\"\n// inside\n";
    assert_eq!(prod(&count_as("Rust", src)), (2, 0, 0));
}

// -- doc strings ---------------------------------------------------------

#[test]
fn python_doc_strings_count_as_comments_by_default() {
    let src = "def f():\n    \"\"\"Docs.\n\n    More docs.\n    \"\"\"\n    return 1\n";
    let stats = count_as("Python", src);
    assert_eq!(prod(&stats), (2, 4, 0));
}

#[test]
fn python_doc_strings_count_as_code_when_configured() {
    let config = CountConfig {
        treat_doc_strings_as_comments: false,
        ..CountConfig::default()
    };
    let src = "def f():\n    \"\"\"Docs.\"\"\"\n    return 1\n";
    assert_eq!(prod(&count_with("Python", src, &config)), (3, 0, 0));
}

#[test]
fn a_single_line_doc_string_is_a_comment() {
    let src = "\"\"\"Module docs.\"\"\"\nimport os\n";
    assert_eq!(prod(&count_as("Python", src)), (1, 1, 0));
}

// -- literate languages --------------------------------------------------

#[test]
fn markdown_prose_counts_as_comments() {
    let src = "# Title\n\nSome prose.\n";
    let stats = count_as("Markdown", src);
    assert_eq!(stats.prod.code, 0);
    assert_eq!(stats.prod.comments, 2);
    assert_eq!(stats.prod.blanks, 1);
}

// -- unknown languages ---------------------------------------------------

#[test]
fn unknown_languages_count_every_non_blank_line_as_code() {
    let stats = count_slice(
        &languages(),
        b"one\n\ntwo\n",
        None,
        false,
        &CountConfig::default(),
    );
    assert_eq!(prod(&stats), (2, 0, 1));
}

// -- binary detection ----------------------------------------------------

#[test]
fn files_with_nul_bytes_are_reported_as_binary() {
    let registry = languages();
    let id = registry.by_key("Rust").unwrap();
    let outcome = count(
        &registry,
        &b"\x7fELF\x00\x00\x01"[..],
        Some(id),
        false,
        &CountConfig::default(),
    );
    assert_eq!(outcome, CountOutcome::Binary);
}

#[test]
fn binary_detection_can_be_switched_off() {
    let config = CountConfig {
        skip_binary: false,
        ..CountConfig::default()
    };
    let outcome = count(&languages(), &b"\x00\n"[..], None, false, &config);
    assert!(matches!(outcome, CountOutcome::Counted(_)));
}

// -- test detection: whole files -----------------------------------------

#[test]
fn a_test_file_puts_every_line_in_the_test_bucket() {
    let src = "fn a() {}\n// c\n\n";
    let stats = count_test_file("Rust", src);
    assert_eq!(prod(&stats), (0, 0, 0));
    assert_eq!(test(&stats), (1, 1, 1));
}

// -- test detection: blocks ----------------------------------------------

#[test]
fn rust_cfg_test_modules_are_test_code() {
    let src = "\
fn real() {
    work();
}

#[cfg(test)]
mod tests {
    #[test]
    fn it_works() {
        assert!(true);
    }
}

fn also_real() {}
";
    let stats = count_as("Rust", src);
    // `fn real`, its body, its brace, and `fn also_real`.
    assert_eq!(prod(&stats).0, 4);
    // The whole `#[cfg(test)]` block, braces included.
    assert_eq!(test(&stats).0, 7);
    assert_eq!(total(&stats).lines(), 13);
}

#[test]
fn a_bare_rust_test_attribute_covers_just_its_function() {
    let src = "\
#[test]
fn one() {
    ok();
}
fn two() {
    work();
}
";
    let stats = count_as("Rust", src);
    assert_eq!(test(&stats).0, 4);
    assert_eq!(prod(&stats).0, 3);
}

#[test]
fn blank_lines_inside_a_test_block_are_test_blanks() {
    let src = "#[cfg(test)]\nmod tests {\n\n    fn a() {}\n}\n";
    let stats = count_as("Rust", src);
    assert_eq!(test(&stats), (4, 0, 1));
    assert_eq!(prod(&stats), (0, 0, 0));
}

#[test]
fn go_test_functions_are_test_code() {
    let src = "\
package main

func Add(a, b int) int {
\treturn a + b
}

func TestAdd(t *testing.T) {
\tif Add(1, 2) != 3 {
\t\tt.Fatal(\"bad\")
\t}
}
";
    let stats = count_as("Go", src);
    assert_eq!(test(&stats).0, 5);
    assert_eq!(prod(&stats).0, 4);
}

#[test]
fn python_test_functions_end_at_the_dedent() {
    let src = "\
def real():
    return 1

def test_real():
    assert real() == 1

def also_real():
    return 2
";
    let stats = count_as("Python", src);
    assert_eq!(test(&stats).0, 2);
    assert_eq!(prod(&stats).0, 4);
}

#[test]
fn python_test_classes_are_test_code() {
    let src = "\
class TestThing:
    def test_a(self):
        assert True

    def test_b(self):
        assert True

x = 1
";
    let stats = count_as("Python", src);
    assert_eq!(test(&stats).0, 5);
    assert_eq!(test(&stats).2, 2);
    assert_eq!(prod(&stats).0, 1);
}

#[test]
fn javascript_describe_blocks_are_test_code() {
    let src = "\
export function add(a, b) {
  return a + b;
}

describe('add', () => {
  it('adds', () => {
    expect(add(1, 2)).toBe(3);
  });
});
";
    let stats = count_as("JavaScript", src);
    assert_eq!(test(&stats).0, 5);
    assert_eq!(prod(&stats).0, 3);
}

#[test]
fn test_markers_inside_strings_do_not_open_a_block() {
    // The marker must appear in plain mode at the start of a line.
    let src = "let s = \"\n#[cfg(test)]\n\";\nfn real() {}\n";
    let stats = count_as("Rust", src);
    assert_eq!(test(&stats).0, 0);
    assert_eq!(prod(&stats).0, 4);
}

#[test]
fn test_markers_inside_comments_do_not_open_a_block() {
    let src = "/*\n#[cfg(test)]\n*/\nfn real() {}\n";
    let stats = count_as("Rust", src);
    assert_eq!(test(&stats).0, 0);
    assert_eq!(prod(&stats), (1, 3, 0));
}

#[test]
fn braces_inside_strings_do_not_close_a_test_block() {
    let src = "\
#[cfg(test)]
mod tests {
    fn a() {
        let s = \"}\";
    }
}
fn real() {}
";
    let stats = count_as("Rust", src);
    assert_eq!(test(&stats).0, 6);
    assert_eq!(prod(&stats).0, 1);
}

#[test]
fn braces_inside_line_comments_do_not_close_a_test_block() {
    let src = "#[cfg(test)]\nmod tests {\n    // }\n    fn a() {}\n}\nfn real() {}\n";
    let stats = count_as("Rust", src);
    assert_eq!(test(&stats), (4, 1, 0));
    assert_eq!(prod(&stats).0, 1);
}

#[test]
fn a_marker_that_never_opens_a_block_is_abandoned() {
    // Ten lines of grace, then the tracker gives up rather than marking the
    // rest of the file as tests.
    let mut src = String::from("#[test]\n");
    for i in 0..40 {
        src.push_str(&format!("let x{i} = {i};\n"));
    }
    let stats = count_as("Rust", &src);
    assert_eq!(total(&stats).code, 41);
    assert!(
        stats.prod.code >= 30,
        "most lines should stay production, got {stats:?}"
    );
}

#[test]
fn test_block_detection_can_be_switched_off() {
    let config = CountConfig {
        detect_test_blocks: false,
        ..CountConfig::default()
    };
    let src = "#[cfg(test)]\nmod tests {\n    fn a() {}\n}\n";
    let stats = count_with("Rust", src, &config);
    assert_eq!(test(&stats).0, 0);
    assert_eq!(prod(&stats).0, 4);
}

#[test]
fn languages_without_markers_report_no_test_blocks() {
    let src = "body { color: red; }\n";
    let stats = count_as("Css", src);
    assert_eq!(test(&stats).0, 0);
    assert_eq!(prod(&stats).0, 1);
}

// -- Stats bookkeeping ---------------------------------------------------

#[test]
fn every_line_lands_in_exactly_one_bucket() {
    let src = "\
fn a() {
    // c
}

#[cfg(test)]
mod t {
    // c

    fn b() {}
}
";
    let stats = count_as("Rust", src);
    assert_eq!(total(&stats).lines(), src.lines().count() as u64);
}

#[test]
fn test_ratio_is_the_share_of_code_lines() {
    let stats = Stats {
        prod: Counts {
            code: 3,
            ..Counts::default()
        },
        test: Counts {
            code: 1,
            ..Counts::default()
        },
    };
    assert_eq!(ratio(&stats), Some(0.25));
    assert_eq!(ratio(&Stats::default()), None);
}

// -- line by line ------------------------------------------------------------

#[test]
fn counting_line_by_line_is_counting_the_whole_file() {
    let registry = languages();
    let config = CountConfig::default();
    let src = "fn a() {\n    /* c\n */\n}\n\n#[test]\nfn t() {\n    \"}\";\n}\n";
    let id = registry.by_key("Rust").unwrap();
    let mut counter = Counter::new(Some(registry.get(id)), false, &config);
    for line in src.lines() {
        assert!(counter.has_room(line.as_bytes()));
        counter.push_line(line.as_bytes());
    }
    assert_eq!(
        counter.finish(),
        count_slice(&registry, src.as_bytes(), Some(id), false, &config)
    );
}

#[test]
fn a_binary_file_counts_nothing() {
    let stats = count_slice(
        &languages(),
        b"a\x00b\nfn a() {}\n",
        None,
        false,
        &CountConfig::default(),
    );
    assert_eq!(stats, Stats::default());
    // Only the first line is looked at.
    let stats = count_slice(
        &languages(),
        b"a\nb\x00\n",
        None,
        false,
        &CountConfig::default(),
    );
    assert_eq!(prod(&stats), (2, 0, 0));
}
