use vimsnitch::scanner::{rewrite_line, scan_file, scan_line};

#[test]
fn scan_line_extracts_trimmed_payload() {
    assert_eq!(scan_line("// TODO : fix it"), Some("fix it".to_string()));
    assert_eq!(scan_line("//TODO: x"), Some("x".to_string()));
    assert_eq!(scan_line("   //   TODO   :   spaced   "), Some("spaced".to_string()));
}

#[test]
fn scan_line_matches_anywhere_in_the_line() {
    assert_eq!(scan_line("let x = 1; // TODO : later"), Some("later".to_string()));
}

#[test]
fn scan_line_requires_the_colon() {
    assert_eq!(scan_line("// TODO missing colon"), None);
    assert_eq!(scan_line("// TODO"), None);
}

#[test]
fn scan_line_is_case_sensitive_and_literal() {
    assert_eq!(scan_line("// todo : lower"), None);
    assert_eq!(scan_line("plain line"), None);
    assert_eq!(scan_line(""), None);
}

#[test]
fn scan_line_allows_empty_payload() {
    assert_eq!(scan_line("// TODO :"), Some("".to_string()));
}

#[test]
fn scan_file_numbers_lines_from_one() {
    let contents = "fn main() {}\n// TODO : one\ncode\n// TODO : two\n";
    let matches = scan_file(contents);
    assert_eq!(matches.len(), 2);
    assert_eq!(matches[0].get_line_num(), 2);
    assert_eq!(matches[0].get_line(), "one".to_string());
    assert_eq!(matches[1].get_line_num(), 4);
    assert_eq!(matches[1].get_line(), "two".to_string());
}

#[test]
fn scan_file_handles_crlf_line_endings() {
    let contents = "a\r\n// TODO : windows\r\nb\r\n";
    let matches = scan_file(contents);
    assert_eq!(matches.len(), 1);
    assert_eq!(matches[0].get_line_num(), 2);
    assert_eq!(matches[0].get_line(), "windows".to_string());
}

#[test]
fn scan_file_of_empty_contents_finds_nothing() {
    assert_eq!(scan_file("").len(), 0);
    assert_eq!(scan_file("no markers here\n").len(), 0);
}

#[test]
fn rewrite_line_embeds_the_identifier() {
    assert_eq!(rewrite_line("  // TODO : fix", 7), "  // TODO(#7) : fix".to_string());
    assert_eq!(rewrite_line("//TODO:x", 38), "// TODO(#38) : x".to_string());
}

#[test]
fn rewrite_line_keeps_the_code_before_the_marker() {
    assert_eq!(
        rewrite_line("let x = 1; // TODO : later", 12),
        "let x = 1; // TODO(#12) : later".to_string()
    );
}

#[test]
fn rewritten_line_no_longer_matches_the_scanner() {
    let rewritten = rewrite_line("// TODO : fix it", 5);
    assert_eq!(rewritten, "// TODO(#5) : fix it".to_string());
    assert_eq!(scan_line(&rewritten), None);
}
