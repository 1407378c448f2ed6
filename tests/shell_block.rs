use pycors::{
    config_lines, configure_shell_file, file_contains, home_env_variable, remove_block,
    write_config_to, write_footer_to, write_header_to, SHELL_CONFIG_IDENTIFYING_PATTERN_END,
    SHELL_CONFIG_IDENTIFYING_PATTERN_START,
};

#[test]
fn file_contains_success() {
    let pattern_to_match = "Pattern to find";
    let file_content = format!("Line 1\nLine 2\n{}\nLine 4", pattern_to_match);
    assert!(file_contains(file_content.as_bytes(), pattern_to_match.as_bytes()));
    let file_content = format!("Line 1\nLine 2\n# {}\nLine 4", pattern_to_match);
    assert!(file_contains(file_content.as_bytes(), pattern_to_match.as_bytes()));
}

#[test]
fn file_contains_failure() {
    let pattern_to_match = "Pattern to find";
    let file_content = format!("Line 1\nLine 2\nDoes not contain pattern\nLine 4");
    assert!(!file_contains(file_content.as_bytes(), pattern_to_match.as_bytes()));
}

#[test]
fn file_contains_trims_the_pattern() {
    let file_content = "a\n# # marker line\nb";
    assert!(file_contains(file_content.as_bytes(), "## marker line  ".as_bytes()));
    assert!(!file_contains(file_content.as_bytes(), "marker".as_bytes()));
    assert!(!file_contains("".as_bytes(), "x".as_bytes()));
}

#[test]
fn write_config_to_string() {
    let mut writer: Vec<u8> = Vec::new();
    let lines_to_append = vec![String::from("# Line to append")];

    let autocomplete_file = "foo.sh";

    write_config_to(&mut writer, &lines_to_append, autocomplete_file);

    let expected = "# Line to append\nsource \"foo.sh\"\n";
    let written = String::from_utf8(writer).unwrap();

    assert_eq!(written, expected);
}

#[test]
fn remove_block_from_string() {
    let input = format!(
        "line 1\n#### Header\n# {}\nbla bla bla\n# {}\n### Footer\nline 5",
        SHELL_CONFIG_IDENTIFYING_PATTERN_START, SHELL_CONFIG_IDENTIFYING_PATTERN_END
    );
    let expected = "line 1\nline 5\n";

    let written = String::from_utf8(remove_block(input.as_bytes())).unwrap();

    assert_eq!(written, expected);
}

#[test]
fn remove_block_without_block_is_verbatim() {
    let input = "first\n\nexport A=1\r\nlast\n";
    let written = String::from_utf8(remove_block(input.as_bytes())).unwrap();
    assert_eq!(written, input);
    assert_eq!(remove_block("".as_bytes()), Vec::<u8>::new());
}

#[test]
fn remove_block_keeps_surrounding_lines_in_order() {
    let input = format!(
        "a\nb\n####\n# {}\nx\ny\n# {}\n####\nc\nd\n",
        SHELL_CONFIG_IDENTIFYING_PATTERN_START, SHELL_CONFIG_IDENTIFYING_PATTERN_END
    );
    let written = String::from_utf8(remove_block(input.as_bytes())).unwrap();
    assert_eq!(written, "a\nb\nc\nd\n");
}

#[test]
fn header_and_footer_frame_the_block() {
    let mut out: Vec<u8> = b"keep\n".to_vec();
    write_header_to(&mut out);
    write_footer_to(&mut out);
    let text = String::from_utf8(out).unwrap();
    let lines: Vec<&str> = text.lines().collect();
    assert_eq!(lines.len(), 10);
    assert_eq!(lines[0], "keep");
    assert!(lines[1].chars().all(|c| c == '#'));
    assert_eq!(lines[2], format!("# {}", SHELL_CONFIG_IDENTIFYING_PATTERN_START));
    assert_eq!(lines[8], format!("# {}", SHELL_CONFIG_IDENTIFYING_PATTERN_END));
    assert_eq!(lines[9], lines[1]);
    assert!(text.ends_with('\n'));
}

#[test]
fn configure_appends_one_block() {
    let out = configure_shell_file(b"alias ll='ls -l'", "/home/me/.pycors");
    let text = String::from_utf8(out).unwrap();
    assert!(text.starts_with("alias ll='ls -l'\n#####"));
    assert_eq!(text.matches(SHELL_CONFIG_IDENTIFYING_PATTERN_START).count(), 1);
    assert!(text.contains("export PYCORS_HOME=\"/home/me/.pycors\"\n"));
    assert!(text.contains("source ${PYCORS_HOME}/shell/bash/config.sh\n"));
}

#[test]
fn configure_twice_is_configure_once() {
    let original = b"export EDITOR=vi\n# comment\n";
    let once = configure_shell_file(original, "/home/me/.pycors");
    let twice = configure_shell_file(&once, "/home/me/.pycors");
    assert_eq!(once, twice);
    let text = String::from_utf8(twice).unwrap();
    assert_eq!(text.matches(SHELL_CONFIG_IDENTIFYING_PATTERN_START).count(), 1);
    assert_eq!(text.matches(SHELL_CONFIG_IDENTIFYING_PATTERN_END).count(), 1);
}

#[test]
fn configure_refreshes_an_old_block() {
    let old = configure_shell_file(b"x\n", "/old/home");
    let new = configure_shell_file(&old, "/new/home");
    assert_eq!(new, configure_shell_file(b"x\n", "/new/home"));
}

#[test]
fn home_variable_and_config_lines() {
    assert_eq!(home_env_variable(), "PYCORS_HOME");
    let lines = config_lines();
    assert_eq!(lines.len(), 18);
    assert_eq!(lines[2], "if [ -z ${PYCORS_INITIALIZED+x} ]; then");
    assert_eq!(lines[17], "fi");
}

#[test]
fn file_contains_reads_crlf_lines() {
    assert!(file_contains("a\r\nb\r\n".as_bytes(), "a".as_bytes()));
    assert!(file_contains("x\r\n# a\r\n".as_bytes(), "#a\u{b}".as_bytes()));
    assert!(!file_contains("a\r".as_bytes(), "a".as_bytes()));
}

#[test]
fn end_marker_outside_a_block_is_kept() {
    let input = format!("# {}\nb\n", SHELL_CONFIG_IDENTIFYING_PATTERN_END);
    assert_eq!(String::from_utf8(remove_block(input.as_bytes())).unwrap(), input);
}

#[test]
fn unterminated_block_runs_to_the_end() {
    let input = format!(
        "# {}\nb\n####\n# {}\nx\n",
        SHELL_CONFIG_IDENTIFYING_PATTERN_END, SHELL_CONFIG_IDENTIFYING_PATTERN_START
    );
    let expected = format!("# {}\nb\n", SHELL_CONFIG_IDENTIFYING_PATTERN_END);
    assert_eq!(String::from_utf8(remove_block(input.as_bytes())).unwrap(), expected);
}
