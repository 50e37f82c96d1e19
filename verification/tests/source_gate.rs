use macroquad_toolkit::source_gate::{
    assert_source_files_within_limit, source_lines, worst_first, Oversized, HARD_LIMIT,
};

fn repeated(line: &str, n: usize) -> String {
    std::iter::repeat_n(line, n).collect::<Vec<_>>().join("\n")
}

fn offender(path: &str, lines: usize) -> Oversized {
    Oversized {
        path: path.to_string(),
        lines,
    }
}

#[test]
fn counts_every_line_including_blank_ones() {
    assert_eq!(source_lines("let a = 1;\n\n// comment\n"), 3);
}

#[test]
fn inline_test_module_lines_count_toward_the_limit() {
    let source = format!(
        "{}\n#[cfg(test)]\nmod tests {{\n{}\n}}\n",
        repeated("fn code() {}", 10),
        repeated("    // test line", 900)
    );
    assert_eq!(source_lines(&source), 913);
}

#[test]
fn test_module_declaration_lines_count_toward_the_limit() {
    let source = format!(
        "#[cfg(test)]\nmod tests;\n{}\n",
        repeated("fn code() {}", 10)
    );
    assert_eq!(source_lines(&source), 12);
}

#[test]
fn line_counting_agrees_with_str_lines() {
    for source in ["", "\n", "a", "a\n", "a\r\nb", "\n\n\n", "é\nü", "x\n\ny\n\n"] {
        assert_eq!(source_lines(source), source.lines().count(), "{:?}", source);
    }
}

#[test]
fn offenders_are_reported_worst_first_including_test_files() {
    let found = vec![
        offender("src/state/big.rs", 30),
        offender("src/state/bigger.rs", 40),
        offender("src/state/small.rs", 5),
        offender("src/state/tests/huge.rs", 500),
    ];
    assert_eq!(
        worst_first(found, 20),
        vec![
            offender("src/state/tests/huge.rs", 500),
            offender("src/state/bigger.rs", 40),
            offender("src/state/big.rs", 30),
        ]
    );
}

#[test]
fn equal_counts_are_ordered_by_path() {
    let found = vec![
        offender("src/b.rs", 900),
        offender("src/a.rs", 900),
        offender("src/ab.rs", 900),
        offender("src/a.rs", 801),
        offender("src/limit.rs", 800),
    ];
    assert_eq!(
        worst_first(found, HARD_LIMIT),
        vec![
            offender("src/a.rs", 900),
            offender("src/ab.rs", 900),
            offender("src/b.rs", 900),
            offender("src/a.rs", 801),
        ]
    );
}

#[test]
fn a_clean_tree_passes() {
    assert_eq!(assert_source_files_within_limit(&[], &[]), Ok(()));
    let over = [offender("src/sim.rs", 900)];
    assert_eq!(assert_source_files_within_limit(&over, &["src/sim.rs"]), Ok(()));
}

#[test]
fn a_stale_grandfather_entry_fails_the_gate() {
    let verdict = assert_source_files_within_limit(&[], &["src/lib.rs"]);
    let message = verdict.unwrap_err();
    assert!(message.contains("remove them from the exception list"), "{}", message);
    assert!(message.contains("  src/lib.rs\n"), "{}", message);
}

#[test]
fn an_offender_fails_the_gate_with_a_report() {
    let over = [offender("src/sim.rs", 1200), offender("src/ui.rs", 801)];
    let message = assert_source_files_within_limit(&over, &["src/ui.rs"]).unwrap_err();
    assert_eq!(
        message,
        "1 file(s) exceed the 800-total-line hard limit (CODE_STANDARDS \u{a7}2.2):\n  src/sim.rs: 1200 lines\nSplit a cohesive responsibility into a sibling module \u{2014} never strip whitespace or compress formatting to pass.\n"
    );
}
