use pin_actions::parser::WorkflowFile;

#[test]
fn test_parse_uses_line() {
    let line = "      - uses: actions/checkout@v4";
    let uses = WorkflowFile::parse_uses_line(line, 1).unwrap();

    assert_eq!(uses.indent, "      - ");
    assert_eq!(uses.action.repository, "actions/checkout");
    assert_eq!(uses.action.reference, "v4");
    assert!(!uses.action.is_sha);
}

#[test]
fn test_parse_uses_line_with_sha() {
    let line = "      - uses: actions/checkout@b4ffde65f46336ab88eb53be808477a3936bae11";
    let uses = WorkflowFile::parse_uses_line(line, 1).unwrap();

    assert!(uses.action.is_sha);
}

#[test]
fn test_parse_uses_line_with_comment() {
    let line = "      - uses: actions/checkout@v4 # Comment";
    let uses = WorkflowFile::parse_uses_line(line, 1).unwrap();

    assert_eq!(uses.action.reference, "v4");
}

#[test]
fn test_skip_local_action() {
    let line = "      - uses: ./local-action@v1";
    let uses = WorkflowFile::parse_uses_line(line, 1);

    assert!(uses.is_none());
}

#[test]
fn test_workflow_file_content() {
    let yaml = r#"
name: CI
on: [push]
jobs:
  test:
    runs-on: ubuntu-latest
    steps:
      - uses: actions/checkout@v4
      - uses: actions/setup-node@v3
      - uses: actions/cache@b4ffde65f46336ab88eb53be808477a3936bae11
      - uses: ./local-action@v1
"#;

    let workflow = WorkflowFile::parse("ci.yml".to_string(), yaml.to_string());

    assert_eq!(workflow.actions.len(), 3); // Excludes local action
    assert_eq!(workflow.unpinned_actions().len(), 2);
    assert_eq!(workflow.pinned_count(), 1);
}

#[test]
fn uses_line_keeps_what_stands_before_the_reference() {
    let uses = WorkflowFile::parse_uses_line("  -\tuses:   docker/login-action@v3  # registry", 7)
        .unwrap();
    assert_eq!(uses.line_number, 7);
    assert_eq!(uses.indent, "  -\t");
    assert_eq!(uses.prefix, "  -\tuses:   ");
    assert_eq!(uses.action.repository, "docker/login-action");
    assert_eq!(uses.action.reference, "v3");
    assert!(!uses.action.is_sha);
}

#[test]
fn uses_line_without_list_marker() {
    let uses = WorkflowFile::parse_uses_line("    uses: actions/cache@main", 3).unwrap();
    assert_eq!(uses.indent, "    ");
    assert_eq!(uses.prefix, "    uses: ");
    assert_eq!(uses.action.to_string(), "actions/cache@main");

    let uses = WorkflowFile::parse_uses_line("uses: a/b@c", 1).unwrap();
    assert_eq!(uses.indent, "");
    assert_eq!(uses.prefix, "uses: ");
}

#[test]
fn uses_line_ends_the_locator_at_comment_or_white_space() {
    let uses = WorkflowFile::parse_uses_line("- uses: a/b@v1#note", 1).unwrap();
    assert_eq!(uses.action.reference, "v1");
    let uses = WorkflowFile::parse_uses_line("- uses: a/b@v1\r", 1).unwrap();
    assert_eq!(uses.action.reference, "v1");
    let uses = WorkflowFile::parse_uses_line("- uses: a/b@v1 uses: c/d@v2", 1).unwrap();
    assert_eq!(uses.action.to_string(), "a/b@v1");
    let uses = WorkflowFile::parse_uses_line("- uses: a/b@feature@2", 1).unwrap();
    assert_eq!(uses.action.repository, "a/b");
    assert_eq!(uses.action.reference, "feature@2");
}

#[test]
fn lines_without_a_reference() {
    for line in [
        "",
        "   ",
        "name: CI",
        "      - uses:actions/checkout@v4",
        "      - uses: actions/checkout",
        "      - uses: actions/checkout@",
        "      - uses: actions/checkout@ v4",
        "      - uses: @v4",
        "      - uses: actions#checkout@v4",
        "      - uses: actions checkout@v4",
        "      # - uses: actions/checkout@v4",
        "      - - uses: actions/checkout@v4",
        "      - name: x uses: actions/checkout@v4",
        "      - Uses: actions/checkout@v4",
        "      - uses : actions/checkout@v4",
        "      - uses:",
        "      - uses: ",
        "uses",
        "      - uses: ./.github/actions/build@main",
    ] {
        assert!(WorkflowFile::parse_uses_line(line, 1).is_none(), "{:?}", line);
    }
}

#[test]
fn uses_line_agrees_with_the_pattern() {
    let pattern = regex::Regex::new(r"^\s*-?\s*uses:\s+([^@\s#]+)@([^\s#]+)").unwrap();
    for line in [
        "      - uses: actions/checkout@v4",
        "      - uses: actions/checkout@v4 # Comment",
        "uses: a@b",
        "\t-\tuses:\t\ta/b@c\t",
        "  uses:  owner/repo/sub/dir@refs/tags/v1.2.3",
        " \u{a0}- \u{2003}uses:\u{3000}a/b@c\u{85}d",
        "- uses: a/b@b4ffde65f46336ab88eb53be808477a3936bae11",
        "- uses: a/b@c@d",
        "-uses: a/b@c",
        "- uses:a/b@c",
        "- uses: a/b",
        "- uses: a/b@",
        "- uses: a/b@#c",
        "- uses: a#b@c",
        "-- uses: a/b@c",
        "- name: uses: a/b@c",
        "x uses: a/b@c",
        "",
        "- uses: ",
        "- uses: @c",
        "  - uses: a/b@c\r",
        "- uses: a/b@c d@e",
    ] {
        let found = WorkflowFile::parse_uses_line(line, 1);
        match pattern.captures(line) {
            Some(groups) => {
                let uses = found.unwrap();
                assert_eq!(uses.action.repository, &groups[1], "{:?}", line);
                assert_eq!(uses.action.reference, &groups[2], "{:?}", line);
                assert_eq!(uses.prefix, &line[..groups.get(1).unwrap().start()], "{:?}", line);
                assert_eq!(uses.indent, line.split("uses:").next().unwrap(), "{:?}", line);
            }
            None => assert!(found.is_none(), "{:?}", line),
        }
    }
}

#[test]
fn workflow_numbers_its_lines_from_one() {
    let text = "on: push\n  - uses: a/b@v1\n\n  - uses: ./local@v1\n  - uses: c/d@v2";
    let workflow = WorkflowFile::parse("w.yml".to_string(), text.to_string());
    assert_eq!(workflow.path, "w.yml");
    assert_eq!(workflow.content, text);
    assert_eq!(workflow.actions.len(), 2);
    assert_eq!(workflow.actions[0].line_number, 2);
    assert_eq!(workflow.actions[0].action.to_string(), "a/b@v1");
    assert_eq!(workflow.actions[1].line_number, 5);
    assert_eq!(workflow.actions[1].action.to_string(), "c/d@v2");
}

#[test]
fn workflow_line_numbers_ascend() {
    let text = "- uses: a/b@v1\n- uses: a/b@v1\n\n- uses: c/d@v2\n- uses: e/f@v3\n";
    let workflow = WorkflowFile::parse("w.yml".to_string(), text.to_string());
    let numbers: Vec<usize> = workflow.actions.iter().map(|u| u.line_number).collect();
    assert_eq!(numbers, vec![1, 2, 4, 5]);
}

#[test]
fn workflow_splits_at_line_feeds_only() {
    let text = "- uses: a/b@v1\r\n- uses: c/d@v2\r- uses: e/f@v3\r\n";
    let workflow = WorkflowFile::parse("w.yml".to_string(), text.to_string());
    assert_eq!(workflow.actions.len(), 2);
    assert_eq!(workflow.actions[0].line_number, 1);
    assert_eq!(workflow.actions[0].action.reference, "v1");
    assert_eq!(workflow.actions[1].line_number, 2);
    assert_eq!(workflow.actions[1].action.to_string(), "c/d@v2");
}

#[test]
fn workflow_without_text_or_references() {
    let workflow = WorkflowFile::parse("e.yml".to_string(), String::new());
    assert!(workflow.actions.is_empty());
    assert!(workflow.unpinned_actions().is_empty());
    assert_eq!(workflow.pinned_count(), 0);

    let workflow = WorkflowFile::parse("n.yml".to_string(), "\n\n\n".to_string());
    assert!(workflow.actions.is_empty());
}

#[test]
fn workflow_tells_pinned_from_unpinned() {
    let text = "- uses: a/b@b4ffde65f46336ab88eb53be808477a3936bae11\n\
                - uses: c/d@v2\n\
                - uses: e/f@B4FFDE65F46336AB88EB53BE808477A3936BAE11\n\
                - uses: g/h@0123456789abcdef0123456789abcdef01234567 # v1\n";
    let workflow = WorkflowFile::parse("w.yml".to_string(), text.to_string());
    assert_eq!(workflow.actions.len(), 4);
    assert_eq!(workflow.pinned_count(), 2);
    let unpinned = workflow.unpinned_actions();
    assert_eq!(unpinned.len(), 2);
    assert_eq!(unpinned[0].action.repository, "c/d");
    assert_eq!(unpinned[1].action.repository, "e/f");
    let copy = unpinned[0].clone();
    assert_eq!(copy.line_number, 2);
    assert_eq!(copy.prefix, "- uses: ");
}

#[test]
fn uses_line_agrees_with_the_pattern_on_many_lines() {
    let pattern = regex::Regex::new(r"^\s*-?\s*uses:\s+([^@\s#]+)@([^\s#]+)").unwrap();
    let pieces = [
        " ", "  ", "\t", "-", "- ", "uses:", "uses: ", "uses", ":", "@", "#", "a", "b/c", "v1",
        "./", ".", "/", "\r", "\u{a0}", "\u{2003}", "x y", "@@", "# c", "", "a/b@v1", "c@d",
    ];
    let leads = [" ", "  ", "\t", "-", "- ", "\u{a0}", "", "x"];
    let words = ["uses:", "uses: ", "uses:\t ", "uses:\u{2003}", "uses", "Uses: ", ""];
    let mut state: u64 = 0x2545f4914f6cdd1d;
    let mut next = |bound: usize| {
        state = state.wrapping_mul(6364136223846793005).wrapping_add(1442695040888963407);
        ((state >> 33) % bound as u64) as usize
    };
    let mut matched = 0;
    for _ in 0..20000 {
        let mut line = String::new();
        for _ in 0..next(4) {
            line.push_str(leads[next(leads.len())]);
        }
        line.push_str(words[next(words.len())]);
        for _ in 0..next(7) {
            line.push_str(pieces[next(pieces.len())]);
        }
        let found = WorkflowFile::parse_uses_line(&line, 1);
        match pattern.captures(&line) {
            Some(groups) if !groups[1].starts_with("./") => {
                let uses = found.unwrap();
                assert_eq!(uses.action.repository, &groups[1], "{:?}", line);
                assert_eq!(uses.action.reference, &groups[2], "{:?}", line);
                assert_eq!(uses.prefix, &line[..groups.get(1).unwrap().start()], "{:?}", line);
                assert_eq!(uses.indent, line.split("uses:").next().unwrap(), "{:?}", line);
                matched += 1;
            }
            _ => assert!(found.is_none(), "{:?}", line),
        }
    }
    assert!(matched > 200, "{}", matched);
}
