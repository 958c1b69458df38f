use std::path::PathBuf;

use pin_actions::action::{ActionRef, PinnedAction};
use pin_actions::git::{GitResolver, Listing, RemoteHead, ResolveError};
use pin_actions::parser::WorkflowFile;
use pin_actions::workflow::{
    is_workflow_file, rewrite_text, PinnedMap, ProcessResults, Rewrite, SourceFile, Tone, Verdict,
    WorkflowProcessor,
};

const SHA: &str = "8f4b7f84864484a7bf31766abe9204da3cbe65b3";
const OLD: &str = "b4ffde65f46336ab88eb53be808477a3936bae11";

fn processor(dry_run: bool, backup: bool) -> WorkflowProcessor {
    WorkflowProcessor::new(PathBuf::from(".github/workflows"), dry_run, backup, true, 10)
}

fn source(path: &str, text: &str) -> SourceFile {
    SourceFile { path: path.to_string(), content: Some(text.to_string()) }
}

fn workflow(path: &str, text: &str) -> WorkflowFile {
    WorkflowFile::parse(path.to_string(), text.to_string())
}

fn resolved(text: &str, sha: &str) -> (ActionRef, Result<String, ResolveError>) {
    (ActionRef::parse(text).unwrap(), Ok(sha.to_string()))
}

fn failed(text: &str, error: ResolveError) -> (ActionRef, Result<String, ResolveError>) {
    (ActionRef::parse(text).unwrap(), Err(error))
}

fn pins(entries: &[(&str, &str)]) -> PinnedMap {
    let mut map = PinnedMap::new();
    for (text, sha) in entries {
        map.insert(PinnedAction::new(ActionRef::parse(text).unwrap(), sha.to_string()));
    }
    map
}

fn rewrite(text: &str, entries: &[(&str, &str)]) -> String {
    let mut records = Vec::new();
    rewrite_text(&workflow("w.yml", text), &pins(entries), &mut records)
}

#[test]
fn one_reference_pinned_one_left() {
    let text = format!(
        "      - uses: actions/checkout@v4\n      - uses: actions/checkout@{} # v4\n",
        OLD
    );
    let (workflows, unreadable) = WorkflowProcessor::parse_workflows(vec![source("ci.yml", &text)]);
    assert_eq!(unreadable, 0);
    let unresolved = WorkflowProcessor::collect_unpinned(&workflows);
    assert_eq!(unresolved, vec![ActionRef::parse("actions/checkout@v4").unwrap()]);

    let outcomes = vec![(unresolved[0].clone(), Ok(SHA.to_string()))];
    let (results, rewrites) = processor(false, false).process(&workflows, unreadable, &outcomes);

    assert_eq!(rewrites.len(), 1);
    assert_eq!(rewrites[0].path, "ci.yml");
    assert_eq!(
        rewrites[0].content,
        format!(
            "      - uses: actions/checkout@{} # v4\n      - uses: actions/checkout@{} # v4\n",
            SHA, OLD
        )
    );
    assert_eq!(rewrites[0].substitutions, 1);
    assert!(rewrites[0].write);
    assert_eq!(rewrites[0].backup_path, None);

    assert_eq!(results.files_processed, 1);
    assert_eq!(results.actions_found, 2);
    assert_eq!(results.actions_pinned, 1);
    assert_eq!(results.already_pinned, 1);
    assert_eq!(results.errors, 0);
    assert_eq!(results.pinned_actions.len(), 1);
    assert_eq!(results.pinned_actions[0].file, "ci.yml");
    assert_eq!(results.pinned_actions[0].action, "actions/checkout");
    assert_eq!(results.pinned_actions[0].old_ref, "v4");
    assert_eq!(results.pinned_actions[0].sha, SHA);
    assert_eq!(results.exit_code(), 0);
    assert_eq!(results.verdict(false), Verdict::Pinned);
}

#[test]
fn dry_run_writes_nothing_and_counts_all_the_same() {
    let text = format!(
        "      - uses: actions/checkout@v4\n      - uses: actions/checkout@{} # v4\n",
        OLD
    );
    let workflows = vec![workflow("ci.yml", &text)];
    let outcomes = vec![resolved("actions/checkout@v4", SHA)];
    let (results, rewrites) = processor(true, true).process(&workflows, 0, &outcomes);

    assert!(!rewrites[0].write);
    assert_eq!(rewrites[0].backup_path, None);
    assert_eq!(rewrites[0].substitutions, 1);
    assert_eq!(workflows[0].content, text);
    assert_eq!(results.actions_pinned, 1);
    assert_eq!(results.already_pinned, 1);
    assert_eq!(results.pinned_actions.len(), 1);
    assert_eq!(results.errors, 0);
    assert_eq!(results.verdict(true), Verdict::DryRun);
    assert_eq!(results.exit_code(), 0);
}

#[test]
fn one_resolved_one_failed() {
    let text = "steps:\n  - uses: a/found@v1\n  - uses: b/lost@v2\n  - uses: a/found@v1 # again\n";
    let workflows = vec![workflow("ci.yml", text)];
    let unresolved = WorkflowProcessor::collect_unpinned(&workflows);
    assert_eq!(unresolved.len(), 2);
    let outcomes =
        vec![resolved("a/found@v1", SHA), failed("b/lost@v2", ResolveError::ReferenceNotFound)];
    let (results, rewrites) = processor(false, false).process(&workflows, 0, &outcomes);

    assert_eq!(
        rewrites[0].content,
        format!(
            "steps:\n  - uses: a/found@{} # v1\n  - uses: b/lost@v2\n  - uses: a/found@{} # v1\n",
            SHA, SHA
        )
    );
    assert_eq!(results.errors, 1);
    assert_eq!(results.actions_found, 3);
    assert_eq!(results.actions_pinned, 2);
    assert_eq!(results.already_pinned, 0);
    assert_eq!(results.exit_code(), 1);
    assert_eq!(results.verdict(false), Verdict::Pinned);
}

#[test]
fn unreachable_remote_counts_like_a_missing_reference() {
    let workflows = vec![workflow("ci.yml", "- uses: a/b@v1\n")];
    let outcomes = vec![failed("a/b@v1", ResolveError::NetworkError)];
    let (results, rewrites) = processor(false, false).process(&workflows, 0, &outcomes);
    assert_eq!(rewrites[0].content, "- uses: a/b@v1\n");
    assert_eq!(rewrites[0].substitutions, 0);
    assert_eq!(results.errors, 1);
    assert_eq!(results.actions_pinned, 0);
    assert_eq!(results.verdict(false), Verdict::NothingToPin);
    assert_eq!(results.exit_code(), 1);
}

#[test]
fn two_files_one_reference_one_lookup() {
    let one = "jobs:\n  - uses: actions/checkout@v4\n";
    let two = "- uses: actions/setup-node@v3\n- uses: actions/checkout@v4  # same\n";
    let workflows = vec![workflow("one.yml", one), workflow("two.yaml", two)];
    let unresolved = WorkflowProcessor::collect_unpinned(&workflows);
    let keys: Vec<String> = unresolved.iter().map(|a| a.to_string()).collect();
    assert_eq!(keys, vec!["actions/checkout@v4", "actions/setup-node@v3"]);

    let outcomes = vec![
        resolved("actions/checkout@v4", SHA),
        failed("actions/setup-node@v3", ResolveError::ReferenceNotFound),
    ];
    let (results, rewrites) = processor(false, false).process(&workflows, 0, &outcomes);
    assert_eq!(rewrites.len(), 2);
    assert_eq!(rewrites[0].path, "one.yml");
    assert_eq!(rewrites[0].content, format!("jobs:\n  - uses: actions/checkout@{} # v4\n", SHA));
    assert_eq!(rewrites[1].path, "two.yaml");
    assert_eq!(
        rewrites[1].content,
        format!("- uses: actions/setup-node@v3\n- uses: actions/checkout@{} # v4\n", SHA)
    );
    assert_eq!(results.files_processed, 2);
    assert_eq!(results.actions_found, 3);
    assert_eq!(results.actions_pinned, 2);
    assert_eq!(results.errors, 1);
    let files: Vec<&str> = results.pinned_actions.iter().map(|r| r.file.as_str()).collect();
    assert_eq!(files, vec!["one.yml", "two.yaml"]);
    assert_eq!(results.pinned_actions[0].sha, results.pinned_actions[1].sha);
}

#[test]
fn pinned_workflow_is_left_as_it_is() {
    let text = format!("steps:\n      - uses: actions/checkout@{} # v4\n  run: x", OLD);
    let workflows = vec![workflow("ci.yml", &text)];
    assert!(WorkflowProcessor::collect_unpinned(&workflows).is_empty());
    let (results, rewrites) = processor(false, false).process(&workflows, 0, &Vec::new());
    assert_eq!(rewrites[0].content, text);
    assert_eq!(rewrites[0].substitutions, 0);
    assert_eq!(results.actions_found, 1);
    assert_eq!(results.already_pinned, 1);
    assert_eq!(results.actions_pinned, 0);
    assert!(results.pinned_actions.is_empty());
    assert_eq!(results.verdict(false), Verdict::NothingToPin);

    let others = vec![resolved("actions/checkout@v4", SHA)];
    let (_, rewrites) = processor(false, false).process(&workflows, 0, &others);
    assert_eq!(rewrites[0].content, text);
}

#[test]
fn rewriting_twice_changes_nothing_more() {
    let text = "- uses: a/b@v1\n- uses: c/d@main # x\n- uses: ./local@v1\n";
    let outcomes = vec![resolved("a/b@v1", SHA), resolved("c/d@main", OLD)];
    let (_, first) = processor(false, false).process(&vec![workflow("w.yml", text)], 0, &outcomes);
    let again = vec![workflow("w.yml", &first[0].content)];
    assert!(WorkflowProcessor::collect_unpinned(&again).is_empty());
    let (results, second) = processor(false, false).process(&again, 0, &outcomes);
    assert_eq!(second[0].content, first[0].content);
    assert_eq!(results.actions_pinned, 0);
    assert_eq!(results.already_pinned, 2);
}

#[test]
fn local_reference_is_left_alone() {
    let text = "- uses: ./local-action@v1\n- uses: a/b@v1\n";
    let workflows = vec![workflow("w.yml", text)];
    assert_eq!(workflows[0].actions.len(), 1);
    let unresolved = WorkflowProcessor::collect_unpinned(&workflows);
    assert_eq!(unresolved.len(), 1);
    assert_eq!(unresolved[0].to_string(), "a/b@v1");
    let outcomes = vec![resolved("a/b@v1", SHA), resolved("./local-action@v1", OLD)];
    let (results, rewrites) = processor(false, false).process(&workflows, 0, &outcomes);
    assert_eq!(
        rewrites[0].content,
        format!("- uses: ./local-action@v1\n- uses: a/b@{} # v1\n", SHA)
    );
    assert_eq!(results.actions_found, 1);
    assert_eq!(results.actions_pinned, 1);
}

#[test]
fn rewrite_keeps_the_prefix_and_drops_the_rest_of_the_line() {
    assert_eq!(
        rewrite("  -\tuses:   a/b@v1   # pinned later\n", &[("a/b@v1", SHA)]),
        format!("  -\tuses:   a/b@{} # v1\n", SHA)
    );
    assert_eq!(rewrite("uses: a/b@v1", &[("a/b@v1", SHA)]), format!("uses: a/b@{} # v1", SHA));
}

#[test]
fn rewrite_keeps_the_end_of_the_text() {
    let entries = [("a/b@v1", SHA)];
    assert_eq!(rewrite("- uses: a/b@v1", &entries), format!("- uses: a/b@{} # v1", SHA));
    assert_eq!(rewrite("- uses: a/b@v1\n", &entries), format!("- uses: a/b@{} # v1\n", SHA));
    assert_eq!(rewrite("- uses: a/b@v1\n\n", &entries), format!("- uses: a/b@{} # v1\n\n", SHA));
    assert_eq!(rewrite("\n- uses: a/b@v1", &entries), format!("\n- uses: a/b@{} # v1", SHA));
    assert_eq!(rewrite("", &entries), "");
    assert_eq!(rewrite("\n", &entries), "\n");
    assert_eq!(rewrite("x\n\ny", &entries), "x\n\ny");
}

#[test]
fn rewrite_keeps_carriage_returns() {
    let entries = [("a/b@v1", SHA)];
    assert_eq!(
        rewrite("on: push\r\n- uses: a/b@v1\r\n- uses: c/d@v2\r\n", &entries),
        format!("on: push\r\n- uses: a/b@{} # v1\r\n- uses: c/d@v2\r\n", SHA)
    );
    assert_eq!(
        rewrite("- uses: a/b@v1 # note\r", &entries),
        format!("- uses: a/b@{} # v1\r", SHA)
    );
    assert_eq!(rewrite("a\rb\r\n\r", &entries), "a\rb\r\n\r");
}

#[test]
fn rewrite_without_pins_gives_the_text_back() {
    let text = "name: CI\r\n\n  - uses: a/b@v1   \n\t- uses: c/d@v2 # x\n\n";
    assert_eq!(rewrite(text, &[]), text);
    assert_eq!(rewrite(text, &[("e/f@v1", SHA)]), text);
    assert_eq!(rewrite(text, &[("a/b@v2", SHA), ("c/d@v1", SHA)]), text);
}

#[test]
fn rewrite_records_each_substitution_in_line_order() {
    let text = "- uses: c/d@v2\n- uses: x/y@v9\n- uses: a/b@v1\n- uses: c/d@v2\n";
    let file = workflow("dir/w.yml", text);
    let map = pins(&[("a/b@v1", SHA), ("c/d@v2", OLD)]);
    let mut records = Vec::new();
    rewrite_text(&file, &map, &mut records);
    let seen: Vec<(&str, &str, &str, &str)> = records
        .iter()
        .map(|r| (r.file.as_str(), r.action.as_str(), r.old_ref.as_str(), r.sha.as_str()))
        .collect();
    assert_eq!(
        seen,
        vec![
            ("dir/w.yml", "c/d", "v2", OLD),
            ("dir/w.yml", "a/b", "v1", SHA),
            ("dir/w.yml", "c/d", "v2", OLD),
        ]
    );
    rewrite_text(&file, &map, &mut records);
    assert_eq!(records.len(), 6);
}

#[test]
fn pinned_map_keeps_the_last_entry_of_a_reference() {
    let mut map = PinnedMap::new();
    assert!(map.get("a/b@v1").is_none());
    map.insert(PinnedAction::new(ActionRef::parse("a/b@v1").unwrap(), SHA.to_string()));
    map.insert(PinnedAction::new(ActionRef::parse("a/b@v1").unwrap(), OLD.to_string()));
    let pinned = map.get("a/b@v1").unwrap();
    assert_eq!(pinned.sha, OLD);
    assert_eq!(pinned.original_ref, "v1");
    assert!(map.get("a/b@v2").is_none());
    assert!(map.get("a/b").is_none());

    let outcomes = vec![resolved("a/b@v1", SHA), resolved("a/b@v1", OLD)];
    let (_, rewrites) =
        processor(false, false).process(&vec![workflow("w.yml", "- uses: a/b@v1")], 0, &outcomes);
    assert_eq!(rewrites[0].content, format!("- uses: a/b@{} # v1", OLD));
}

#[test]
fn backup_goes_beside_the_file() {
    let file = workflow(".github/workflows/ci.yml", "- uses: a/b@v1\n");
    let map = pins(&[("a/b@v1", SHA)]);
    let mut records = Vec::new();

    let rewrite = processor(false, true).rewrite_workflow(&file, &map, &mut records);
    assert!(rewrite.write);
    assert_eq!(rewrite.backup_path, Some(".github/workflows/ci.yml.bak".to_string()));
    assert_eq!(rewrite.path, ".github/workflows/ci.yml");
    assert_eq!(rewrite.substitutions, 1);

    let rewrite = processor(false, false).rewrite_workflow(&file, &map, &mut records);
    assert!(rewrite.write);
    assert_eq!(rewrite.backup_path, None);

    let rewrite = processor(true, true).rewrite_workflow(&file, &map, &mut records);
    assert!(!rewrite.write);
    assert_eq!(rewrite.backup_path, None);
    assert_eq!(rewrite.content, format!("- uses: a/b@{} # v1\n", SHA));
    assert_eq!(records.len(), 3);
}

#[test]
fn unreadable_files_are_errors_and_nothing_else() {
    let sources = vec![
        source("a.yml", "- uses: a/b@v1\n"),
        SourceFile { path: "broken.yml".to_string(), content: None },
        source("c.yml", ""),
        SourceFile { path: "gone.yml".to_string(), content: None },
    ];
    let (workflows, unreadable) = WorkflowProcessor::parse_workflows(sources);
    assert_eq!(unreadable, 2);
    let paths: Vec<&str> = workflows.iter().map(|w| w.path.as_str()).collect();
    assert_eq!(paths, vec!["a.yml", "c.yml"]);
    assert_eq!(workflows[0].actions.len(), 1);

    let outcomes = vec![resolved("a/b@v1", SHA)];
    let (results, rewrites) = processor(false, false).process(&workflows, unreadable, &outcomes);
    assert_eq!(rewrites.len(), 2);
    assert_eq!(results.files_processed, 2);
    assert_eq!(results.errors, 2);
    assert_eq!(results.actions_pinned, 1);
    assert_eq!(results.exit_code(), 1);
}

#[test]
fn nothing_found_nothing_done() {
    let (workflows, unreadable) = WorkflowProcessor::parse_workflows(Vec::new());
    assert!(workflows.is_empty());
    assert_eq!(unreadable, 0);
    let (results, rewrites) = processor(false, false).process(&workflows, 0, &Vec::new());
    assert!(rewrites.is_empty());
    assert_eq!(results.files_processed, 0);
    assert_eq!(results.actions_found, 0);
    assert_eq!(results.actions_pinned, 0);
    assert_eq!(results.already_pinned, 0);
    assert_eq!(results.errors, 0);
    assert_eq!(results.exit_code(), 0);
    assert_eq!(results.verdict(false), Verdict::NothingToPin);
}

#[test]
fn failed_write_takes_its_pins_back() {
    let workflows = vec![workflow("a.yml", "- uses: a/b@v1\n- uses: a/b@v1\n"), workflow("b.yml", "- uses: a/b@v1\n")];
    let outcomes = vec![resolved("a/b@v1", SHA)];
    let (mut results, rewrites) = processor(false, false).process(&workflows, 0, &outcomes);
    assert_eq!(results.actions_pinned, 3);
    results.write_failed(&rewrites[0]);
    assert_eq!(results.actions_pinned, 1);
    assert_eq!(results.errors, 1);
    assert_eq!(results.pinned_actions.len(), 3);
    assert_eq!(results.files_processed, 2);
    assert_eq!(results.exit_code(), 1);
    results.write_failed(&rewrites[1]);
    assert_eq!(results.actions_pinned, 0);
    assert_eq!(results.errors, 2);
    assert_eq!(results.verdict(false), Verdict::NothingToPin);
}

#[test]
fn summary_shows_the_five_counts() {
    let results = ProcessResults {
        files_processed: 3,
        actions_found: 7,
        actions_pinned: 4,
        already_pinned: 2,
        errors: 0,
        pinned_actions: Vec::new(),
    };
    let rows = results.summary_rows();
    let shown: Vec<(&str, usize, Tone)> =
        rows.iter().map(|r| (r.label.as_str(), r.value, r.tone)).collect();
    assert_eq!(
        shown,
        vec![
            ("Files processed:", 3, Tone::Plain),
            ("Actions found:", 7, Tone::Plain),
            ("Actions pinned:", 4, Tone::Good),
            ("Already pinned:", 2, Tone::Plain),
            ("Errors:", 0, Tone::Good),
        ]
    );
    let failed = ProcessResults { errors: 1, ..results };
    assert_eq!(failed.summary_rows()[4].tone, Tone::Bad);
    assert_eq!(failed.exit_code(), 1);
}

#[test]
fn verdict_goes_by_dry_run_first() {
    let mut results = ProcessResults {
        files_processed: 1,
        actions_found: 1,
        actions_pinned: 1,
        already_pinned: 0,
        errors: 5,
        pinned_actions: Vec::new(),
    };
    assert_eq!(results.verdict(true), Verdict::DryRun);
    assert_eq!(results.verdict(false), Verdict::Pinned);
    results.actions_pinned = 0;
    assert_eq!(results.verdict(true), Verdict::DryRun);
    assert_eq!(results.verdict(false), Verdict::NothingToPin);
    assert_eq!(Verdict::DryRun.message(), "Dry run mode - no files were modified");
    assert_eq!(
        Verdict::Pinned.message(),
        "All unpinned actions have been pinned to commit SHAs"
    );
    assert_eq!(Verdict::NothingToPin.message(), "No actions needed pinning");
}

#[test]
fn workflow_files_go_by_their_extension() {
    for name in ["ci.yml", "test.yaml", "a.b.yml", "..yml", "x.yaml", ".github.yml"] {
        assert!(is_workflow_file(name), "{:?}", name);
    }
    for name in [
        "readme.md", "yml", "yaml", ".yml", ".yaml", "ci.yml.bak", "ci.YML", "ci.yml ", "ciyml",
        "ci.yaml.", "", "ci.yl", "ci.aml",
    ] {
        assert!(!is_workflow_file(name), "{:?}", name);
    }
}

#[test]
fn settings_are_kept() {
    let settings = WorkflowProcessor::new(PathBuf::from("w"), true, false, true, 3);
    assert_eq!(settings.workflows_dir, PathBuf::from("w"));
    assert!(settings.dry_run);
    assert!(!settings.backup);
    assert_eq!(settings.concurrency, 3);
}

#[test]
fn whole_run_against_a_remote() {
    let one = "steps:\n  - uses: actions/checkout@v4\n  - uses: actions/cache@nightly\n";
    let two = format!("steps:\n  - uses: actions/checkout@v4\n  - uses: x/y@{}\n", OLD);
    let (workflows, unreadable) =
        WorkflowProcessor::parse_workflows(vec![source("one.yml", one), source("two.yml", &two)]);
    let settings = processor(false, true);
    let mut resolver = GitResolver::new();
    let mut batch =
        resolver.batch_resolve(WorkflowProcessor::collect_unpinned(&workflows), settings.concurrency);
    let mut asked = Vec::new();
    while let Some(lookup) = batch.next_lookup(&resolver) {
        asked.push((lookup.index, lookup.url, lookup.reference));
    }
    assert_eq!(
        asked,
        vec![
            (0, "https://github.com/actions/checkout.git".to_string(), "v4".to_string()),
            (1, "https://github.com/actions/cache.git".to_string(), "nightly".to_string()),
        ]
    );
    let checkout = Listing::Heads(vec![
        RemoteHead { name: "HEAD".to_string(), oid: OLD.to_string() },
        RemoteHead { name: "refs/tags/v4".to_string(), oid: SHA.to_string() },
    ]);
    assert!(batch.complete(&mut resolver, 1, &Listing::Unreachable));
    assert!(batch.complete(&mut resolver, 0, &checkout));
    let outcomes = batch.finish().unwrap();

    let (results, rewrites) = settings.process(&workflows, unreadable, &outcomes);
    assert_eq!(
        rewrites[0].content,
        format!("steps:\n  - uses: actions/checkout@{} # v4\n  - uses: actions/cache@nightly\n", SHA)
    );
    assert_eq!(
        rewrites[1].content,
        format!("steps:\n  - uses: actions/checkout@{} # v4\n  - uses: x/y@{}\n", SHA, OLD)
    );
    assert_eq!(rewrites[1].backup_path, Some("two.yml.bak".to_string()));
    assert_eq!(results.files_processed, 2);
    assert_eq!(results.actions_found, 4);
    assert_eq!(results.actions_pinned, 2);
    assert_eq!(results.already_pinned, 1);
    assert_eq!(results.errors, 1);
    assert_eq!(results.exit_code(), 1);
    let unused: Option<&Rewrite> = rewrites.get(2);
    assert!(unused.is_none());
}

#[test]
fn rewrite_touches_only_the_lines_it_pins() {
    let pieces = [
        "- uses: a/b@v1", "  uses: c/d@v2 # x", "name: CI", "", "\r", "- uses: ./l@v1", "run: |",
        "- uses: a/b@8f4b7f84864484a7bf31766abe9204da3cbe65b3",
    ];
    let entries = [("a/b@v1", SHA)];
    let mut state: u64 = 0x9e3779b97f4a7c15;
    for _ in 0..2000 {
        let mut lines = Vec::new();
        state = state.wrapping_mul(6364136223846793005).wrapping_add(1442695040888963407);
        let count = (state >> 33) % 7;
        for _ in 0..count {
            state = state.wrapping_mul(6364136223846793005).wrapping_add(1442695040888963407);
            lines.push(pieces[((state >> 33) % pieces.len() as u64) as usize]);
        }
        let text = lines.join("\n");
        assert_eq!(rewrite(&text, &[]), text);
        let after = rewrite(&text, &entries);
        let expected: Vec<String> = text
            .split('\n')
            .map(|line| {
                if line == "- uses: a/b@v1" {
                    format!("- uses: a/b@{} # v1", SHA)
                } else {
                    line.to_string()
                }
            })
            .collect();
        assert_eq!(after, expected.join("\n"), "{:?}", text);
        assert_eq!(after.ends_with('\n'), text.ends_with('\n'));
        assert_eq!(rewrite(&after, &entries), after);
    }
}

#[test]
fn test_process_empty_directory() {
    let processor = WorkflowProcessor::new(PathBuf::from("workflows"), false, false, true, 10);
    let (workflows, unreadable) = WorkflowProcessor::parse_workflows(Vec::new());

    let (results, _) = processor.process(&workflows, unreadable, &Vec::new());
    assert_eq!(results.files_processed, 0);
}

#[test]
fn test_find_workflow_files() {
    let files: Vec<&str> = ["ci.yml", "test.yaml", "readme.md"]
        .into_iter()
        .filter(|name| is_workflow_file(name))
        .collect();
    assert_eq!(files.len(), 2);
}
