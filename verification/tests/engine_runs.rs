use oxihtml::engine::{
    executions_for, json_obj_get, merge_summaries, run_serializer_suite, run_tokenizer_suite,
    run_tree_chunk, run_tree_file, tree_read_failure, unimplemented_failure, SuiteFile, Summary,
    TreeFile,
};
use oxihtml::html5lib::{parse_json, Json, JsonMember, ScriptDirective};

// a fixture whose only case has an empty expected tree: the placeholder
// parser's output, so the case passes under both scripting modes
const PASSING: &str = "#data\n<p>\n#errors\n#document\n\n";
// a fixture whose case expects a real tree: the placeholder parser fails it
const FAILING: &str = "#data\n<p>\n#errors\n#document\n| <html>\n";

#[test]
fn script_directive_both_runs_twice() {
    let both = executions_for(&ScriptDirective::Both);
    assert_eq!(both.len(), 2);
    assert_eq!(both[0], (true, "on".to_string()));
    assert_eq!(both[1], (false, "off".to_string()));
    assert_eq!(executions_for(&ScriptDirective::On), vec![(true, "on".to_string())]);
    assert_eq!(executions_for(&ScriptDirective::Off), vec![(false, "off".to_string())]);

    let s = run_tree_file("f.dat", FAILING, 10, false);
    assert_eq!(s.total, 2);
    assert_eq!(s.failed, 2);
    assert_eq!(s.failures.len(), 2);
    assert_eq!(s.failures[0].script, "on");
    assert_eq!(s.failures[1].script, "off");
}

#[test]
fn run_tree_file_counts_and_records() {
    let content = format!("{}{}", PASSING, FAILING);
    let s = run_tree_file("t.dat", &content, 10, false);
    assert_eq!(s.total, 4);
    assert_eq!(s.passed, 2);
    assert_eq!(s.failed, 2);
    assert_eq!(s.total, s.passed + s.failed);
    assert_eq!(s.failures.len(), 2);
    assert_eq!(s.failures[0].file, "t.dat");
    assert_eq!(s.failures[0].case_index, 1);
    assert_eq!(s.failures[0].input, "<p>");
    assert_eq!(s.failures[0].expected, "| <html>");
    assert_eq!(s.failures[0].actual, "");
}

#[test]
fn run_tree_file_fail_fast_stops_after_first_failing_case() {
    // both executions of the failing scripting-Both case still run —
    // fail-fast only stops the cases that follow
    let content = format!("{}{}", FAILING, FAILING);
    let s = run_tree_file("t.dat", &content, 10, true);
    assert_eq!(s.total, 2);
    assert_eq!(s.failed, 2);
    assert_eq!(s.failures.len(), 2);
    assert_eq!(s.failures[0].script, "on");
    assert_eq!(s.failures[1].script, "off");
    assert_eq!(s.failures[1].case_index, 0);

    // a failing script-on case contributes its single execution
    let one_mode = "#data\n<p>\n#errors\n#script-on\n#document\n| <html>\n";
    let content2 = format!("{}{}", one_mode, FAILING);
    let s2 = run_tree_file("t.dat", &content2, 10, true);
    assert_eq!(s2.total, 1);
    assert_eq!(s2.failed, 1);
}

#[test]
fn worker_count_does_not_change_totals() {
    let file = |name: &str, content: &str| TreeFile {
        path: name.to_string(),
        rel: name.to_string(),
        content: Ok(content.to_string()),
    };
    let make = || {
        vec![
            file("a.dat", PASSING),
            file("b.dat", FAILING),
            file("c.dat", PASSING),
            file("d.dat", FAILING),
        ]
    };

    // one worker
    let one = run_tree_chunk(&make(), 20, false);
    let merged_one = merge_summaries(vec![one], 20);

    // two workers over the same files, split in the middle
    let all = make();
    let (left, right) = all.split_at(2);
    let s1 = run_tree_chunk(&clone_files(left), 20, false);
    let s2 = run_tree_chunk(&clone_files(right), 20, false);
    let merged_two = merge_summaries(vec![s1, s2], 20);

    // one worker per file
    let parts: Vec<Summary> = make()
        .into_iter()
        .map(|f| run_tree_chunk(&vec![f], 20, false))
        .collect();
    let merged_each = merge_summaries(parts, 20);

    for m in [&merged_one, &merged_two, &merged_each] {
        assert_eq!(m.total, 8);
        assert_eq!(m.passed, 4);
        assert_eq!(m.failed, 4);
        assert_eq!(m.total, m.passed + m.failed);
        assert_eq!(m.failures.len(), 4);
        assert_eq!(m.failures[0].file, "b.dat");
        assert_eq!(m.failures[2].file, "d.dat");
    }
}

fn clone_files(files: &[TreeFile]) -> Vec<TreeFile> {
    files
        .iter()
        .map(|f| TreeFile {
            path: f.path.clone(),
            rel: f.rel.clone(),
            content: f.content.clone(),
        })
        .collect()
}

#[test]
fn merged_failure_list_never_exceeds_cap() {
    let file = |name: &str| TreeFile {
        path: name.to_string(),
        rel: name.to_string(),
        content: Ok(FAILING.to_string()),
    };
    for workers in [1usize, 3, 6] {
        let files: Vec<TreeFile> = (0..6).map(|i| file(&format!("f{i}.dat"))).collect();
        let chunk_size = files.len().div_ceil(workers);
        let mut parts = Vec::new();
        for chunk in files.chunks(chunk_size) {
            parts.push(run_tree_chunk(&clone_files(chunk), 3, false));
        }
        let merged = merge_summaries(parts, 3);
        assert!(merged.failures.len() <= 3);
        assert_eq!(merged.failures.len(), 3);
    }
    // fail-fast still respects the cap
    let files: Vec<TreeFile> = (0..4).map(|i| file(&format!("g{i}.dat"))).collect();
    let s = run_tree_chunk(&files, 2, true);
    let merged = merge_summaries(vec![s], 2);
    assert!(merged.failures.len() <= 2);
}

#[test]
fn unreadable_tree_file_is_one_counted_failure() {
    let files = vec![TreeFile {
        path: "/root/x.dat".to_string(),
        rel: "x.dat".to_string(),
        content: Err("permission denied".to_string()),
    }];
    let s = run_tree_chunk(&files, 10, false);
    assert_eq!(s.total, 1);
    assert_eq!(s.failed, 1);
    assert_eq!(s.failures[0].file, "/root/x.dat");
    assert_eq!(
        s.failures[0].input,
        "(failed to read/parse .dat: permission denied)"
    );
    let alone = tree_read_failure(&"p".to_string(), &"gone".to_string());
    assert_eq!(alone.total, 1);
    assert_eq!(alone.failures[0].input, "(failed to read/parse .dat: gone)");
}

#[test]
fn tokenizer_suite_counts_variants_as_failures() {
    let json = br#"{"tests": [
        {"input": "ab", "initialStates": ["s1", "s2", "s3"]},
        {"input": "cd"}
    ]}"#;
    let files = vec![SuiteFile {
        rel: "tok.test".to_string(),
        content: Ok(json.to_vec()),
    }];
    let s = run_tokenizer_suite(&files, 10, false);
    assert_eq!(s.total, 4);
    assert_eq!(s.failed, 4);
    assert_eq!(s.passed, 0);
    assert_eq!(s.failures.len(), 4);
    assert_eq!(s.failures[0].input, "ab");
    assert_eq!(s.failures[3].input, "cd");
    assert_eq!(s.failures[3].case_index, 1);
    assert_eq!(s.failures[0].script, "n/a");
    assert_eq!(s.failures[0].expected, "(implemented parser output)");
    assert_eq!(s.failures[0].actual, "(unimplemented)");

    // fail-fast stops after the first variant
    let s2 = run_tokenizer_suite(&files, 10, true);
    assert_eq!(s2.total, 1);
}

#[test]
fn serializer_suite_and_bad_files() {
    let good = br#"{"tests": [{"description": "first"}, {"description": "second"}]}"#;
    let files = vec![
        SuiteFile {
            rel: "a.test".to_string(),
            content: Ok(good.to_vec()),
        },
        SuiteFile {
            rel: "bad.test".to_string(),
            content: Ok(b"{nope".to_vec()),
        },
        SuiteFile {
            rel: "arr.test".to_string(),
            content: Ok(b"[1]".to_vec()),
        },
        SuiteFile {
            rel: "none.test".to_string(),
            content: Ok(b"{}".to_vec()),
        },
        SuiteFile {
            rel: "io.test".to_string(),
            content: Err("no such file".to_string()),
        },
    ];
    let s = run_serializer_suite(&files, 10, false);
    assert_eq!(s.total, 6);
    assert_eq!(s.failed, 6);
    assert_eq!(s.failures[0].input, "first");
    assert_eq!(s.failures[1].input, "second");
    assert!(s.failures[2].input.starts_with("JSON parse error: "));
    assert_eq!(s.failures[3].input, "top-level JSON is not an object");
    assert_eq!(s.failures[4].input, "missing top-level tests array");
    assert_eq!(s.failures[5].input, "read error: no such file");
}

#[test]
fn json_obj_get_takes_first_match() {
    let json = parse_json(b"{\"a\": 1, \"b\": 2, \"a\": 3}").unwrap();
    let obj: Vec<JsonMember> = match json {
        Json::Object(obj) => obj,
        _ => panic!("expected object"),
    };
    assert_eq!(json_obj_get(&obj, "a"), Some(&Json::Number(1)));
    assert_eq!(json_obj_get(&obj, "b"), Some(&Json::Number(2)));
    assert_eq!(json_obj_get(&obj, "missing"), None);

    let f = unimplemented_failure("f".to_string(), 7, "n/a", "in".to_string());
    assert_eq!(f.case_index, 7);
    assert_eq!(f.expected, "(implemented parser output)");
    assert_eq!(f.actual, "(unimplemented)");
}

#[test]
fn sort_paths_orders_lexicographically_and_keeps_duplicates() {
    let v: Vec<String> = ["b/２.dat", "a/1.dat", "b/1.dat", "a/1.dat", "A.dat"]
        .iter()
        .map(|s| s.to_string())
        .collect();
    let sorted = oxihtml::engine::sort_paths(v);
    assert_eq!(
        sorted,
        vec![
            "A.dat".to_string(),
            "a/1.dat".to_string(),
            "a/1.dat".to_string(),
            "b/1.dat".to_string(),
            "b/２.dat".to_string(),
        ]
    );
}
