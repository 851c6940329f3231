use vimsnitch::matched::MatchedLine;
use vimsnitch::pipeline::{assign_identifiers, build_batch, plan_submission, rewrite_contents};
use vimsnitch::scanner::scan_file;

fn m(line_num: usize, payload: &str) -> MatchedLine {
    MatchedLine::new(line_num, payload)
}

#[test]
fn batch_is_sorted_by_file_then_line() {
    let results = vec![
        ("b.rs".to_string(), vec![m(3, "t3")]),
        ("a.rs".to_string(), vec![m(1, "t1"), m(5, "t5")]),
    ];
    let batch = build_batch(&results);
    let keys: Vec<(String, usize)> =
        batch.iter().map(|l| (l.file.clone(), l.line_num)).collect();
    assert_eq!(
        keys,
        vec![
            ("a.rs".to_string(), 1),
            ("a.rs".to_string(), 5),
            ("b.rs".to_string(), 3),
        ]
    );
}

#[test]
fn batch_is_independent_of_result_arrival_order() {
    let forward = vec![
        ("a.rs".to_string(), vec![m(1, "t1"), m(5, "t5")]),
        ("b.rs".to_string(), vec![m(3, "t3")]),
    ];
    let reversed = vec![
        ("b.rs".to_string(), vec![m(3, "t3")]),
        ("a.rs".to_string(), vec![m(1, "t1"), m(5, "t5")]),
    ];
    let x = build_batch(&forward);
    let y = build_batch(&reversed);
    assert_eq!(x.len(), y.len());
    for (a, b) in x.iter().zip(y.iter()) {
        assert_eq!(a.file, b.file);
        assert_eq!(a.line_num, b.line_num);
        assert_eq!(a.payload, b.payload);
    }
}

#[test]
fn empty_batch_plans_no_submission() {
    let batch = build_batch(&vec![]);
    assert!(batch.is_empty());
    assert_eq!(plan_submission(&batch), None);
}

#[test]
fn submission_titles_follow_batch_order() {
    let results = vec![
        ("b.rs".to_string(), vec![m(2, "beta")]),
        ("a.rs".to_string(), vec![m(9, "alpha")]),
    ];
    let batch = build_batch(&results);
    let titles = plan_submission(&batch).unwrap();
    assert_eq!(titles, vec!["alpha".to_string(), "beta".to_string()]);
}

#[test]
fn short_identifier_list_aborts_the_run() {
    let results = vec![
        ("a.rs".to_string(), vec![m(1, "t1"), m(5, "t5")]),
        ("b.rs".to_string(), vec![m(3, "t3")]),
    ];
    let batch = build_batch(&results);
    let short = vec![100usize, 101usize];
    assert!(assign_identifiers(&batch, &short).is_err());
    let exact = vec![100usize, 101usize, 102usize];
    assert!(assign_identifiers(&batch, &exact).is_ok());
}

#[test]
fn identifiers_are_assigned_by_global_batch_position() {
    let results = vec![
        ("b.rs".to_string(), vec![m(3, "t3")]),
        ("a.rs".to_string(), vec![m(1, "t1"), m(5, "t5")]),
    ];
    let batch = build_batch(&results);
    let ids = vec![100usize, 101usize, 102usize];
    let jobs = assign_identifiers(&batch, &ids).unwrap();
    assert_eq!(jobs.len(), 2);
    assert_eq!(jobs[0].file, "a.rs".to_string());
    assert_eq!(jobs[0].pairs, vec![(1usize, 100usize), (5usize, 101usize)]);
    assert_eq!(jobs[1].file, "b.rs".to_string());
    assert_eq!(jobs[1].pairs, vec![(3usize, 102usize)]);
}

#[test]
fn rewrite_embeds_identifiers_at_the_recorded_lines() {
    let contents = "// TODO : one\ncode\n// TODO : two\n";
    let pairs = vec![(1usize, 100usize), (3usize, 101usize)];
    let rewritten = rewrite_contents(contents, &pairs);
    assert_eq!(rewritten, "// TODO(#100) : one\ncode\n// TODO(#101) : two\n");
}

#[test]
fn rewrite_copies_lines_verbatim_once_pairs_run_out() {
    let contents = "// TODO : one\n// TODO : stays\n";
    let pairs = vec![(1usize, 7usize)];
    let rewritten = rewrite_contents(contents, &pairs);
    assert_eq!(rewritten, "// TODO(#7) : one\n// TODO : stays\n");
}

#[test]
fn round_trip_leaves_no_unannotated_markers() {
    let contents = "fn f() {}\n// TODO : first\nlet y = 2; // TODO : second\n";
    let matches = scan_file(contents);
    assert_eq!(matches.len(), 2);
    let pairs: Vec<(usize, usize)> = matches
        .iter()
        .enumerate()
        .map(|(k, ml)| (ml.get_line_num(), 50 + k))
        .collect();
    let rewritten = rewrite_contents(contents, &pairs);
    assert_eq!(scan_file(&rewritten).len(), 0);
    let annotated = rewritten.matches("TODO(#").count();
    assert_eq!(annotated, 2);
}

#[test]
fn payload_holding_a_marker_survives_one_round() {
    // A payload that itself contains a marker keeps one scannable marker
    // after the rewrite: the round-trip guarantee holds only for payloads
    // free of marker occurrences.
    let contents = "// TODO : see // TODO : this\n";
    let matches = scan_file(contents);
    assert_eq!(matches.len(), 1);
    assert_eq!(matches[0].get_line(), "see // TODO : this".to_string());
    let rewritten = rewrite_contents(contents, &vec![(1usize, 9usize)]);
    assert_eq!(rewritten, "// TODO(#9) : see // TODO : this\n");
    assert_eq!(scan_file(&rewritten).len(), 1);
}

#[test]
fn ordering_invariant_with_sequential_identifiers() {
    // Simulates a run whose per-file scan results arrive in reversed order:
    // after the sort and the assignment, every marker's identifier is
    // 100 + its position in the (file, line)-sorted batch.
    let files = vec![
        ("z.rs".to_string(), "// TODO : z1\nx\n// TODO : z2\n".to_string()),
        ("a.rs".to_string(), "// TODO : a1\n".to_string()),
    ];
    let mut results: Vec<(String, Vec<MatchedLine>)> = Vec::new();
    // completion order: z.rs first, then a.rs
    for (name, contents) in files.iter() {
        results.push((name.clone(), scan_file(contents)));
    }
    let batch = build_batch(&results);
    let n = batch.len();
    let ids: Vec<usize> = (0..n).map(|k| 100 + k).collect();
    let jobs = assign_identifiers(&batch, &ids).unwrap();

    let mut rewritten = std::collections::HashMap::new();
    for job in jobs.iter() {
        let contents = files.iter().find(|(f, _)| *f == job.file).map(|(_, c)| c).unwrap();
        rewritten.insert(job.file.clone(), rewrite_contents(contents, &job.pairs));
    }
    // batch order is a.rs:1, z.rs:1, z.rs:3 -> ids 100, 101, 102
    assert_eq!(rewritten["a.rs"], "// TODO(#100) : a1\n");
    assert_eq!(rewritten["z.rs"], "// TODO(#101) : z1\nx\n// TODO(#102) : z2\n");
    for (_, contents) in rewritten.iter() {
        assert_eq!(scan_file(contents).len(), 0);
    }
}
