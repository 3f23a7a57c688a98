use git_analyser::complexity::calculate_heuristic_complexity;
use git_analyser::folders::{
    folder_complexities, folder_ownership, walk_folder_complexities, wanted_source, BlameHunk, FileBlame,
    SourceFile, WalkedFile,
};
use git_analyser::history::{
    analyze_commits, author_hotspots, hotspots, summarize_diff, CommitRecord, DiffLine,
    HistoryChunk, MAX_TIMESTAMP, MIN_TIMESTAMP,
};
use git_analyser::paths::{folder_keys_of, is_excluded_path, is_source_file, relative_path};
use git_analyser::table::{CountTable, NestedTable};

fn s(x: &str) -> String {
    x.to_string()
}

fn line(path: &str, origin: char) -> DiffLine {
    DiffLine { path: Some(s(path)), origin }
}

fn record(hash: &str, author: Option<&str>, timestamp: i64, diff: Vec<DiffLine>, base: Option<i64>) -> CommitRecord {
    CommitRecord {
        hash: s(hash),
        author: author.map(s),
        timestamp,
        diff,
        merge_base_timestamp: base,
    }
}

// ---------------------------------------------------------------- complexity

#[test]
fn complexity_counts_operators_and_keywords() {
    assert_eq!(calculate_heuristic_complexity("if (a && b) { x }"), 2);
    assert_eq!(calculate_heuristic_complexity("a ? b : c"), 1);
    assert_eq!(calculate_heuristic_complexity("x || y || z && w"), 3);
    assert_eq!(calculate_heuristic_complexity("a?.b ?? c"), 3);
    assert_eq!(calculate_heuristic_complexity("switch (c) { case 1: break; case 2: }"), 3);
    assert_eq!(calculate_heuristic_complexity("try {} catch (e) {}"), 1);
    assert_eq!(calculate_heuristic_complexity("if(x) {} else if(y) {}"), 2);
}

#[test]
fn complexity_matches_are_not_overlapping() {
    assert_eq!(calculate_heuristic_complexity("x &&& y"), 1);
    assert_eq!(calculate_heuristic_complexity("&&&&"), 2);
}

#[test]
fn complexity_needs_whole_words() {
    assert_eq!(calculate_heuristic_complexity("match x"), 1);
    assert_eq!(calculate_heuristic_complexity("matches for_each iffy"), 0);
}

#[test]
fn complexity_of_empty_text_is_zero() {
    assert_eq!(calculate_heuristic_complexity(""), 0);
    assert_eq!(calculate_heuristic_complexity("\n\n\n"), 0);
}

#[test]
fn complexity_skips_line_comments() {
    assert_eq!(calculate_heuristic_complexity("// if while"), 0);
    assert_eq!(calculate_heuristic_complexity("for x // if && y"), 1);
}

#[test]
fn complexity_skips_block_comments_across_lines() {
    assert_eq!(calculate_heuristic_complexity("/*\n if x\n*/ while y // for\nfor z"), 2);
}

#[test]
fn complexity_block_comment_opened_on_a_line_hides_the_rest() {
    // The opening line is cut at `/*` and the comment stays open until a
    // later line holds `*/`.
    assert_eq!(calculate_heuristic_complexity("/* if */ for\nwhile x"), 0);
    assert_eq!(calculate_heuristic_complexity("if /* a\nb */ if\nif"), 3);
}

#[test]
fn complexity_handles_crlf_and_indentation() {
    assert_eq!(calculate_heuristic_complexity("fn f() {\r\n    if a || b { }\r\n}\r\n"), 2);
    assert_eq!(calculate_heuristic_complexity("  \t if  "), 1);
}

#[test]
fn complexity_never_exceeds_length() {
    for text in ["?", "??", "&&", "if", "if?", "?????&&||"] {
        assert!(calculate_heuristic_complexity(text) <= text.chars().count());
    }
}

// ---------------------------------------------------------------- paths

#[test]
fn folder_keys_list_every_parent() {
    assert_eq!(folder_keys_of("src/a/b.rs"), vec![s("src/a"), s("src"), s(".")]);
    assert_eq!(folder_keys_of("b.rs"), vec![s(".")]);
    assert_eq!(folder_keys_of(""), vec![s(".")]);
    assert_eq!(folder_keys_of("/abs/x.rs"), vec![s("/abs"), s("/")]);
}

#[test]
fn folder_keys_count_current_dir_twice() {
    assert_eq!(folder_keys_of("./a.rs"), vec![s("."), s(".")]);
}

#[test]
fn excluded_paths_hold_dot_git() {
    assert!(is_excluded_path("./.git/config"));
    assert!(is_excluded_path("repo/.github/workflows"));
    assert!(!is_excluded_path("src/main.rs"));
    assert!(!is_excluded_path(""));
}

#[test]
fn source_files_by_extension() {
    for p in ["a.rs", "x/y.cs", "b.js", "c.ts", "d.jsx", "e.tsx"] {
        assert!(is_source_file(p), "{p}");
    }
    for p in ["a.py", "a.RS", ".rs", "rs", "a.rs.bak", "dir/"] {
        assert!(!is_source_file(p), "{p}");
    }
}

// ---------------------------------------------------------------- tables

#[test]
fn count_table_adds_and_merges() {
    let mut t = CountTable::new();
    t.add(&s("a"), 2);
    t.add(&s("b"), 1);
    t.add(&s("a"), 3);
    assert_eq!(t.get(&s("a")), 5);
    assert_eq!(t.get(&s("b")), 1);
    assert_eq!(t.get(&s("c")), 0);
    assert_eq!(t.len(), 2);
    let mut u = CountTable::new();
    u.add(&s("c"), 4);
    u.add(&s("a"), 1);
    assert!(t.can_merge(&u));
    t.merge(&u);
    assert_eq!(t.get(&s("a")), 6);
    assert_eq!(t.get(&s("c")), 4);
    assert_eq!(t.ranked(), vec![(s("a"), 6), (s("c"), 4), (s("b"), 1)]);
    let mut big = CountTable::new();
    big.add(&s("a"), usize::MAX);
    assert!(!t.can_merge(&big));
    assert!(big.can_merge(&u) == false);
}

#[test]
fn count_table_finds_every_key_among_many() {
    let mut t = CountTable::new();
    for i in 0..500usize {
        t.add(&format!("src/file_{i}.rs"), i + 1);
    }
    for i in 0..500usize {
        t.add(&format!("src/file_{i}.rs"), 1);
    }
    assert_eq!(t.len(), 500);
    for i in 0..500usize {
        assert_eq!(t.get(&format!("src/file_{i}.rs")), i + 2);
    }
    assert_eq!(t.get(&s("src/file_500.rs")), 0);
    let ranked = t.ranked();
    assert_eq!(ranked[0], (s("src/file_499.rs"), 501));
    assert_eq!(ranked[499], (s("src/file_0.rs"), 2));
}

#[test]
fn nested_table_finds_every_outer_key_among_many() {
    let mut t = NestedTable::new();
    for i in 0..300usize {
        t.add(&format!("author {i}"), &s("f"), i);
        t.add(&format!("author {i}"), &s("g"), 1);
    }
    assert_eq!(t.len(), 300);
    for i in 0..300usize {
        assert_eq!(t.get(&format!("author {i}"), &s("f")), i);
        assert_eq!(t.get(&format!("author {i}"), &s("g")), 1);
    }
    assert_eq!(t.get(&s("author 300"), &s("f")), 0);
}

#[test]
fn ranking_keeps_table_order_for_ties() {
    let mut t = CountTable::new();
    t.add(&s("x"), 1);
    t.add(&s("y"), 2);
    t.add(&s("z"), 1);
    assert_eq!(t.ranked(), vec![(s("y"), 2), (s("x"), 1), (s("z"), 1)]);
}

#[test]
fn nested_table_adds_and_merges() {
    let mut t = NestedTable::new();
    t.add(&s("ann"), &s("f"), 1);
    t.add(&s("bob"), &s("f"), 2);
    t.add(&s("ann"), &s("f"), 1);
    assert_eq!(t.get(&s("ann"), &s("f")), 2);
    assert_eq!(t.get(&s("bob"), &s("f")), 2);
    assert_eq!(t.get(&s("bob"), &s("g")), 0);
    let mut u = NestedTable::new();
    u.add(&s("bob"), &s("g"), 7);
    assert!(t.can_merge(&u));
    t.merge(&u);
    assert_eq!(t.get(&s("bob"), &s("g")), 7);
    assert_eq!(t.len(), 2);
    let mut big = NestedTable::new();
    big.add(&s("bob"), &s("g"), usize::MAX);
    assert!(!t.can_merge(&big));
}

// ---------------------------------------------------------------- history

#[test]
fn diff_summary_counts_lines_and_distinct_files() {
    let diff = vec![
        line("a.rs", 'F'),
        line("a.rs", 'H'),
        line("a.rs", '+'),
        line("a.rs", '+'),
        line("a.rs", '-'),
        line("b.rs", '+'),
        DiffLine { path: None, origin: '-' },
        line("a.rs", ' '),
    ];
    let summary = summarize_diff(&diff);
    assert_eq!(summary.lines_added, 3);
    assert_eq!(summary.lines_deleted, 2);
    assert_eq!(summary.files, vec![s("a.rs"), s("b.rs")]);
}

#[test]
fn commit_metrics_have_rfc3339_dates() {
    let records = vec![
        record("c1", Some("ann"), 0, vec![line("a.rs", '+')], None),
        record("c2", None, 1_700_000_000, vec![], None),
        record("c3", Some("bob"), MAX_TIMESTAMP, vec![], None),
        record("c4", Some("bob"), MIN_TIMESTAMP, vec![], None),
    ];
    let chunk = analyze_commits(&records);
    assert_eq!(chunk.commits.len(), 4);
    assert_eq!(chunk.commits[0].hash, "c1");
    assert_eq!(chunk.commits[0].author, "ann");
    assert_eq!(chunk.commits[0].date, "1970-01-01T00:00:00+00:00");
    assert_eq!(chunk.commits[0].lines_added, 1);
    assert_eq!(chunk.commits[0].lines_deleted, 0);
    assert_eq!(chunk.commits[1].author, "Unknown");
    assert_eq!(chunk.commits[1].timestamp, 1_700_000_000);
    assert_eq!(chunk.commits[1].date, "2023-11-14T22:13:20+00:00");
    assert_eq!(chunk.commits[2].date, "+262142-12-31T23:59:59+00:00");
    assert_eq!(chunk.commits[3].date, "-262143-01-01T00:00:00+00:00");
}

#[test]
fn branch_lifespans_come_from_merge_commits() {
    let records = vec![
        record("m1", Some("ann"), 1000, vec![], Some(400)),
        record("c1", Some("bob"), 900, vec![], None),
        record("m2", None, 50, vec![], Some(80)),
    ];
    let chunk = analyze_commits(&records);
    assert_eq!(chunk.branch_lifespans.len(), 2);
    assert_eq!(chunk.branch_lifespans[0].merge_commit, "m1");
    assert_eq!(chunk.branch_lifespans[0].author, "ann");
    assert_eq!(chunk.branch_lifespans[0].duration_seconds, 600);
    assert_eq!(chunk.branch_lifespans[1].merge_commit, "m2");
    assert_eq!(chunk.branch_lifespans[1].author, "Unknown");
    assert_eq!(chunk.branch_lifespans[1].duration_seconds, -30);
}

fn sample_history() -> Vec<CommitRecord> {
    vec![
        record("c1", Some("ann"), 10, vec![line("a.rs", '+'), line("a.rs", '+'), line("b.rs", '-')], None),
        record("c2", Some("bob"), 20, vec![line("a.rs", '+')], None),
        record("c3", Some("ann"), 30, vec![line("c.rs", '+'), line("a.rs", '-')], None),
        record("c4", None, 40, vec![], None),
    ]
}

#[test]
fn hotspots_rank_files_by_commits() {
    let chunk = analyze_commits(&sample_history());
    let global = hotspots(&chunk.global_file_mods);
    let pairs: Vec<(String, usize)> = global.iter().map(|h| (h.file_path.clone(), h.modifications)).collect();
    assert_eq!(pairs, vec![(s("a.rs"), 3), (s("b.rs"), 1), (s("c.rs"), 1)]);
    let per_author = author_hotspots(&chunk.author_file_mods);
    assert_eq!(per_author.len(), 2);
    assert_eq!(per_author[0].author, "ann");
    let ann: Vec<(String, usize)> =
        per_author[0].hotspots.iter().map(|h| (h.file_path.clone(), h.modifications)).collect();
    assert_eq!(ann, vec![(s("a.rs"), 2), (s("b.rs"), 1), (s("c.rs"), 1)]);
    assert_eq!(per_author[1].author, "bob");
    assert_eq!(per_author[1].hotspots.len(), 1);
    assert_eq!(per_author[1].hotspots[0].modifications, 1);
}

#[test]
fn chunked_analysis_equals_whole_analysis() {
    let whole = analyze_commits(&sample_history());
    let mut first = sample_history();
    let third = first.split_off(3);
    let second = first.split_off(1);
    let mut merged = HistoryChunk::new();
    for piece in [first, second, third] {
        let part = analyze_commits(&piece);
        assert!(merged.can_merge(&part));
        merged.merge(part);
    }
    let hashes = |c: &HistoryChunk| c.commits.iter().map(|m| m.hash.clone()).collect::<Vec<_>>();
    assert_eq!(hashes(&merged), hashes(&whole));
    for path in ["a.rs", "b.rs", "c.rs", "d.rs"] {
        assert_eq!(merged.global_file_mods.get(&s(path)), whole.global_file_mods.get(&s(path)));
        for author in ["ann", "bob", "Unknown"] {
            assert_eq!(
                merged.author_file_mods.get(&s(author), &s(path)),
                whole.author_file_mods.get(&s(author), &s(path))
            );
        }
    }
}

#[test]
fn author_counts_stay_within_global_counts() {
    let chunk = analyze_commits(&sample_history());
    for path in ["a.rs", "b.rs", "c.rs"] {
        let global = chunk.global_file_mods.get(&s(path));
        assert!(global <= 4);
        let mut sum = 0;
        for author in ["ann", "bob", "Unknown"] {
            let count = chunk.author_file_mods.get(&s(author), &s(path));
            assert!(count <= global);
            sum += count;
        }
        assert_eq!(sum, global);
    }
}

// ---------------------------------------------------------------- folders

fn source(path: &str, content: &str) -> SourceFile {
    SourceFile { path: s(path), content: s(content) }
}

#[test]
fn folder_complexity_sums_over_parents() {
    let files = vec![
        source("src/a.rs", "if a && b {}"),
        source("src/ui/b.ts", "while (x) { y ? 1 : 2 }"),
        source("README.rs", "plain"),
        source("lib/c.js", "for (;;) {}"),
    ];
    let result = folder_complexities(&files).unwrap();
    let pairs: Vec<(String, usize)> = result.iter().map(|c| (c.folder_path.clone(), c.complexity_score)).collect();
    assert_eq!(pairs, vec![(s("."), 5), (s("src"), 4), (s("src/ui"), 2), (s("lib"), 1)]);
}

#[test]
fn folder_complexity_of_nothing_is_empty() {
    assert_eq!(folder_complexities(&vec![]).unwrap().len(), 0);
    assert_eq!(folder_complexities(&vec![source("a.rs", "x")]).unwrap().len(), 0);
}

fn hunk(author: Option<&str>, lines: usize) -> BlameHunk {
    BlameHunk { author: author.map(s), lines }
}

#[test]
fn folder_ownership_adds_lines_per_author() {
    let files = vec![
        FileBlame { path: s("src/a.rs"), hunks: vec![hunk(Some("ann"), 90), hunk(Some("bob"), 10)] },
        FileBlame { path: s("src/b.rs"), hunks: vec![hunk(Some("ann"), 100)] },
        FileBlame { path: s("doc/x.md"), hunks: vec![hunk(None, 5)] },
        FileBlame { path: s("empty.rs"), hunks: vec![] },
    ];
    let result = folder_ownership(&files).unwrap();
    let folders: Vec<(String, usize)> = result.iter().map(|f| (f.folder_path.clone(), f.total_lines)).collect();
    assert_eq!(folders, vec![(s("src"), 200), (s("."), 205), (s("doc"), 5)]);
    assert_eq!(result[0].author_lines, vec![(s("ann"), 190), (s("bob"), 10)]);
    assert_eq!(result[1].author_lines, vec![(s("ann"), 190), (s("bob"), 10), (s("Unknown"), 5)]);
    assert_eq!(result[2].author_lines, vec![(s("Unknown"), 5)]);
}

#[test]
fn folder_ownership_reports_overflow() {
    let files = vec![FileBlame { path: s("a.rs"), hunks: vec![hunk(Some("a"), usize::MAX), hunk(Some("b"), 1)] }];
    assert!(folder_ownership(&files).is_none());
    let files = vec![
        FileBlame { path: s("a.rs"), hunks: vec![hunk(Some("a"), usize::MAX)] },
        FileBlame { path: s("b.rs"), hunks: vec![hunk(Some("a"), 1)] },
    ];
    assert!(folder_ownership(&files).is_none());
    let files = vec![FileBlame { path: s("a.rs"), hunks: vec![hunk(Some("a"), usize::MAX)] }];
    assert_eq!(folder_ownership(&files).unwrap()[0].total_lines, usize::MAX);
}

#[test]
fn ownership_shares_never_exceed_the_total() {
    let files = vec![
        FileBlame { path: s("x/a.rs"), hunks: vec![hunk(Some("ann"), 3), hunk(Some("bob"), 4), hunk(Some("ann"), 2)] },
        FileBlame { path: s("x/y/b.rs"), hunks: vec![hunk(Some("cy"), 6)] },
    ];
    for folder in folder_ownership(&files).unwrap() {
        let sum: usize = folder.author_lines.iter().map(|(_, n)| n).sum();
        assert_eq!(sum, folder.total_lines);
        for (_, n) in &folder.author_lines {
            assert!(*n <= folder.total_lines);
        }
    }
}

// ---------------------------------------------------------------- settings

#[test]
fn default_settings() {
    let args = git_analyser::cli::Args::default();
    assert_eq!(args.port, 8080);
    assert_eq!(args.path, ".");
}

fn score_of(result: &[git_analyser::folders::FolderComplexity], folder: &str) -> usize {
    result.iter().find(|c| c.folder_path == folder).map(|c| c.complexity_score).unwrap_or(0)
}

#[test]
fn folder_scores_add_up_over_runs_of_files() {
    let make = || {
        vec![
            source("src/a.rs", "if a && b {}"),
            source("src/ui/b.ts", "while (x) { y ? 1 : 2 }"),
            source("lib/c.js", "for (;;) {}"),
        ]
    };
    let whole = folder_complexities(&make()).unwrap();
    let mut first = make();
    let second = first.split_off(1);
    let left = folder_complexities(&first).unwrap();
    let right = folder_complexities(&second).unwrap();
    for folder in [".", "src", "src/ui", "lib", "none"] {
        assert_eq!(score_of(&whole, folder), score_of(&left, folder) + score_of(&right, folder));
    }
}

fn lines_of(result: &[git_analyser::folders::FolderOwnership], folder: &str) -> usize {
    result.iter().find(|f| f.folder_path == folder).map(|f| f.total_lines).unwrap_or(0)
}

#[test]
fn folder_lines_add_up_over_runs_of_files() {
    let make = || {
        vec![
            FileBlame { path: s("x/a.rs"), hunks: vec![hunk(Some("ann"), 3), hunk(Some("bob"), 4)] },
            FileBlame { path: s("x/y/b.rs"), hunks: vec![hunk(Some("cy"), 6)] },
            FileBlame { path: s("z.rs"), hunks: vec![hunk(None, 2)] },
        ]
    };
    let whole = folder_ownership(&make()).unwrap();
    let mut first = make();
    let second = first.split_off(2);
    let left = folder_ownership(&first).unwrap();
    let right = folder_ownership(&second).unwrap();
    for folder in [".", "x", "x/y", "none"] {
        assert_eq!(lines_of(&whole, folder), lines_of(&left, folder) + lines_of(&right, folder));
    }
    assert_eq!(lines_of(&whole, "."), 15);
}

// ---------------------------------------------------------------- laws on concrete values

#[test]
fn complexity_adds_up_over_lines_without_block_comments() {
    let a = "if (a && b) { x ? y : z }";
    let b = "while (c || d) // for";
    assert_eq!(calculate_heuristic_complexity(a), 3);
    assert_eq!(calculate_heuristic_complexity(b), 2);
    assert_eq!(calculate_heuristic_complexity(&format!("{}\n{}", a, b)), 5);
}

#[test]
fn complexity_ignores_a_trailing_line_comment() {
    let s = "for x in y { if z }";
    assert_eq!(calculate_heuristic_complexity(s), 2);
    assert_eq!(calculate_heuristic_complexity(&format!("{} // {}", s, "if && || ? while")), 2);
    assert_eq!(calculate_heuristic_complexity(&format!("{} // {}", "", "if")), 0);
}

#[test]
fn complexity_never_drops_when_lines_follow() {
    let a = "if a /* while";
    let b = "*/ match m && n";
    assert_eq!(calculate_heuristic_complexity(a), 1);
    assert_eq!(calculate_heuristic_complexity(&format!("{}\n{}", a, b)), 3);
}

fn walked(path: &str, rel: &str, content: Option<&str>) -> WalkedFile {
    WalkedFile { path: s(path), relative_path: s(rel), content: content.map(s) }
}

#[test]
fn wanted_sources_by_path() {
    assert!(wanted_source("/repo/src/a.rs"));
    assert!(wanted_source("/repo/web/app.tsx"));
    assert!(!wanted_source("/repo/src/a.py"));
    assert!(!wanted_source("/repo/src/b.RS"));
    assert!(!wanted_source("/repo/.git/x.rs"));
    assert!(!wanted_source("/repo/.github/y.ts"));
}

#[test]
fn walk_ignores_skipped_unread_and_plain_files() {
    let base = vec![
        walked("/r/src/a.rs", "src/a.rs", Some("if x && y")),
        walked("/r/web/b.ts", "web/b.ts", Some("while z")),
    ];
    let mut extra = vec![
        walked("/r/src/a.py", "src/a.py", Some("if if if")),
        walked("/r/src/b.RS", "src/b.RS", Some("if if if")),
        walked("/r/.github/y.ts", ".github/y.ts", Some("if if")),
        walked("/r/src/c.rs", "src/c.rs", None),
        walked("/r/src/d.rs", "src/d.rs", Some("let x = 1;")),
    ];
    extra.insert(2, base[0].clone());
    extra.push(base[1].clone());
    let plain: Vec<(String, usize)> = walk_folder_complexities(&base)
        .unwrap()
        .into_iter()
        .map(|c| (c.folder_path, c.complexity_score))
        .collect();
    let mut mixed: Vec<(String, usize)> = walk_folder_complexities(&extra)
        .unwrap()
        .into_iter()
        .map(|c| (c.folder_path, c.complexity_score))
        .collect();
    let mut sorted_plain = plain.clone();
    sorted_plain.sort();
    mixed.sort();
    assert_eq!(sorted_plain, mixed);
    assert_eq!(plain[0], (s("."), 3));
    assert_eq!(score_of_pairs(&plain, "src"), 2);
    assert_eq!(score_of_pairs(&plain, "web"), 1);
}

fn score_of_pairs(v: &[(String, usize)], folder: &str) -> usize {
    v.iter().find(|(f, _)| f == folder).map(|(_, c)| *c).unwrap_or(0)
}

#[test]
fn complexity_skips_double_quoted_strings() {
    assert_eq!(calculate_heuristic_complexity(r#"let s = "if";"#), 0);
    assert_eq!(calculate_heuristic_complexity(r#"x = "a && b ? c" && d"#), 1);
    assert_eq!(calculate_heuristic_complexity(r#"if "while \" for" while"#), 2);
    assert_eq!(calculate_heuristic_complexity(r#"s = "open if && x"#), 0);
    assert_eq!(calculate_heuristic_complexity("s = \"open\nif x"), 1);
    assert_eq!(calculate_heuristic_complexity(r#"if"x"while"#), 2);
}

#[test]
fn relative_paths_below_the_walked_folder() {
    assert_eq!(relative_path("/r/src/a.rs", "/r"), "src/a.rs");
    assert_eq!(relative_path("./src/a.rs", "."), "src/a.rs");
    assert_eq!(relative_path("x/a.rs", "/r"), "x/a.rs");
}

#[test]
fn parent_folders_score_at_least_their_children_and_the_top_scores_everything() {
    let files = vec![
        walked("/r/src/a/b.rs", "src/a/b.rs", Some("if x && if y")),
        walked("/r/src/c.rs", "src/c.rs", Some("while z")),
        walked("/r/lib/d.rs", "lib/d.rs", Some("a ? b : c")),
    ];
    let scores: Vec<(String, usize)> = walk_folder_complexities(&files)
        .unwrap()
        .into_iter()
        .map(|c| (c.folder_path, c.complexity_score))
        .collect();
    assert_eq!(score_of_pairs(&scores, "."), 5);
    assert_eq!(score_of_pairs(&scores, "src"), 4);
    assert_eq!(score_of_pairs(&scores, "src/a"), 3);
    assert_eq!(score_of_pairs(&scores, "lib"), 1);
    assert!(score_of_pairs(&scores, "src") >= score_of_pairs(&scores, "src/a"));
    assert!(score_of_pairs(&scores, ".") >= score_of_pairs(&scores, "src"));
    assert_eq!(scores.len(), 4);
}
