//! Collection: settings, test discovery, run bookkeeping and the reverse
//! map.

use testmap::cli::CollectArgs;
use testmap::collect::{
    build_tests, cargo_select, check_patterns, failed_tests, merge_settings, order_cases, select_cases,
    SelectError,
};
use testmap::config::{CollectConfig, Config};
use testmap::discovery::{
    build_targets, parent_dir, parse_test_list, select_targets, Artifact, Profile, Target,
    TestCase, TestTarget,
};
use testmap::llvm::{parse_show_env, rustc_host, workspace_root, LlvmTools, MetadataError};
use testmap::reverse::{ExecutableMap, ReverseMap};
use testmap::run::{
    collect_run_profraw, combine_test_output, export_args, failure_output, glob_run_profraw, merge_args,
    ProcessOutcome,
    relativize_records, test_coverage, TestCoverage, TestStatus,
};

fn args() -> CollectArgs {
    CollectArgs {
        workspace: false,
        package: None,
        lib: false,
        bins: false,
        tests: false,
        cargo_args: Vec::new(),
        filter: None,
        skip: None,
        threshold: 10,
        jobs: None,
        output: "target/testmap/testmap.json".to_string(),
        clean: false,
        verbose: false,
    }
}

fn case(full: &str, idx: usize) -> (TestCase, TestTarget) {
    let (module, name) = match full.rsplit_once("::") {
        Some((m, n)) => (m.to_string(), n.to_string()),
        None => (String::new(), full.to_string()),
    };
    (
        TestCase { target_index: idx, full: full.to_string(), name, module },
        TestTarget {
            name: format!("bin{idx}"),
            kind: "lib".to_string(),
            executable: format!("/t/bin{idx}"),
            cwd: "/t".to_string(),
        },
    )
}

#[test]
fn status_names() {
    assert_eq!(TestStatus::Collected.as_str(), "collected");
    assert_eq!(TestStatus::Failed.as_str(), "failed");
}

#[test]
fn combined_output_puts_stderr_first() {
    assert_eq!(combine_test_output("  boom \n", "\nout\n"), "boom\n--- stdout ---\nout");
    assert_eq!(combine_test_output("", " out "), "out");
    assert_eq!(combine_test_output("err", "  \n"), "err");
    assert_eq!(combine_test_output(" ", ""), "");
}

#[test]
fn records_outside_the_workspace_are_dropped() {
    let recs = vec![
        ("/ws/src/lib.rs".to_string(), vec![1, 2]),
        ("/rustc/library/core/src/lib.rs".to_string(), vec![3]),
        ("/ws/./src/../src/main.rs".to_string(), vec![4]),
    ];
    let out = relativize_records(recs, "/ws");
    assert_eq!(
        out,
        vec![("src/lib.rs".to_string(), vec![1, 2]), ("src/main.rs".to_string(), vec![4])]
    );
}

#[test]
fn run_profiles_are_found_by_hash() {
    let names = vec![
        "abc.123.profraw".to_string(),
        "abc.profdata".to_string(),
        "abcd.1.profraw".to_string(),
        "abc.77.profraw".to_string(),
    ];
    let got = glob_run_profraw("/stage", &names, "abc");
    assert_eq!(got, vec!["/stage/abc.123.profraw".to_string(), "/stage/abc.77.profraw".to_string()]);
    assert_eq!(collect_run_profraw("/stage/", &names, "abc"), vec![
        "/stage/abc.123.profraw".to_string(),
        "/stage/abc.77.profraw".to_string()
    ]);
}

#[test]
fn llvm_tool_arguments() {
    let raws = vec!["a.1.profraw".to_string(), "a.2.profraw".to_string()];
    assert_eq!(
        merge_args("p.profdata", &raws),
        vec!["merge", "-sparse", "-o", "p.profdata", "a.1.profraw", "a.2.profraw"]
    );
    let objs = vec!["/b/t1".to_string(), "/b/t2".to_string()];
    assert_eq!(
        export_args("p.profdata", "/b/t1", &objs),
        vec!["export", "-format=lcov", "-instr-profile", "p.profdata", "/b/t1", "-object", "/b/t2"]
    );
}

#[test]
fn coverage_of_a_run() {
    let lcov = "SF:/ws/src/a.rs\nDA:1,1\nDA:2,0\nend_of_record\nSF:/other/x.rs\nDA:5,3\nend_of_record\n";
    let ok = test_coverage(None, 12, lcov, "/ws");
    assert!(ok.status == TestStatus::Collected);
    assert_eq!(ok.duration_ms, 12);
    assert_eq!(ok.records, vec![("src/a.rs".to_string(), vec![1])]);
    assert_eq!(ok.executable, vec![("src/a.rs".to_string(), vec![1, 2])]);
    let failed = test_coverage(Some("panicked".to_string()), 3, lcov, "/ws");
    assert!(failed.status == TestStatus::Failed);
    assert_eq!(failed.failure_output.as_deref(), Some("panicked"));
}

#[test]
fn host_and_tool_paths() {
    let vv = "rustc 1.80.0\nbinary: rustc\nhost: x86_64-unknown-linux-gnu\nrelease: 1.80.0\n";
    assert_eq!(rustc_host(vv).as_deref(), Some("x86_64-unknown-linux-gnu"));
    assert_eq!(rustc_host("rustc 1.80.0\n"), None);
    let tools = match LlvmTools::discover("/home/u/.rustup/tc\n", vv) {
        Ok(t) => t,
        Err(_) => panic!("host expected"),
    };
    assert_eq!(tools.profdata, "/home/u/.rustup/tc/lib/rustlib/x86_64-unknown-linux-gnu/bin/llvm-profdata");
    assert_eq!(tools.cov, "/home/u/.rustup/tc/lib/rustlib/x86_64-unknown-linux-gnu/bin/llvm-cov");
    assert!(LlvmTools::discover("/x", "no host here").is_err());
}

#[test]
fn show_env_is_parsed() {
    let text = "info: something\nLLVM_PROFILE_FILE='/t/%p.profraw'\r\nRUSTFLAGS=-C instrument-coverage\nnoequals\nRUSTFLAGS='-C x'\n";
    let env = match parse_show_env(text) {
        Some(m) => m,
        None => panic!("profile file expected"),
    };
    assert_eq!(env.len(), 2);
    assert_eq!(env.get("LLVM_PROFILE_FILE").map(|s| s.as_str()), Some("/t/%p.profraw"));
    assert_eq!(env.get("RUSTFLAGS").map(|s| s.as_str()), Some("-C x"));
    assert!(parse_show_env("RUSTFLAGS=x\n").is_none());
}

#[test]
fn test_listing_is_parsed() {
    let text = "parser::tests::parses_add: test\nplain: test\nbench_x: benchmark\n\n3 tests, 0 benchmarks\n";
    let cases = parse_test_list(text);
    assert_eq!(cases.len(), 2);
    assert_eq!(cases[0].full, "parser::tests::parses_add");
    assert_eq!(cases[0].name, "parses_add");
    assert_eq!(cases[0].module, "parser::tests");
    assert_eq!(cases[0].target_index, 0);
    assert_eq!(cases[1].full, "plain");
    assert_eq!(cases[1].name, "plain");
    assert_eq!(cases[1].module, "");
}

fn artifact(reason: &str, name: &str, test: bool, exe: Option<&str>, manifest: Option<&str>) -> Artifact {
    Artifact {
        reason: Some(reason.to_string()),
        target: Some(Target { name: name.to_string(), kind: vec!["lib".to_string(), "test".to_string()] }),
        profile: Some(Profile { test: Some(test) }),
        executable: exe.map(|s| s.to_string()),
        manifest_path: manifest.map(|s| s.to_string()),
    }
}

#[test]
fn test_binaries_are_selected_once() {
    let arts = vec![
        artifact("compiler-artifact", "calc", true, Some("/t/calc-1"), Some("/w/calc/Cargo.toml")),
        artifact("compiler-artifact", "calc", false, Some("/t/calc-lib"), None),
        artifact("build-finished", "x", true, Some("/t/x"), None),
        artifact("compiler-artifact", "calc", true, Some("/t/calc-1"), Some("/w/other/Cargo.toml")),
        artifact("compiler-artifact", "it", true, Some("/t/it-2"), None),
    ];
    let ts = select_targets(&arts, "/here");
    assert_eq!(ts.len(), 2);
    assert_eq!(ts[0].name, "calc");
    assert_eq!(ts[0].kind, "test");
    assert_eq!(ts[0].executable, "/t/calc-1");
    assert_eq!(ts[0].cwd, "/w/calc");
    assert_eq!(ts[1].cwd, "/here");
    assert!(build_targets(&arts, "/here").is_ok());
    assert!(build_targets(&Vec::new(), "/here").is_err());
}

#[test]
fn parent_directories() {
    assert_eq!(parent_dir("/w/calc/Cargo.toml").as_deref(), Some("/w/calc"));
    assert_eq!(parent_dir("/Cargo.toml").as_deref(), Some("/"));
    assert_eq!(parent_dir("Cargo.toml").as_deref(), Some(""));
    assert_eq!(parent_dir("a//b/").as_deref(), Some("a"));
    assert_eq!(parent_dir("/"), None);
    assert_eq!(parent_dir(""), None);
}

#[test]
fn command_line_wins_over_config() {
    let mut a = args();
    a.filter = Some("cli".to_string());
    a.threshold = 10;
    let cfg = CollectConfig {
        filter: Some("cfg".to_string()),
        skip: Some("slow".to_string()),
        jobs: Some(4),
        threshold: Some(3),
    };
    let s = merge_settings(&a, &cfg);
    assert_eq!(s.filter.as_deref(), Some("cli"));
    assert_eq!(s.skip.as_deref(), Some("slow"));
    assert_eq!(s.threshold, 3);
    assert_eq!(s.jobs, Some(4));
    a.threshold = 7;
    a.jobs = Some(1);
    let s = merge_settings(&a, &cfg);
    assert_eq!(s.threshold, 7);
    assert_eq!(s.jobs, Some(1));
    let d = Config::default();
    assert!(d.collect.filter.is_none() && d.collect.threshold.is_none());
}

#[test]
fn cargo_selection_arguments() {
    let mut a = args();
    assert!(cargo_select(&a).is_empty());
    a.workspace = true;
    a.package = Some("calc".to_string());
    a.lib = true;
    a.tests = true;
    a.cargo_args = vec!["--features".to_string(), "foo".to_string()];
    assert_eq!(
        cargo_select(&a),
        vec!["--workspace", "--package", "calc", "--lib", "--tests", "--features", "foo"]
    );
}

#[test]
fn filter_and_skip_select_tests() {
    let cases = vec![case("parse_a", 0), case("slow_parse_b", 0), case("other", 1)];
    let kept = match select_cases(cases, Some("parse_"), Some("^slow_")) {
        Ok(v) => v,
        Err(_) => panic!("selection expected"),
    };
    assert_eq!(kept.len(), 1);
    assert_eq!(kept[0].0.full, "parse_a");
    let r = select_cases(vec![case("a", 0)], Some("("), None);
    assert!(matches!(r, Err(SelectError::InvalidFilter)));
    let r = select_cases(vec![case("a", 0)], None, Some("["));
    assert!(matches!(r, Err(SelectError::InvalidSkip)));
    let r = select_cases(vec![case("a", 0)], Some("zzz"), None);
    assert!(matches!(r, Err(SelectError::NoTestsMatched)));
    let r = select_cases(Vec::new(), Some("("), None);
    assert!(matches!(r, Err(SelectError::InvalidFilter)));
}

#[test]
fn runs_are_ordered_by_path_then_target() {
    let sel = vec![case("b", 0), case("a", 1), case("a", 0), case("c::x", 2)];
    let ord = order_cases(sel);
    let keys: Vec<(String, usize)> = ord.iter().map(|(c, _)| (c.full.clone(), c.target_index)).collect();
    assert_eq!(
        keys,
        vec![("a".to_string(), 0), ("a".to_string(), 1), ("b".to_string(), 0), ("c::x".to_string(), 2)]
    );
}

fn cov(status: TestStatus, lines: Vec<(&str, Vec<u32>)>, out: Option<&str>) -> TestCoverage {
    TestCoverage {
        status,
        duration_ms: 5,
        records: lines.iter().map(|(p, l)| (p.to_string(), l.clone())).collect(),
        executable: lines.iter().map(|(p, l)| (p.to_string(), l.clone())).collect(),
        failure_output: out.map(|s| s.to_string()),
    }
}

#[test]
fn test_table_and_reverse_map() {
    let indexed = vec![case("a", 0), case("m::b", 0), case("c", 0)];
    let results = vec![
        Some((0, cov(TestStatus::Collected, vec![("src/x.rs", vec![1, 2])], None))),
        None,
        Some((1, cov(TestStatus::Failed, vec![("src/x.rs", vec![2, 3])], Some("boom")))),
    ];
    let failed = failed_tests(&indexed, &results);
    assert_eq!(failed, vec![("m::b".to_string(), "boom".to_string())]);
    let (tests, map, exec) = build_tests(&indexed, results);
    assert_eq!(tests.len(), 3);
    assert_eq!(tests[0].status, "collected");
    assert_eq!(tests[1].status, "failed");
    assert_eq!(tests[1].name, "b");
    assert_eq!(tests[1].module, "m");
    assert_eq!(tests[1].failure_output.as_deref(), Some("boom"));
    assert_eq!(tests[2].status, "collected");
    assert_eq!(tests[2].duration_ms, 0);
    let mut contents = testmap::strmap::StrMap::new();
    contents.insert("src/x.rs".to_string(), "a\nb\nc\n".to_string());
    let out = map.finalize(&exec, 10, &contents);
    let sf = match out.get("src/x.rs") {
        Some(sf) => sf,
        None => panic!("file expected"),
    };
    assert_eq!(sf.executable, vec![1, 2, 3]);
    assert_eq!(sf.lines.get("1"), Some(&vec![0]));
    assert_eq!(sf.lines.get("2"), Some(&vec![0, 1]));
    assert_eq!(sf.lines.get("3"), Some(&vec![1]));
    let _ = ReverseMap::new();
}

#[test]
fn lines_at_the_threshold_are_summarized() {
    let indexed = vec![case("a", 0), case("b", 0), case("c", 0)];
    let results = vec![
        Some((0, cov(TestStatus::Collected, vec![("src/y.rs", vec![1, 2])], None))),
        Some((1, cov(TestStatus::Collected, vec![("src/y.rs", vec![2])], None))),
        Some((2, cov(TestStatus::Collected, vec![("src/y.rs", vec![2])], None))),
    ];
    let (_, map, exec) = build_tests(&indexed, results);
    let mut contents = testmap::strmap::StrMap::new();
    contents.insert("src/y.rs".to_string(), "a\nb\n".to_string());
    let out = map.finalize(&exec, 3, &contents);
    let sf = out.get("src/y.rs").unwrap();
    assert_eq!(sf.lines.get("1"), Some(&vec![0]));
    assert!(sf.lines.get("2").is_none());
    let a = sf.above_threshold.get("2").unwrap();
    assert_eq!(a.total, 3);
    assert_eq!(a.sample.len(), 2);
    assert!(a.sample.iter().all(|t| *t <= 2));
    assert!(sf.above_threshold.get("1").is_none());
}

#[test]
fn patterns_are_checked_filter_first() {
    assert!(check_patterns(None, None).is_ok());
    assert!(check_patterns(Some("a|b"), Some("^x")).is_ok());
    assert!(matches!(check_patterns(Some("("), Some("[")), Err(SelectError::InvalidFilter)));
    assert!(matches!(check_patterns(Some("ok"), Some("[")), Err(SelectError::InvalidSkip)));
}

#[test]
fn database_is_stamped() {
    let db = testmap::collect::assemble_database(
        "/ws".to_string(),
        "0.1.0".to_string(),
        vec!["--lib".to_string()],
        Vec::new(),
        testmap::strmap::StrMap::new(),
    );
    assert_eq!(db.version, testmap::database::DATABASE_VERSION);
    assert!(testmap::database::supported_version(db.version));
    assert!(!testmap::database::supported_version(2));
    assert_eq!(db.metadata.workspace_root, "/ws");
    assert_eq!(db.metadata.collection_args, vec!["--lib".to_string()]);
    assert_eq!(db.metadata.generated_at.len(), 20);
}

#[test]
fn workspace_root_from_metadata() {
    let meta = br#"{"packages":[],"workspace_root":"/home/u/ws","version":1}"#;
    assert_eq!(workspace_root(meta).ok().as_deref(), Some("/home/u/ws"));
    assert!(matches!(workspace_root(br#"{"version":1}"#), Err(MetadataError::NoWorkspaceRoot)));
    assert!(matches!(workspace_root(br#"{"workspace_root":7}"#), Err(MetadataError::NoWorkspaceRoot)));
    assert!(matches!(workspace_root(b"not json"), Err(MetadataError::NotJson(_))));
}

#[test]
fn reverse_map_ignores_order_and_repeats() {
    let triples = [("src/a.rs", 1u32, 0u32), ("src/a.rs", 2, 1), ("src/b.rs", 1, 2), ("src/a.rs", 1, 1)];
    let mut first = ReverseMap::new();
    for (f, l, t) in triples {
        first.record(f, l, t);
    }
    let mut second = ReverseMap::new();
    for (f, l, t) in triples.iter().rev().chain(triples.iter()) {
        second.record(f, *l, *t);
    }
    let mut exec = ExecutableMap::new();
    exec.record("src/a.rs", &[1, 2]);
    exec.record("src/b.rs", &[1]);
    let mut contents = testmap::strmap::StrMap::new();
    contents.insert("src/a.rs".to_string(), "x\ny\n".to_string());
    contents.insert("src/b.rs".to_string(), "z\n".to_string());
    let one = first.finalize(&exec, 10, &contents);
    let two = second.finalize(&exec, 10, &contents);
    for f in ["src/a.rs", "src/b.rs"] {
        let (x, y) = (one.get(f).unwrap(), two.get(f).unwrap());
        assert_eq!(x.executable, y.executable);
        for l in ["1", "2"] {
            assert_eq!(x.lines.get(l), y.lines.get(l));
        }
    }
    let a = one.get("src/a.rs").unwrap();
    assert_eq!(a.lines.get("1"), Some(&vec![0, 1]));
    assert_eq!(a.lines.get("2"), Some(&vec![1]));
    assert_eq!(one.get("src/b.rs").unwrap().lines.get("1"), Some(&vec![2]));
}

#[test]
fn process_outcomes_decide_the_failure_output() {
    let passed = ProcessOutcome::Exited {
        success: true,
        stderr: "noise".to_string(),
        stdout: "more".to_string(),
    };
    assert_eq!(failure_output(&passed, "/bin/t"), None);
    let failed = ProcessOutcome::Exited {
        success: false,
        stderr: "  panicked\n".to_string(),
        stdout: "out\n".to_string(),
    };
    assert_eq!(
        failure_output(&failed, "/bin/t"),
        Some("panicked\n--- stdout ---\nout".to_string())
    );
    let quiet = ProcessOutcome::Exited { success: false, stderr: String::new(), stdout: String::new() };
    assert_eq!(failure_output(&quiet, "/bin/t"), Some(String::new()));
    let missing = ProcessOutcome::NotStarted { error: "No such file or directory".to_string() };
    assert_eq!(
        failure_output(&missing, "/bin/t"),
        Some("failed to spawn `/bin/t`: No such file or directory".to_string())
    );
}

#[test]
fn snapshot_paths_skip_files_without_signal() {
    let mut map = ReverseMap::new();
    map.record("src/hit.rs", 3, 0);
    let mut exec = ExecutableMap::new();
    exec.record("src/exec.rs", &[1, 2]);
    exec.record("src/empty.rs", &[]);
    let paths = map.snapshot_paths(&exec);
    assert_eq!(paths.len(), 2);
    assert!(paths.get("src/hit.rs").is_some());
    assert!(paths.get("src/exec.rs").is_some());
    assert!(paths.get("src/empty.rs").is_none());
}
