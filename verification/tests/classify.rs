//! Line classification: markers, panic sites, macro heads, unique coverage.

use testmap::classify::{classify, opens_multiline_macro, stats, LineClass};
use testmap::database::{AboveThreshold, SourceFile};
use testmap::strmap::StrMap;

/// A SourceFile whose `executable` set is every line, with the given content
/// and no covered lines.
fn file(content: &str) -> SourceFile {
    let n = content.lines().count() as u32;
    SourceFile {
        content: content.to_string(),
        lines: StrMap::new(),
        above_threshold: StrMap::new(),
        executable: (1..=n).collect(),
    }
}

fn classes(src: &SourceFile) -> Vec<LineClass> {
    classify(src)
}

/// Like `file` but also marks the given 1-indexed lines as covered.
fn covered(mut src: SourceFile, lines: &[u32]) -> SourceFile {
    for &ln in lines {
        src.lines.insert(ln.to_string(), vec![]);
    }
    src
}

#[test]
fn plain_uncovered_lines_are_uncovered() {
    // No coverage, no markers → every line uncovered.
    let src = file("let a = 1;\nlet b = 2;\n");
    assert_eq!(
        classes(&src),
        vec![LineClass::Uncovered, LineClass::Uncovered]
    );
}

#[test]
fn excl_line_marker_excludes() {
    let src = file("let a = 1; //cov:excl-line\nlet b = 2;\n");
    assert_eq!(classes(&src)[0], LineClass::Excluded);
    assert_eq!(classes(&src)[1], LineClass::Uncovered);
}

#[test]
fn excl_start_commentary_does_not_collapse_region() {
    // Regression: a `//cov:excl-start` line whose trailing commentary
    // mentions the stop marker must NOT also close the region. Previously
    // the substring match treated the line as both start and stop, opening
    // and immediately closing the region — so the body stayed uncovered and
    // the real `-stop` became a no-op.
    let src = file(
        "let a = 1;\n\
         //cov:excl-start until cov:excl-stop below\n\
         let b = 2;\n\
         //cov:excl-stop\n\
         let d = 4;\n",
    );
    let c = classes(&src);
    assert_eq!(c[0], LineClass::Uncovered);
    assert_eq!(c[2], LineClass::Excluded); // inside the region
    assert_eq!(c[4], LineClass::Uncovered);
}

#[test]
fn excl_stop_commentary_does_not_reopen_region() {
    // Symmetric to the above: a `//cov:excl-stop` line mentioning the start
    // marker must not re-open the region after closing it.
    let src = file(
        "//cov:excl-start\n\
         let b = 2;\n\
         //cov:excl-stop pairs with cov:excl-start\n\
         let d = 4;\n",
    );
    let c = classes(&src);
    assert_eq!(c[1], LineClass::Excluded);
    assert_eq!(c[3], LineClass::Uncovered);
}

#[test]
fn excl_line_commentary_mentioning_start_is_still_a_line_marker() {
    // An excl-line whose commentary mentions excl-start should stay a
    // single-line marker, not open a region.
    let src = file(
        "let a = 1; //cov:excl-line (not an excl-start)\n\
         let b = 2;\n",
    );
    let c = classes(&src);
    assert_eq!(c[0], LineClass::Excluded);
    assert_eq!(c[1], LineClass::Uncovered);
}

#[test]
fn excl_start_with_plain_commentary_still_works() {
    // Harmless trailing commentary (no other marker word) was never broken —
    // guard it against future regressions.
    let src = file(
        "//cov:excl-start reason here\n\
         let b = 2;\n\
         //cov:excl-stop\n",
    );
    assert_eq!(classes(&src)[1], LineClass::Excluded);
}

#[test]
fn excl_start_stop_region_excludes_inside() {
    let src = file(
        "let a = 1;\n//cov:excl-start\nlet b = 2;\nlet c = 3;\n//cov:excl-stop\nlet d = 4;\n",
    );
    let c = classes(&src);
    // line 1: uncovered; line 2: excl-start marker → Excluded (a marker
    // line is itself a coverage-control comment, so even when llvm-cov
    // spuriously instruments it it must not read as a gap); lines 3-4:
    // excluded; line 5: excl-stop marker → Excluded; line 6: uncovered.
    assert_eq!(c[0], LineClass::Uncovered);
    assert_eq!(c[1], LineClass::Excluded); // //cov:excl-start
    assert_eq!(c[2], LineClass::Excluded);
    assert_eq!(c[3], LineClass::Excluded);
    assert_eq!(c[4], LineClass::Excluded); // //cov:excl-stop
    assert_eq!(c[5], LineClass::Uncovered);
}

#[test]
fn executable_marker_line_is_not_a_gap() {
    // Regression (real-world): llvm-cov sometimes marks a `//cov:excl-start`
    // / `//cov:excl-stop` *comment* line as executable — typically a nearby
    // `format!(` macro bleeds a counter onto it. Such a marker line must
    // still be classified Excluded/Ignored, never Uncovered, otherwise the
    // very line that opts out of coverage shows up red. Here every line is
    // executable (the `file()` helper), emulating that spill.
    let src = file(
        "//cov:excl-start\n\
         errors.push(format!(\n\
         \"boom\"\n\
         ));\n\
         //cov:excl-stop\n",
    );
    let c = classes(&src);
    assert_eq!(c[0], LineClass::Excluded); // excl-start marker
    assert_eq!(c[1], LineClass::Excluded); // errors.push(format!(
    assert_eq!(c[2], LineClass::Excluded); // "boom"
    assert_eq!(c[3], LineClass::Excluded); // ));
    assert_eq!(c[4], LineClass::Excluded); // excl-stop marker
}

#[test]
fn executable_ignore_marker_line_is_ignored() {
    // Same spill, but for ignore markers → Ignored (grey), not a gap.
    let src = file("//cov:ignore-start\nlet b = 2;\n//cov:ignore-stop\n");
    let c = classes(&src);
    assert_eq!(c[0], LineClass::Ignored);
    assert_eq!(c[1], LineClass::Ignored);
    assert_eq!(c[2], LineClass::Ignored);
}

#[test]
fn unreachable_is_excluded_not_ignored() {
    let src = file("unreachable!();\n");
    assert_eq!(classes(&src)[0], LineClass::Excluded);
}

#[test]
fn panics_are_ignored() {
    for body in [
        "panic!();",
        "let x = foo().unwrap();",
        "foo().expect(\"boom\");",
        "todo!();",
        "unimplemented!();",
    ] {
        let src = file(&format!("{body}\n"));
        assert_eq!(classes(&src)[0], LineClass::Ignored, "body: {body}");
    }
}

#[test]
fn unwrap_or_is_not_ignored() {
    // unwrap_or / unwrap_or_default don't panic — must NOT be ignored.
    let src = file("let x = o.unwrap_or(0);\nlet y = o.unwrap_or_default();\n");
    assert_eq!(classes(&src)[0], LineClass::Uncovered);
    assert_eq!(classes(&src)[1], LineClass::Uncovered);
}

#[test]
fn ignore_region_and_line() {
    let src = file(
        "let a = 1; //cov:ignore-line\n//cov:ignore-start\nlet b = 2;\n//cov:ignore-stop\n",
    );
    let c = classes(&src);
    assert_eq!(c[0], LineClass::Ignored);
    assert_eq!(c[2], LineClass::Ignored);
}

#[test]
fn classify_excluded_but_covered_is_pink() {
    let mut src = file("let a = 1; //cov:excl-line\n");
    // Mark line 1 as covered.
    src.lines.insert("1".to_string(), vec![]);
    assert_eq!(classes(&src)[0], LineClass::ExcludedCovered);
}

#[test]
fn ignored_but_covered_stays_grey() {
    // Ignored+covered is still grey (not pink); only excluded gets the pink
    // "covered anyway" treatment.
    let mut src = file("let a = foo().unwrap();\n");
    src.lines.insert("1".to_string(), vec![]);
    assert_eq!(classes(&src)[0], LineClass::Ignored);
}

#[test]
fn non_executable_lines_are_none_and_not_counted() {
    let mut src = file("let a = 1;\n// comment\n");
    // Make line 2 non-executable (a comment).
    src.executable = vec![1];
    let c = classes(&src);
    assert_eq!(c[0], LineClass::Uncovered);
    assert_eq!(c[1], LineClass::NonExecutable);
    let s = stats(&c);
    assert_eq!(s.coverable, 1);
    assert_eq!(s.covered, 0);
}

#[test]
fn stats_and_pct() {
    // 4 executable: 2 covered, 1 excluded, 1 ignored.
    let mut src = SourceFile {
        content: "a\nb\nc\nd\n".to_string(),
        lines: StrMap::from_pairs(vec![("1".to_string(), vec![]), ("2".to_string(), vec![])]),
        above_threshold: StrMap::new(),
        executable: vec![1, 2, 3, 4],
    };
    // Make 3 excluded, 4 ignored.
    src.content = "a\nb\nc //cov:excl-line\nd.unwrap()\n".to_string();
    let c = classes(&src);
    let s = stats(&c);
    assert_eq!(s.coverable, 2);
    assert_eq!(s.covered, 2);
    assert_eq!(s.excluded, 1);
    assert_eq!(s.excluded_covered, 0);
    assert_eq!(s.ignored, 1);
    assert_eq!(s.pct(), Some(100));
}

#[test]
fn stats_split_excluded_and_excluded_covered() {
    // Two excluded lines: line 1 uncovered (pure excluded), line 2 covered
    // anyway (excluded-but-covered). The two counts must be tallied
    // separately so the report can surface stale markers on their own.
    let src = SourceFile {
        content: "a //cov:excl-line\nb //cov:excl-line\n".to_string(),
        lines: StrMap::from_pairs(vec![("2".to_string(), vec![0])]),
        above_threshold: StrMap::new(),
        executable: vec![1, 2],
    };
    let c = classify(&src);
    assert_eq!(c[0], LineClass::Excluded);
    assert_eq!(c[1], LineClass::ExcludedCovered);
    let s = stats(&c);
    assert_eq!(s.excluded, 1);
    assert_eq!(s.excluded_covered, 1);
    // Neither counts as coverable — excluded lines opt out of the total.
    assert_eq!(s.coverable, 0);
}

// --- multi-line macro head phantom detection ---------------------------

#[test]
fn multiline_macro_head_phantom_is_ignored() {
    // The classic matches! artifact: the head line is executable but never
    // covered, while its argument lines (the same statement) are covered.
    let src = covered(
        file(
            "    let needs = actions.iter().any(|a| {\n\
             matches!(\n\
             a.as_str(),\n\
             \"X\" | \"Y\"\n\
             )\n\
             });\n",
        ),
        &[1, 3, 4, 5, 6],
    );
    let c = classes(&src);
    assert_eq!(c[0], LineClass::Covered); // let … any(|a| {
    assert_eq!(c[1], LineClass::Ignored); // matches!(  ← phantom
    assert_eq!(c[2], LineClass::Covered); // a.as_str(),
    assert_eq!(c[3], LineClass::Covered); // "X" | "Y"
    assert_eq!(c[4], LineClass::Covered); // )
    assert_eq!(c[5], LineClass::Covered); // });
    // The phantom is noise, not a gap: ignored (not coverable) → still 100%.
    // Before this fix it read as Uncovered, dragging the file to 83%.
    let s = stats(&c);
    assert_eq!(s.coverable, 5);
    assert_eq!(s.covered, 5);
    assert_eq!(s.ignored, 1);
    assert_eq!(s.pct(), Some(100));
}

#[test]
fn multiline_macro_in_unhit_branch_stays_uncovered() {
    // A multi-line format! in a branch no test takes: head AND body are
    // uncovered — a real gap. The head must NOT be suppressed, because its
    // following line is also uncovered.
    let src = file(
        "let s = if cond {\n\
         format!(\n\
         \"hi {}\",\n\
         name\n\
         )\n\
         } else {\n\
         String::new()\n\
         };\n",
    );
    let c = classes(&src);
    assert_eq!(c[1], LineClass::Uncovered); // format!(  ← real gap
    assert_eq!(c[2], LineClass::Uncovered); // "hi {}",
}

#[test]
fn nested_macro_head_phantom_is_ignored() {
    // errors.push(format!( … )): llvm-cov marks the format! head uncovered
    // while the outer .push( and the string/arg lines are covered.
    let src = covered(
        file("errors.push(format!(\n\"err: {}\",\nmsg\n));\n"),
        &[2, 3, 4],
    );
    assert_eq!(classes(&src)[0], LineClass::Ignored); // errors.push(format!(
}

#[test]
fn single_line_macro_uncovered_stays_uncovered() {
    // A single-line macro has no phantom (head and args share a line), so
    // an uncovered one is a genuine gap — must not be suppressed.
    let src = file("let s = format!(\"hi {}\", name);\n");
    assert_eq!(classes(&src)[0], LineClass::Uncovered);
}

#[test]
fn covered_multiline_macro_head_is_covered() {
    // If the head is somehow covered (it usually isn't — that's the
    // artifact), it must read as covered, not ignored.
    let mut src = file("format!(\n\"x\"\n)\n");
    src.lines.insert("1".to_string(), vec![]);
    assert_eq!(classes(&src)[0], LineClass::Covered);
}

#[test]
fn opens_multiline_macro_detects_heads() {
    let f = opens_multiline_macro;
    // multi-line heads (opener left open)
    assert!(f("        matches!("));
    assert!(f("        write!("));
    assert!(f("        errors.push(format!("));
    assert!(f("    foo! {")); // braced macro
    assert!(f("    bar![")); // bracketed macro
    // single-line / balanced → not a multi-line head
    assert!(!f("    let s = format!(\"hi {}\", x);"));
    assert!(!f("    matches!(a.as_str(), \"X\")"));
    // not a macro at all
    assert!(!f("    if cond {"));
    assert!(!f("    let x = foo(")); // function call, no `!`
    assert!(!f("    if a != 0 {")); // `!=` is not a macro
    // a stray `foo!(` in a trailing comment must not trigger
    assert!(!f("    let x = 1; // see format!("));
}

// --- single-test ("unique") coverage ---------------------------------

#[test]
fn single_covering_test_is_unique() {
    // A line covered by exactly one test → orange "unique" dot; covered by
    // two tests → plain green. Unique is a subset of covered, so both still
    // count toward the coverage total.
    let mut src = file("let a = 1;\nlet b = 2;\n");
    src.lines.insert("1".to_string(), vec![0]);
    src.lines.insert("2".to_string(), vec![0, 1]);
    let c = classes(&src);
    assert_eq!(c[0], LineClass::CoveredUnique);
    assert_eq!(c[1], LineClass::Covered);
    let s = stats(&c);
    assert_eq!(s.coverable, 2);
    assert_eq!(s.covered, 2);
    assert_eq!(s.unique, 1);
}

#[test]
fn above_threshold_line_is_not_unique() {
    // A line covered by many tests is only known to be covered (we keep a
    // sample, not every test), and it can never be a single point of
    // failure — so it must read as plain covered, not unique.
    let mut src = file("let a = 1;\n");
    src.above_threshold.insert(
        "1".to_string(),
        AboveThreshold { total: 12, sample: vec![3] },
    );
    assert_eq!(classes(&src)[0], LineClass::Covered);
}

#[test]
fn unique_is_suppressed_by_excluded_and_ignored() {
    // A singly-covered line that is also excluded/ignored keeps its
    // exclusion/ignore classification — "unique" only refines plain
    // covered lines.
    let mut a = file("let a = 1; //cov:excl-line\n");
    a.lines.insert("1".to_string(), vec![0]);
    assert_eq!(classes(&a)[0], LineClass::ExcludedCovered);

    let mut b = file("let a = foo().unwrap();\n");
    b.lines.insert("1".to_string(), vec![0]);
    assert_eq!(classes(&b)[0], LineClass::Ignored);
}

// --- #[test] fn bodies are excluded from "unique" ----------------------

#[test]
fn test_fn_body_is_not_unique() {
    // A #[test] fn's body is covered only by itself — that's expected, not
    // a single point of failure, so it must read as plain covered (green)
    // and must NOT count toward the unique stat.
    let mut src = file("#[test]\nfn basic() {\n    assert_eq!(1 + 1, 2);\n}\n");
    src.lines.insert("3".to_string(), vec![0]); // the assert, covered by the sole test
    let c = classes(&src);
    assert_eq!(c[2], LineClass::Covered); // not CoveredUnique
    assert_eq!(stats(&c).unique, 0);
}

#[test]
fn production_fn_uniquely_covered_is_unique() {
    // A normal (non-test) fn whose body only one test covers stays orange.
    let mut src = file("fn helper() {\n    1 + 1\n}\n");
    src.executable = vec![1, 2, 3];
    src.lines.insert("2".to_string(), vec![0]);
    assert_eq!(classes(&src)[1], LineClass::CoveredUnique);
}

#[test]
fn async_test_attr_recognised() {
    // #[tokio::test] and other `…::test` attributes mark the body too.
    let mut src = file("#[tokio::test]\nasync fn it() {\n    do_thing().await;\n}\n");
    src.lines.insert("3".to_string(), vec![0]);
    assert_eq!(classes(&src)[2], LineClass::Covered);
}

#[test]
fn brace_in_string_does_not_close_test_body_early() {
    // A '}' inside a format string must not end the body scan early — the
    // real closing brace is on a later line. Both body lines land inside
    // the test fn → plain covered, not unique.
    let mut src = file(
        "#[test]\nfn with_fmt() {\n    let s = format!(\"}\");\n    assert!(s.is_empty());\n}\n",
    );
    src.lines.insert("3".to_string(), vec![0]);
    src.lines.insert("4".to_string(), vec![0]);
    let c = classes(&src);
    assert_eq!(c[2], LineClass::Covered);
    assert_eq!(c[3], LineClass::Covered);
    assert_eq!(stats(&c).unique, 0);
}
