//! The HTML report: escaping, embedded data, stats lines and pages.

use testmap::classify::{LineClass, LineStats};
use testmap::database::{AboveThreshold, SourceFile};
use testmap::highlight::{escape_html, path_extension, plain_lines, split_inclusive_lines};
use testmap::html::{
    above_obj, build_data, count_or_dash, render_directory, file_page, index_page, json_str,
    jump_count_link, jump_part, legend_html, lines_obj, per_test_counts, render_single_file,
    source_block, stats_html, tests_js, render_tests_page, up_prefix, zero_dash, FileView, RowAttrs,
    StatsClick, TestView, TABLE_SORT_JS,
};
use testmap::strmap::StrMap;

fn src(content: &str, lines: Vec<(&str, Vec<u32>)>, executable: Vec<u32>) -> SourceFile {
    let mut m = StrMap::new();
    for (k, v) in lines {
        m.insert(k.to_string(), v);
    }
    SourceFile { content: content.to_string(), lines: m, above_threshold: StrMap::new(), executable }
}

fn tv<'a>(name: &'a str, module: &'a str, status: &'a str, out: Option<&'a str>) -> TestView<'a> {
    TestView {
        name,
        module,
        binary: "calc",
        kind: "lib",
        status,
        duration_ms: 7,
        failure_output: out,
    }
}

fn stats(coverable: u32, covered: u32, excluded: u32, ignored: u32) -> LineStats {
    LineStats { coverable, covered, unique: 0, excluded, excluded_covered: 0, ignored }
}

#[test]
fn html_escaping() {
    assert_eq!(escape_html("a<b>&c"), "a&lt;b&gt;&amp;c");
    assert_eq!(escape_html("\"q\""), "\"q\"");
    let out = escape_html("<<>>");
    assert!(!out.contains('<') && !out.contains('>'));
}

#[test]
fn json_strings_are_escaped_like_serde() {
    assert_eq!(json_str("a\"b\\c\n\u{1}"), "\"a\\\"b\\\\c\\n\\u0001\"");
    assert_eq!(json_str(""), "\"\"");
}

#[test]
fn line_maps_as_js_objects() {
    let mut m = StrMap::new();
    m.insert("3".to_string(), vec![1, 4]);
    m.insert("10".to_string(), vec![]);
    assert_eq!(lines_obj(&m), "{\"10\":[],\"3\":[1,4]}");
    let mut a = StrMap::new();
    a.insert("7".to_string(), AboveThreshold { total: 12, sample: vec![2, 9] });
    assert_eq!(above_obj(&a), "{\"7\":{total:12,sample:[2,9]}}");
    assert_eq!(above_obj(&StrMap::new()), "{}");
}

#[test]
fn embedded_data() {
    let tests = vec![tv("t1", "m", "collected", None), tv("t2", "", "failed", Some("x"))];
    assert_eq!(
        tests_js(&tests),
        "[{n:\"t1\",m:\"m\",b:\"calc\",k:\"lib\",s:\"collected\"},{n:\"t2\",m:\"\",b:\"calc\",k:\"lib\",s:\"failed\"}]"
    );
    let mut cov = StrMap::new();
    cov.insert("src/a.rs".to_string(), src("x\n", vec![("1", vec![0])], vec![1]));
    let (t, c, a) = build_data(&tests, &cov);
    assert_eq!(t, tests_js(&tests));
    assert_eq!(c, "{\"src/a.rs\":{\"1\":[0]}}");
    assert_eq!(a, "{\"src/a.rs\":{}}");
}

#[test]
fn relative_prefix() {
    assert_eq!(up_prefix("lib.rs"), "");
    assert_eq!(up_prefix("src/a/b.rs"), "../../");
}

#[test]
fn stats_fragments() {
    assert_eq!(zero_dash(), "<span class=\"dash\">-</span>");
    assert_eq!(count_or_dash(0), zero_dash());
    assert_eq!(count_or_dash(12), "12");
    assert_eq!(jump_count_link("src/a.rs.html", "uncovered", 0, "gap"), zero_dash());
    assert_eq!(
        jump_count_link("a<b.html", "ignored", 3, "muted"),
        "<a class=\"jump muted\" href=\"a&lt;b.html?jump=ignored\">3</a>"
    );
    assert_eq!(
        jump_part("uncovered", 2, "gap", StatsClick::NoClick),
        " · <span class=\"gap\">2 uncovered</span>"
    );
    assert_eq!(
        jump_part("ignored", 1, "muted", StatsClick::ScrollPage),
        " · <a class=\"jump muted\" data-jump=\"ignored\" href=\"#\" role=\"button\" tabindex=\"0\">1 ignored</a>"
    );
    let with_id = jump_part("uncovered", 1, "gap", StatsClick::ScrollFile("src/a.rs"));
    assert!(with_id.contains("data-file-id=\""));
    assert!(legend_html().starts_with("<div class=\"legend\">"));
}

#[test]
fn stats_lines() {
    assert_eq!(
        stats_html(stats(4, 3, 1, 0), StatsClick::NoClick),
        "<span class=\"covered\">3</span> / <span class=\"coverable\">4</span> <span class=\"pct\">(75%)</span> · <span class=\"gap\">1 uncovered</span> · <span class=\"muted\">1 excluded</span>"
    );
    assert_eq!(
        stats_html(stats(0, 0, 0, 2), StatsClick::NoClick),
        "<span class=\"covered\">0</span> / <span class=\"coverable\">0</span> <span class=\"pct\">(—)</span> · <span class=\"muted\">2 ignored</span>"
    );
}

#[test]
fn per_test_line_counts() {
    let mut cov = StrMap::new();
    cov.insert("a.rs".to_string(), src("", vec![("1", vec![0, 1]), ("2", vec![1]), ("3", vec![7])], vec![]));
    cov.insert("b.rs".to_string(), src("", vec![("9", vec![1])], vec![]));
    assert_eq!(per_test_counts(3, &cov), vec![1, 3, 0]);
}

#[test]
fn source_rows() {
    let h = vec!["fn x()".to_string(), "<i>".to_string()];
    let classes = vec![LineClass::Covered];
    let out = source_block(&h, &classes, RowAttrs::Line);
    assert_eq!(
        out,
        "<pre class=\"source\"><code><table><tr class=\"cov-covered\" data-line=\"1\"><td class=\"ln\" title=\"covered — reached by at least one test\">1</td><td class=\"lc\">fn x()</td></tr><tr data-line=\"2\"><td class=\"ln\">2</td><td class=\"lc\"><i></td></tr></table></code></pre>"
    );
    let out = source_block(&h[..1], &[], RowAttrs::FileLine("a&b.rs"));
    assert_eq!(
        out,
        "<pre class=\"source\"><code><table><tr data-file=\"a&amp;b.rs\" data-line=\"1\"><td class=\"ln\">1</td><td class=\"lc\">fn x()</td></tr></table></code></pre>"
    );
}

fn coverage() -> StrMap<SourceFile> {
    let mut cov = StrMap::new();
    cov.insert("src/good.rs".to_string(), src("a\nb\n", vec![("1", vec![0]), ("2", vec![0])], vec![1, 2]));
    cov.insert("src/bad.rs".to_string(), src("a\nb\n", vec![], vec![1, 2]));
    cov.insert("src/half.rs".to_string(), src("a\nb\n", vec![("1", vec![1])], vec![1, 2]));
    cov
}

#[test]
fn index_lists_worst_files_first() {
    let cov = coverage();
    let page = index_page("theme<x>", "body{}", 2, &cov);
    assert!(page.starts_with("<!doctype html>"));
    assert!(page.contains("2 test(s) · 3 file(s) · theme: theme&lt;x&gt;"));
    assert!(page.contains("total: <span class=\"covered\">3</span> / <span class=\"coverable\">6</span>"));
    let bad = page.find("src/bad.rs").unwrap();
    let half = page.find("src/half.rs").unwrap();
    let good = page.find("src/good.rs").unwrap();
    assert!(bad < half && half < good);
    assert!(page.ends_with(&format!("</tbody></table><script>{}</script></main></body></html>", TABLE_SORT_JS)));
}

#[test]
fn file_and_tests_pages() {
    let cov = coverage();
    let tests = vec![tv("t1", "m", "collected", None), tv("t2", "", "failed", Some("  ")), tv("t3", "", "failed", Some("oops<"))];
    let tjs = tests_js(&tests);
    let sf = cov.get("src/half.rs").unwrap();
    let h = vec!["a".to_string(), "b".to_string()];
    let classes = vec![LineClass::CoveredUnique, LineClass::Uncovered];
    let page = file_page("src/half.rs", "", &h, &classes, stats(2, 1, 0, 0), &tjs, sf);
    assert!(page.contains("<link rel=\"stylesheet\" href=\"../css/style.css\">"));
    assert!(page.contains("window.__TESTMAP_FILE=\"src/half.rs\""));
    assert!(page.contains("window.__TESTMAP_COV={\"src/half.rs\":{\"1\":[1]}}"));
    assert!(page.ends_with("<script src=\"../js/app.js\"></script></body></html>"));
    let tp = render_tests_page("", &tests, &cov);
    assert!(tp.contains("3 test(s) observed · <span class=\"failcount\">2 failed</span> · 2 cover ≥1 mapped line · <span class=\"zerocount\">1 cover 0 mapped lines</span>"));
    assert!(tp.contains("<tr class=\"failed\"><td data-v=\"1\">1</td>"));
    assert!(tp.contains("<span class=\"muted\">(no output captured)</span>"));
    assert!(tp.contains("<pre class=\"failout-pre\">oops&lt;</pre>"));
    assert!(tp.contains("<td class=\"tname\" data-v=\"m::t1\">m::t1</td>"));
}

#[test]
fn directory_and_single_file_reports() {
    let cov = coverage();
    let tests = vec![tv("t1", "", "collected", None), tv("t2", "", "collected", None)];
    let views = vec![FileView { path: "src/bad.rs".to_string(), highlighted: vec!["a".to_string(), "b".to_string()] }];
    let d = render_directory("base16", "", &tests, &cov, &views);
    assert_eq!(d.pages.len(), 1);
    assert_eq!(d.pages[0].0, "src/bad.rs.html");
    assert!(d.pages[0].1.contains("<td class=\"ln\" title=\"uncovered — no test reached this line\">1</td>"));
    assert!(d.tests.contains("Observed tests (2)"));
    assert_eq!(d.index, index_page("base16", "", 2, &cov));
    let single = render_single_file("base16", "", "CSS", "JS", &tests, &cov, &views);
    assert!(single.contains("<title>testmap report</title><style>CSS</style></head><body>"));
    assert!(single.contains("<section class=\"file\" id=\"file-"));
    assert!(single.contains("data-file=\"src/bad.rs\" data-line=\"2\""));
    assert!(single.ends_with("<script>JS</script></body></html>"));
}

#[test]
fn source_lines_and_extensions() {
    assert_eq!(split_inclusive_lines("a\nb"), vec!["a\n".to_string(), "b".to_string()]);
    assert_eq!(plain_lines("<a>\n"), vec!["&lt;a&gt;".to_string()]);
    assert_eq!(plain_lines("a<b\nc\n"), vec!["a&lt;b".to_string(), "c".to_string()]);
    assert_eq!(plain_lines("x\r\ny"), vec!["x\r".to_string(), "y".to_string()]);
    assert_eq!(path_extension("src/lib.rs").as_deref(), Some("rs"));
    assert_eq!(path_extension("Makefile"), None);
}

#[test]
fn index_order_breaks_ties() {
    let mut cov = StrMap::new();
    // Both at 0%: more uncovered lines first, then path order.
    cov.insert("b.rs".to_string(), src("a\n", vec![], vec![1]));
    cov.insert("a.rs".to_string(), src("a\n", vec![], vec![1]));
    cov.insert("c.rs".to_string(), src("a\nb\n", vec![], vec![1, 2]));
    // Nothing coverable counts as 0%, with nothing uncovered.
    cov.insert("empty.rs".to_string(), src("a\n", vec![], vec![]));
    let stats: Vec<LineStats> = (0..cov.len())
        .map(|i| {
            let (_, s) = cov.entry(i);
            testmap::classify::stats(&testmap::classify::classify(s))
        })
        .collect();
    let ord = testmap::html::index_order(&cov, &stats);
    let names: Vec<&str> = ord.iter().map(|i| cov.entry(*i).0.as_str()).collect();
    assert_eq!(names, vec!["c.rs", "a.rs", "b.rs", "empty.rs"]);
}

#[test]
fn escaping_reads_back_and_spares_plain_text() {
    let samples = ["a<b>&c", "&amp;lt;", "x &&& y", "<>", "", "plain text 123", "&lt"];
    for s in samples {
        let e = escape_html(s);
        let back = e.replace("&lt;", "<").replace("&gt;", ">").replace("&amp;", "&");
        assert_eq!(back, s);
        let plain = !s.contains('&') && !s.contains('<') && !s.contains('>');
        assert_eq!(e == s, plain);
    }
}
