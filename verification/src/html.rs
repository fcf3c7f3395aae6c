//! HTML report pages, built as strings: the index, a page per source file,
//! the tests catalog, and the single-file report. Writing them to disk is
//! left to the caller.

use vstd::prelude::*;
use crate::classify::{
    class_of, classify, css_class_spec, stats, stats_spec, title_spec, LineClass, LineStats, pct_spec,
};
use crate::run::str_views;
use crate::database::{AboveThreshold, SourceFile};
use crate::highlight::{escape_spec, push_escaped};
use crate::strmap::StrMap;
use crate::text::{dec, lex_lt, lines_of, push_char, push_dec, str_lt, trim};
use crate::util::{fnv1a, fnv_spec, hex_pad};
use vstd::string::{StringExecFns, StringSliceAdditionalSpecFns};

verus! {

// ---------------------------------------------------------------------------
// JSON strings
// ---------------------------------------------------------------------------

/// A two-digit lowercase hexadecimal number.
pub open spec fn hex2(n: nat) -> Seq<char> {
    hex_pad(n, 2)
}

/// The JSON escape of one character, as `serde_json` writes it: `"` and
/// `\` are backslash-escaped, the control characters below U+0020 use their
/// short form (`\b \t \n \f \r`) or `\u00XX`, everything else is kept.
pub open spec fn json_char(c: char) -> Seq<char> {
    let u = c as u32;
    if c == '"' {
        seq!['\\', '"']
    } else if c == '\\' {
        seq!['\\', '\\']
    } else if u == 0x08 {
        seq!['\\', 'b']
    } else if u == 0x09 {
        seq!['\\', 't']
    } else if u == 0x0A {
        seq!['\\', 'n']
    } else if u == 0x0C {
        seq!['\\', 'f']
    } else if u == 0x0D {
        seq!['\\', 'r']
    } else if u < 0x20 {
        seq!['\\', 'u', '0', '0'] + hex2(u as nat)
    } else {
        seq![c]
    }
}

/// The escaped characters of `s`.
pub open spec fn json_chars(s: Seq<char>) -> Seq<char>
    decreases s.len(),
{
    if s.len() == 0 {
        Seq::empty()
    } else {
        json_chars(s.drop_last()) + json_char(s.last())
    }
}

/// `s` as a JSON string literal.
pub open spec fn json_quoted(s: Seq<char>) -> Seq<char> {
    seq!['"'] + json_chars(s) + seq!['"']
}

#[verifier::external_type_specification]
#[verifier::external_body]
pub struct ExJsonError(serde_json::Error);

/// `serde_json::to_string` on a string slice. The claim, read off
/// `serde_json`'s serializer (`format_escaped_str` and its `ESCAPE`
/// table): serializing a `str` into a byte vector cannot fail, and gives the
/// string quoted with `json_char` escapes.
#[verifier::external_body]
fn json_to_string(s: &str) -> (r: Result<String, serde_json::Error>)
    ensures
        r is Ok,
        r->Ok_0@ == json_quoted(s@),
{
    serde_json::to_string(s)
}

/// `s` as a JSON string literal.
pub fn json_str(s: &str) -> (r: String)
    ensures
        r@ == json_quoted(s@),
{
    match json_to_string(s) {
        Ok(t) => t,
        Err(_) => String::from_str("\"\""),
    }
}

// ---------------------------------------------------------------------------
// Lists
// ---------------------------------------------------------------------------

/// The parts separated by commas.
pub open spec fn join_commas(parts: Seq<Seq<char>>) -> Seq<char>
    decreases parts.len(),
{
    if parts.len() == 0 {
        Seq::empty()
    } else if parts.len() == 1 {
        parts[0]
    } else {
        join_commas(parts.drop_last()) + seq![','] + parts.last()
    }
}

/// One more part of a comma-separated list.
pub proof fn lemma_join_step(parts: Seq<Seq<char>>, j: int)
    requires
        0 <= j < parts.len(),
    ensures
        join_commas(parts.take(j + 1)) == if j == 0 {
            parts[0]
        } else {
            join_commas(parts.take(j)) + seq![','] + parts[j]
        },
{
    assert(parts.take(j + 1).drop_last() =~= parts.take(j));
    if j == 0 {
        assert(parts.take(1).len() == 1);
    }
}

/// The decimal texts of the numbers.
pub open spec fn nums(v: Seq<u32>) -> Seq<Seq<char>> {
    v.map_values(|x: u32| dec(x as nat))
}

/// Appends the numbers of `v` separated by commas.
pub fn push_nums(out: &mut String, v: &Vec<u32>)
    ensures
        final(out)@ == old(out)@ + join_commas(nums(v@)),
{
    let ghost parts = nums(v@);
    let mut k: usize = 0;
    while k < v.len()
        invariant
            k <= v@.len(),
            parts == nums(v@),
            out@ == old(out)@ + join_commas(parts.take(k as int)),
        decreases v@.len() - k,
    {
        proof {
            lemma_join_step(parts, k as int);
        }
        if k > 0 {
            push_char(out, ',');
        }
        push_dec(out, v[k] as u64);
        assert(out@ =~= old(out)@ + join_commas(parts.take(k + 1)));
        k += 1;
    }
    assert(parts.take(v@.len() as int) =~= parts);
}

/// One entry of the below-threshold map: `"line":[i,j,…]`.
pub open spec fn line_entry(e: (Seq<char>, Vec<u32>)) -> Seq<char> {
    json_quoted(e.0) + seq![':', '['] + join_commas(nums(e.1@)) + seq![']']
}

/// The below-threshold map as a JS object.
pub open spec fn lines_obj_spec(lines: Seq<(Seq<char>, Vec<u32>)>) -> Seq<char> {
    seq!['{'] + join_commas(lines.map_values(|e: (Seq<char>, Vec<u32>)| line_entry(e))) + seq!['}']
}

/// Appends the below-threshold map as a JS object.
fn push_lines_obj(out: &mut String, lines: &StrMap<Vec<u32>>)
    ensures
        final(out)@ == old(out)@ + lines_obj_spec(lines.seq()),
{
    let ghost parts = lines.seq().map_values(|e: (Seq<char>, Vec<u32>)| line_entry(e));
    push_char(out, '{');
    let ghost start = out@;
    let mut j: usize = 0;
    while j < lines.len()
        invariant
            j <= lines.seq().len(),
            parts == lines.seq().map_values(|e: (Seq<char>, Vec<u32>)| line_entry(e)),
            out@ == start + join_commas(parts.take(j as int)),
        decreases lines.seq().len() - j,
    {
        proof {
            lemma_join_step(parts, j as int);
        }
        if j > 0 {
            push_char(out, ',');
        }
        let (line, idxs) = lines.entry(j);
        out.append(json_str(line.as_str()).as_str());
        push_char(out, ':');
        push_char(out, '[');
        push_nums(out, idxs);
        push_char(out, ']');
        assert(out@ =~= start + join_commas(parts.take(j + 1)));
        j += 1;
    }
    assert(parts.take(lines.seq().len() as int) =~= parts);
    push_char(out, '}');
    assert(out@ =~= old(out)@ + lines_obj_spec(lines.seq()));
}

/// The below-threshold map as a JS object: `{"line":[i,j,…],…}`.
pub fn lines_obj(lines: &StrMap<Vec<u32>>) -> (r: String)
    ensures
        r@ == lines_obj_spec(lines.seq()),
{
    let mut s = String::new();
    push_lines_obj(&mut s, lines);
    assert(s@ =~= lines_obj_spec(lines.seq()));
    s
}

/// One entry of the above-threshold map: `"line":{total:N,sample:[…]}`.
pub open spec fn above_entry(e: (Seq<char>, AboveThreshold)) -> Seq<char> {
    json_quoted(e.0) + ":{total:"@ + dec(e.1.total as nat) + ",sample:["@ + join_commas(
        nums(e.1.sample@),
    ) + "]}"@
}

/// The above-threshold map as a JS object.
pub open spec fn above_obj_spec(above: Seq<(Seq<char>, AboveThreshold)>) -> Seq<char> {
    seq!['{'] + join_commas(above.map_values(|e: (Seq<char>, AboveThreshold)| above_entry(e)))
        + seq!['}']
}

/// Appends the above-threshold map as a JS object.
fn push_above_obj(out: &mut String, above: &StrMap<AboveThreshold>)
    ensures
        final(out)@ == old(out)@ + above_obj_spec(above.seq()),
{
    let ghost parts = above.seq().map_values(|e: (Seq<char>, AboveThreshold)| above_entry(e));
    push_char(out, '{');
    let ghost start = out@;
    let mut j: usize = 0;
    while j < above.len()
        invariant
            j <= above.seq().len(),
            parts == above.seq().map_values(|e: (Seq<char>, AboveThreshold)| above_entry(e)),
            out@ == start + join_commas(parts.take(j as int)),
        decreases above.seq().len() - j,
    {
        proof {
            lemma_join_step(parts, j as int);
        }
        if j > 0 {
            push_char(out, ',');
        }
        let (line, info) = above.entry(j);
        out.append(json_str(line.as_str()).as_str());
        out.append(":{total:");
        push_dec(out, info.total as u64);
        out.append(",sample:[");
        push_nums(out, &info.sample);
        out.append("]}");
        assert(out@ =~= start + join_commas(parts.take(j + 1)));
        j += 1;
    }
    assert(parts.take(above.seq().len() as int) =~= parts);
    push_char(out, '}');
    assert(out@ =~= old(out)@ + above_obj_spec(above.seq()));
}

/// The above-threshold map as a JS object: lines map to `{total, sample}`.
pub fn above_obj(above: &StrMap<AboveThreshold>) -> (r: String)
    ensures
        r@ == above_obj_spec(above.seq()),
{
    let mut s = String::new();
    push_above_obj(&mut s, above);
    assert(s@ =~= above_obj_spec(above.seq()));
    s
}


// ---------------------------------------------------------------------------
// Embedded data
// ---------------------------------------------------------------------------

/// A minimal test descriptor embedded into the report JS.
pub struct TestView<'a> {
    pub name: &'a str,
    pub module: &'a str,
    pub binary: &'a str,
    pub kind: &'a str,
    pub status: &'a str,
    pub duration_ms: u64,
    /// Captured output (stderr+stdout) of a failed test, if any.
    pub failure_output: Option<&'a str>,
}

/// Per-file highlighted source (path + one HTML fragment per line).
pub struct FileView {
    pub path: String,
    pub highlighted: Vec<String>,
}

/// One test as a JS object: `{n:…,m:…,b:…,k:…,s:…}`.
pub open spec fn test_entry(t: TestView) -> Seq<char> {
    "{n:"@ + json_quoted(t.name@) + ",m:"@ + json_quoted(t.module@) + ",b:"@ + json_quoted(t.binary@)
        + ",k:"@ + json_quoted(t.kind@) + ",s:"@ + json_quoted(t.status@) + "}"@
}

/// The tests as a JS array.
pub open spec fn tests_js_spec(tests: Seq<TestView>) -> Seq<char> {
    seq!['['] + join_commas(tests.map_values(|t: TestView| test_entry(t))) + seq![']']
}

/// Appends one test as a JS object (see `test_entry`).
fn push_test_entry(out: &mut String, t: &TestView<'_>)
    ensures
        final(out)@ == old(out)@ + test_entry(*t),
{
    out.append("{n:");
    out.append(json_str(t.name).as_str());
    out.append(",m:");
    out.append(json_str(t.module).as_str());
    out.append(",b:");
    out.append(json_str(t.binary).as_str());
    out.append(",k:");
    out.append(json_str(t.kind).as_str());
    out.append(",s:");
    out.append(json_str(t.status).as_str());
    out.append("}");
    assert(out@ =~= old(out)@ + test_entry(*t));
}

/// The tests as a JS array (see `tests_js_spec`).
pub fn tests_js(tests: &[TestView<'_>]) -> (r: String)
    ensures
        r@ == tests_js_spec(tests@),
{
    let ghost parts = tests@.map_values(|t: TestView| test_entry(t));
    let mut out = String::new();
    push_char(&mut out, '[');
    let ghost start = out@;
    let mut i: usize = 0;
    while i < tests.len()
        invariant
            i <= tests@.len(),
            parts == tests@.map_values(|t: TestView| test_entry(t)),
            out@ == start + join_commas(parts.take(i as int)),
        decreases tests@.len() - i,
    {
        proof {
            lemma_join_step(parts, i as int);
        }
        if i > 0 {
            push_char(&mut out, ',');
        }
        push_test_entry(&mut out, &tests[i]);
        assert(out@ =~= start + join_commas(parts.take(i + 1)));
        i += 1;
    }
    assert(parts.take(tests@.len() as int) =~= parts);
    push_char(&mut out, ']');
    assert(out@ =~= tests_js_spec(tests@));
    out
}

/// One file's below-threshold map, keyed by its path.
pub open spec fn cov_entry(e: (Seq<char>, SourceFile)) -> Seq<char> {
    json_quoted(e.0) + seq![':'] + lines_obj_spec(e.1.lines.seq())
}

/// One file's above-threshold map, keyed by its path.
pub open spec fn above_file_entry(e: (Seq<char>, SourceFile)) -> Seq<char> {
    json_quoted(e.0) + seq![':'] + above_obj_spec(e.1.above_threshold.seq())
}

/// What `build_data` returns.
pub open spec fn build_data_spec(tests: Seq<TestView>, coverage: Seq<(Seq<char>, SourceFile)>) -> (
    Seq<char>,
    Seq<char>,
    Seq<char>,
) {
    (
        tests_js_spec(tests),
        seq!['{'] + join_commas(coverage.map_values(|e: (Seq<char>, SourceFile)| cov_entry(e)))
            + seq!['}'],
        seq!['{'] + join_commas(
            coverage.map_values(|e: (Seq<char>, SourceFile)| above_file_entry(e)),
        ) + seq!['}'],
    )
}

/// Build `(tests_array_js, coverage_map_js, above_threshold_map_js)`.
pub fn build_data(tests: &[TestView<'_>], coverage: &StrMap<SourceFile>) -> (r: (
    String,
    String,
    String,
))
    ensures
        (r.0@, r.1@, r.2@) == build_data_spec(tests@, coverage.seq()),
{
    let tests_js = tests_js(tests);
    let ghost cparts = coverage.seq().map_values(|e: (Seq<char>, SourceFile)| cov_entry(e));
    let ghost aparts = coverage.seq().map_values(|e: (Seq<char>, SourceFile)| above_file_entry(e));
    let mut cov_js = String::new();
    let mut above_js = String::new();
    push_char(&mut cov_js, '{');
    push_char(&mut above_js, '{');
    let mut i: usize = 0;
    while i < coverage.len()
        invariant
            i <= coverage.seq().len(),
            cparts == coverage.seq().map_values(|e: (Seq<char>, SourceFile)| cov_entry(e)),
            aparts == coverage.seq().map_values(|e: (Seq<char>, SourceFile)| above_file_entry(e)),
            cov_js@ == seq!['{'] + join_commas(cparts.take(i as int)),
            above_js@ == seq!['{'] + join_commas(aparts.take(i as int)),
        decreases coverage.seq().len() - i,
    {
        proof {
            lemma_join_step(cparts, i as int);
            lemma_join_step(aparts, i as int);
        }
        if i > 0 {
            push_char(&mut cov_js, ',');
            push_char(&mut above_js, ',');
        }
        let (path, src) = coverage.entry(i);
        let p = json_str(path.as_str());
        cov_js.append(p.as_str());
        push_char(&mut cov_js, ':');
        push_lines_obj(&mut cov_js, &src.lines);
        above_js.append(p.as_str());
        push_char(&mut above_js, ':');
        push_above_obj(&mut above_js, &src.above_threshold);
        assert(cov_js@ =~= seq!['{'] + join_commas(cparts.take(i + 1)));
        assert(above_js@ =~= seq!['{'] + join_commas(aparts.take(i + 1)));
        i += 1;
    }
    assert(cparts.take(coverage.seq().len() as int) =~= cparts);
    assert(aparts.take(coverage.seq().len() as int) =~= aparts);
    push_char(&mut cov_js, '}');
    push_char(&mut above_js, '}');
    (tests_js, cov_js, above_js)
}

/// How many `'/'` `s` holds.
pub open spec fn slash_count(s: Seq<char>) -> nat
    decreases s.len(),
{
    if s.len() == 0 {
        0
    } else {
        slash_count(s.drop_last()) + if s.last() == '/' {
            1nat
        } else {
            0nat
        }
    }
}

/// `"../"` repeated `n` times.
pub open spec fn ups(n: nat) -> Seq<char>
    decreases n,
{
    if n == 0 {
        Seq::empty()
    } else {
        ups((n - 1) as nat) + "../"@
    }
}

/// Number of "../" needed to get from `out_dir/<path>.html` back to
/// `out_dir`.
pub fn up_prefix(path: &str) -> (r: String)
    ensures
        r@ == ups(slash_count(path@)),
{
    let cs = crate::text::chars_of(path);
    let mut out = String::new();
    let mut i: usize = 0;
    while i < cs.len()
        invariant
            i <= cs@.len(),
            cs@ == path@,
            out@ == ups(slash_count(cs@.take(i as int))),
        decreases cs@.len() - i,
    {
        assert(cs@.take(i + 1).drop_last() =~= cs@.take(i as int));
        if cs[i] == '/' {
            out.append("../");
        }
        i += 1;
    }
    assert(cs@.take(cs@.len() as int) =~= path@);
    out
}

// ---------------------------------------------------------------------------
// Stats fragments
// ---------------------------------------------------------------------------

/// How (or whether) the "N uncovered" / "N ignored" parts of a stats line
/// react to being clicked.
#[derive(Clone, Copy)]
pub enum StatsClick<'a> {
    /// Plain spans — no interaction (e.g. the aggregate index total).
    NoClick,
    /// Clicking scrolls to the next matching line on the current page.
    ScrollPage,
    /// Clicking scrolls to the next matching line within one file's section.
    ScrollFile(&'a str),
}

/// A stats line's click behavior, with the file as characters.
pub enum ClickView {
    Plain,
    Page,
    File(Seq<char>),
}

/// The click behavior `c` describes.
pub open spec fn click_view(c: StatsClick) -> ClickView {
    match c {
        StatsClick::NoClick => ClickView::Plain,
        StatsClick::ScrollPage => ClickView::Page,
        StatsClick::ScrollFile(p) => ClickView::File(p@),
    }
}

/// The id of a file's section: the FNV-1a hash of its path's UTF-8 bytes,
/// as 16 hex digits.
pub open spec fn file_id_spec(path: Seq<char>) -> Seq<char> {
    hex_pad(fnv_spec(vstd::utf8::encode_utf8(path)) as nat, 16)
}

/// The color legend explaining the gutter dots.
pub open spec fn legend_spec() -> Seq<char> {
    "<div class=\"legend\"><span><span class=\"dot covered\"></span>covered</span> <span><span class=\"dot uncovered\"></span>uncovered</span> <span><span class=\"dot excluded\"></span>excluded</span> <span><span class=\"dot excl-covered\"></span>excluded but covered</span> <span><span class=\"dot ignored\"></span>ignored</span></div>"@
}

/// The color legend explaining the gutter dots.
pub fn legend_html() -> (r: &'static str)
    ensures
        r@ == legend_spec(),
{
    "<div class=\"legend\"><span><span class=\"dot covered\"></span>covered</span> <span><span class=\"dot uncovered\"></span>uncovered</span> <span><span class=\"dot excluded\"></span>excluded</span> <span><span class=\"dot excl-covered\"></span>excluded but covered</span> <span><span class=\"dot ignored\"></span>ignored</span></div>"
}

/// A neutral `-` placeholder for a zero count.
pub open spec fn zero_dash_spec() -> Seq<char> {
    "<span class=\"dash\">-</span>"@
}

/// A neutral `-` placeholder for a zero count in the index table.
pub fn zero_dash() -> (r: String)
    ensures
        r@ == zero_dash_spec(),
{
    String::from_str("<span class=\"dash\">-</span>")
}

/// A count, or the dash when it is zero.
pub open spec fn count_or_dash_spec(n: u32) -> Seq<char> {
    if n == 0 {
        zero_dash_spec()
    } else {
        dec(n as nat)
    }
}

/// A plain count for a non-jump index column, or a dash when zero.
pub fn count_or_dash(n: u32) -> (r: String)
    ensures
        r@ == count_or_dash_spec(n),
{
    if n == 0 {
        zero_dash()
    } else {
        crate::text::dec_string(n as u64)
    }
}

/// A count linking into the file page at the first matching line, or the
/// dash when it is zero.
pub open spec fn jump_count_link_spec(url: Seq<char>, kind: Seq<char>, n: u32, base: Seq<char>) -> Seq<
    char,
> {
    if n == 0 {
        zero_dash_spec()
    } else {
        "<a class=\"jump "@ + base + "\" href=\""@ + escape_spec(url) + "?jump="@ + kind + "\">"@
            + dec(n as nat) + "</a>"@
    }
}

/// A bare count cell for the index table's uncovered/ignored columns.
pub fn jump_count_link(url: &str, kind: &str, n: u32, base: &str) -> (r: String)
    ensures
        r@ == jump_count_link_spec(url@, kind@, n, base@),
{
    if n == 0 {
        zero_dash()
    } else {
        let mut out = String::from_str("<a class=\"jump ");
        out.append(base);
        out.append("\" href=\"");
        push_escaped(&mut out, url);
        out.append("?jump=");
        out.append(kind);
        out.append("\">");
        push_dec(&mut out, n as u64);
        out.append("</a>");
        out
    }
}

/// One "N kind" fragment of a stats line.
pub open spec fn jump_part_spec(kind: Seq<char>, n: u32, base: Seq<char>, click: ClickView) -> Seq<
    char,
> {
    match click {
        ClickView::Plain => " · <span class=\""@ + base + "\">"@ + dec(n as nat) + seq![' ']
            + kind + "</span>"@,
        ClickView::Page => " · <a class=\"jump "@ + base + "\" data-jump=\""@ + kind
            + "\" href=\"#\" role=\"button\" tabindex=\"0\">"@ + dec(n as nat) + seq![' '] + kind
            + "</a>"@,
        ClickView::File(path) => " · <a class=\"jump "@ + base + "\" data-jump=\""@ + kind
            + "\" data-file-id=\""@ + file_id_spec(path)
            + "\" href=\"#\" role=\"button\" tabindex=\"0\">"@ + dec(n as nat) + seq![' '] + kind
            + "</a>"@,
    }
}

/// Render one clickable-or-plain "N kind" fragment of a stats line.
pub fn jump_part(kind: &str, n: u32, base: &str, click: StatsClick<'_>) -> (r: String)
    ensures
        r@ == jump_part_spec(kind@, n, base@, click_view(click)),
{
    match click {
        StatsClick::NoClick => {
            let mut out = String::from_str(" · <span class=\"");
            out.append(base);
            out.append("\">");
            push_dec(&mut out, n as u64);
            push_char(&mut out, ' ');
            out.append(kind);
            out.append("</span>");
            out
        },
        StatsClick::ScrollPage => {
            let mut out = String::from_str(" · <a class=\"jump ");
            out.append(base);
            out.append("\" data-jump=\"");
            out.append(kind);
            out.append("\" href=\"#\" role=\"button\" tabindex=\"0\">");
            push_dec(&mut out, n as u64);
            push_char(&mut out, ' ');
            out.append(kind);
            out.append("</a>");
            out
        },
        StatsClick::ScrollFile(path) => {
            let mut out = String::from_str(" · <a class=\"jump ");
            out.append(base);
            out.append("\" data-jump=\"");
            out.append(kind);
            out.append("\" data-file-id=\"");
            out.append(fnv1a(path).as_str());
            out.append("\" href=\"#\" role=\"button\" tabindex=\"0\">");
            push_dec(&mut out, n as u64);
            push_char(&mut out, ' ');
            out.append(kind);
            out.append("</a>");
            out
        },
    }
}

/// `coverable - covered`, or 0.
pub open spec fn uncovered_of(s: LineStats) -> u32 {
    if s.coverable >= s.covered {
        (s.coverable - s.covered) as u32
    } else {
        0
    }
}

/// A coverage summary line: `covered / coverable (pct)`, then the
/// uncovered, excluded and ignored counts when they are not zero.
pub open spec fn stats_html_spec(s: LineStats, click: ClickView) -> Seq<char> {
    let pct = match pct_spec(s) {
        Some(p) => dec(p as nat) + seq!['%'],
        None => "—"@,
    };
    let head = "<span class=\"covered\">"@ + dec(s.covered as nat)
        + "</span> / <span class=\"coverable\">"@ + dec(s.coverable as nat) + "</span>"@
        + " <span class=\"pct\">("@ + pct + ")</span>"@;
    let u = uncovered_of(s);
    let a = if u > 0 {
        jump_part_spec("uncovered"@, u, "gap"@, click)
    } else {
        Seq::empty()
    };
    let b = if s.excluded > 0 {
        jump_part_spec("excluded"@, s.excluded, "muted"@, click)
    } else {
        Seq::empty()
    };
    let c = if s.ignored > 0 {
        jump_part_spec("ignored"@, s.ignored, "muted"@, click)
    } else {
        Seq::empty()
    };
    head + a + b + c
}

/// Render a coverage summary line for a totals or per-file block.
#[verifier::spinoff_prover]
pub fn stats_html(s: LineStats, click: StatsClick<'_>) -> (r: String)
    requires
        s.covered * 100 <= u32::MAX,
    ensures
        r@ == stats_html_spec(s, click_view(click)),
{
    let uncovered = s.coverable.saturating_sub(s.covered);
    let mut out = String::from_str("<span class=\"covered\">");
    push_dec(&mut out, s.covered as u64);
    out.append("</span> / <span class=\"coverable\">");
    push_dec(&mut out, s.coverable as u64);
    out.append("</span>");
    out.append(" <span class=\"pct\">(");
    match s.pct() {
        Some(p) => {
            push_dec(&mut out, p as u64);
            push_char(&mut out, '%');
        },
        None => {
            out.append("—");
        },
    }
    out.append(")</span>");
    let ghost head = out@;
    if uncovered > 0 {
        out.append(jump_part("uncovered", uncovered, "gap", click).as_str());
    }
    let ghost ha = out@;
    if s.excluded > 0 {
        out.append(jump_part("excluded", s.excluded, "muted", click).as_str());
    }
    let ghost hb = out@;
    if s.ignored > 0 {
        out.append(jump_part("ignored", s.ignored, "muted", click).as_str());
    }
    proof {
        if uncovered == 0 {
            assert(ha =~= head + Seq::<char>::empty());
        }
        if s.excluded == 0 {
            assert(hb =~= ha + Seq::<char>::empty());
        }
        if s.ignored == 0 {
            assert(out@ =~= hb + Seq::<char>::empty());
        }
    }
    assert(out@ =~= stats_html_spec(s, click_view(click)));
    out
}

// ---------------------------------------------------------------------------
// Per-test line counts
// ---------------------------------------------------------------------------

/// How often `i` occurs in `v`.
pub open spec fn occ(v: Seq<u32>, i: int) -> nat
    decreases v.len(),
{
    if v.len() == 0 {
        0
    } else {
        occ(v.drop_last(), i) + if v.last() == i {
            1nat
        } else {
            0nat
        }
    }
}

/// How often `i` occurs in the test lists of a file's line map.
pub open spec fn line_occ(lines: Seq<(Seq<char>, Vec<u32>)>, i: int) -> nat
    decreases lines.len(),
{
    if lines.len() == 0 {
        0
    } else {
        line_occ(lines.drop_last(), i) + occ(lines.last().1@, i)
    }
}

/// How many mapped lines (below the threshold) list test `i`, over all
/// files.
pub open spec fn cov_occ(files: Seq<(Seq<char>, SourceFile)>, i: int) -> nat
    decreases files.len(),
{
    if files.len() == 0 {
        0
    } else {
        cov_occ(files.drop_last(), i) + line_occ(files.last().1.lines.seq(), i)
    }
}

/// For each test index below `n_tests`, how many mapped lines it covers:
/// the (post-threshold) coverage map inverted.
#[verifier::spinoff_prover]
pub fn per_test_counts(n_tests: usize, coverage: &StrMap<SourceFile>) -> (r: Vec<u32>)
    requires
        forall|i: int| 0 <= i < n_tests ==> #[trigger] cov_occ(coverage.seq(), i) <= u32::MAX,
    ensures
        r@.len() == n_tests,
        forall|i: int| 0 <= i < n_tests ==> #[trigger] r@[i] == cov_occ(coverage.seq(), i),
{
    let ghost files = coverage.seq();
    let mut counts: Vec<u32> = Vec::new();
    let mut z: usize = 0;
    while z < n_tests
        invariant
            z <= n_tests,
            counts@.len() == z,
            forall|i: int| 0 <= i < z ==> #[trigger] counts@[i] == 0,
        decreases n_tests - z,
    {
        counts.push(0);
        z += 1;
    }
    let mut a: usize = 0;
    while a < coverage.len()
        invariant
            a <= files.len(),
            files == coverage.seq(),
            counts@.len() == n_tests,
            forall|i: int| 0 <= i < n_tests ==> #[trigger] cov_occ(files, i) <= u32::MAX,
            forall|i: int| 0 <= i < n_tests ==> #[trigger] counts@[i] == cov_occ(files.take(a as int), i),
        decreases files.len() - a,
    {
        let (_, src) = coverage.entry(a);
        let ghost lines = src.lines.seq();
        proof {
            assert(files.take(a + 1).drop_last() =~= files.take(a as int));
            assert forall|i: int| 0 <= i < n_tests implies #[trigger] cov_occ(files.take(a + 1), i)
                <= u32::MAX by {
                lemma_cov_occ_mono(files, a + 1, i);
            }
        }
        let mut b: usize = 0;
        while b < src.lines.len()
            invariant
                a < files.len(),
                files == coverage.seq(),
                lines == src.lines.seq(),
                files[a as int].1 == *src,
                b <= lines.len(),
                counts@.len() == n_tests,
                forall|i: int|
                    0 <= i < n_tests ==> #[trigger] cov_occ(files.take(a + 1), i) <= u32::MAX,
                forall|i: int|
                    0 <= i < n_tests ==> #[trigger] counts@[i] == cov_occ(files.take(a as int), i)
                        + line_occ(lines.take(b as int), i),
            decreases lines.len() - b,
        {
            let (_, idxs) = src.lines.entry(b);
            proof {
                assert(lines.take(b + 1).drop_last() =~= lines.take(b as int));
                assert forall|i: int| 0 <= i < n_tests implies cov_occ(files.take(a as int), i)
                    + line_occ(lines.take(b + 1), i) <= u32::MAX by {
                    lemma_line_occ_mono(lines, b + 1, i);
                    assert(files.take(a + 1).drop_last() =~= files.take(a as int));
                    assert(files.take(a + 1).last() == files[a as int]);
                    assert(cov_occ(files.take(a + 1), i) == cov_occ(files.take(a as int), i)
                        + line_occ(lines, i));
                }
            }
            let mut c: usize = 0;
            while c < idxs.len()
                invariant
                    b < lines.len(),
                    lines[b as int].1 == *idxs,
                    c <= idxs@.len(),
                    counts@.len() == n_tests,
                    forall|i: int|
                        0 <= i < n_tests ==> #[trigger] cov_occ(files.take(a as int), i) + line_occ(
                            lines.take(b + 1),
                            i,
                        ) <= u32::MAX,
                    forall|i: int|
                        0 <= i < n_tests ==> #[trigger] counts@[i] == cov_occ(files.take(a as int), i)
                            + line_occ(lines.take(b as int), i) + occ(idxs@.take(c as int), i),
                decreases idxs@.len() - c,
            {
                let x = idxs[c];
                proof {
                    assert(idxs@.take(c + 1).drop_last() =~= idxs@.take(c as int));
                    assert(idxs@.take(c + 1).last() == x);
                    assert(lines.take(b + 1).drop_last() =~= lines.take(b as int));
                    assert(lines.take(b + 1).last() == lines[b as int]);
                    assert forall|i: int| 0 <= i < n_tests implies occ(idxs@.take(c + 1), i) <= occ(
                        idxs@,
                        i,
                    ) by {
                        lemma_occ_mono(idxs@, c + 1, i);
                        assert(idxs@.take(idxs@.len() as int) =~= idxs@);
                    }
                }
                if (x as usize) < n_tests {
                    let cur = counts[x as usize];
                    counts.set(x as usize, cur + 1);
                }
                c += 1;
            }
            proof {
                assert(idxs@.take(idxs@.len() as int) =~= idxs@);
            }
            b += 1;
        }
        proof {
            assert(lines.take(lines.len() as int) =~= lines);
        }
        a += 1;
    }
    proof {
        assert(files.take(files.len() as int) =~= files);
    }
    counts
}

proof fn lemma_occ_mono(v: Seq<u32>, k: int, i: int)
    requires
        0 <= k <= v.len(),
    ensures
        occ(v.take(k), i) <= occ(v, i),
    decreases v.len() - k,
{
    if k < v.len() {
        lemma_occ_mono(v, k + 1, i);
        assert(v.take(k + 1).drop_last() =~= v.take(k));
    } else {
        assert(v.take(k) =~= v);
    }
}

proof fn lemma_line_occ_mono(v: Seq<(Seq<char>, Vec<u32>)>, k: int, i: int)
    requires
        0 <= k <= v.len(),
    ensures
        line_occ(v.take(k), i) <= line_occ(v, i),
    decreases v.len() - k,
{
    if k < v.len() {
        lemma_line_occ_mono(v, k + 1, i);
        assert(v.take(k + 1).drop_last() =~= v.take(k));
    } else {
        assert(v.take(k) =~= v);
    }
}

proof fn lemma_cov_occ_mono(v: Seq<(Seq<char>, SourceFile)>, k: int, i: int)
    requires
        0 <= k <= v.len(),
    ensures
        cov_occ(v.take(k), i) <= cov_occ(v, i),
    decreases v.len() - k,
{
    if k < v.len() {
        lemma_cov_occ_mono(v, k + 1, i);
        assert(v.take(k + 1).drop_last() =~= v.take(k));
    } else {
        assert(v.take(k) =~= v);
    }
}

// ---------------------------------------------------------------------------
// Source listing
// ---------------------------------------------------------------------------

/// The extra `<tr>` attributes of a source row.
#[derive(Clone, Copy)]
pub enum RowAttrs<'a> {
    /// `data-line` only (a file's own page).
    Line,
    /// `data-file` (the escaped path) and `data-line` (the single-file
    /// report).
    FileLine(&'a str),
}

/// The file named in a row's attributes, if any.
pub open spec fn attrs_view(a: RowAttrs) -> Option<Seq<char>> {
    match a {
        RowAttrs::Line => None,
        RowAttrs::FileLine(p) => Some(p@),
    }
}

/// The attributes of the row for line number `ln` (`data-file` when a
/// file is named).
pub open spec fn row_attrs_spec(a: Option<Seq<char>>, ln: Seq<char>) -> Seq<char> {
    match a {
        None => " data-line=\""@ + ln + seq!['"'],
        Some(p) => " data-file=\""@ + escape_spec(p) + "\" data-line=\""@ + ln
            + seq!['"'],
    }
}

/// The class of line `i + 1`: `classes[i]`, or none past the end.
pub open spec fn class_at(classes: Seq<LineClass>, i: int) -> LineClass {
    if 0 <= i < classes.len() {
        classes[i]
    } else {
        LineClass::NonExecutable
    }
}

/// The ` class="…"` attribute of a row, when the class has one.
pub open spec fn class_attr_spec(class: LineClass) -> Seq<char> {
    match css_class_spec(class) {
        Some(c) => " class=\""@ + c + seq!['"'],
        None => Seq::empty(),
    }
}

/// The gutter cell of line number `ln`, with the class's tooltip if any.
pub open spec fn gutter_spec(class: LineClass, ln: Seq<char>) -> Seq<char> {
    let title = title_spec(class);
    if title.len() == 0 {
        "<td class=\"ln\">"@ + ln + "</td>"@
    } else {
        "<td class=\"ln\" title=\""@ + escape_spec(title) + "\">"@ + ln + "</td>"@
    }
}

/// The row of line `i + 1`: its class (driving the gutter dot), the
/// attributes, the gutter cell and the highlighted fragment.
pub open spec fn row_spec(i: int, frag: Seq<char>, class: LineClass, a: Option<Seq<char>>) -> Seq<char> {
    let ln = dec((i + 1) as nat);
    "<tr"@ + class_attr_spec(class) + row_attrs_spec(a, ln) + seq!['>'] + gutter_spec(class, ln)
        + "<td class=\"lc\">"@ + frag + "</td></tr>"@
}

/// The rows of the first `n` lines.
pub open spec fn rows_spec(h: Seq<Seq<char>>, classes: Seq<LineClass>, a: Option<Seq<char>>, n: int) -> Seq<
    char,
>
    decreases n,
{
    if n <= 0 {
        Seq::empty()
    } else {
        rows_spec(h, classes, a, n - 1) + row_spec(n - 1, h[n - 1], class_at(classes, n - 1), a)
    }
}

/// The highlighted source block.
pub open spec fn source_block_spec(h: Seq<Seq<char>>, classes: Seq<LineClass>, a: Option<Seq<char>>) -> Seq<
    char,
> {
    "<pre class=\"source\"><code><table>"@ + rows_spec(h, classes, a, h.len() as int)
        + "</table></code></pre>"@
}

fn push_class_attr(out: &mut String, class: LineClass)
    ensures
        final(out)@ == old(out)@ + class_attr_spec(class),
{
    match class.css_class() {
        Some(c) => {
            out.append(" class=\"");
            out.append(c);
            push_char(out, '"');
        },
        None => {},
    }
    assert(out@ =~= old(out)@ + class_attr_spec(class));
}

fn push_row_attrs(out: &mut String, a: RowAttrs<'_>, ln: &str)
    ensures
        final(out)@ == old(out)@ + row_attrs_spec(attrs_view(a), ln@),
{
    match a {
        RowAttrs::Line => {
            out.append(" data-line=\"");
            out.append(ln);
            push_char(out, '"');
        },
        RowAttrs::FileLine(p) => {
            out.append(" data-file=\"");
            push_escaped(out, p);
            out.append("\" data-line=\"");
            out.append(ln);
            push_char(out, '"');
        },
    }
    assert(out@ =~= old(out)@ + row_attrs_spec(attrs_view(a), ln@));
}

fn push_gutter(out: &mut String, class: LineClass, ln: &str)
    ensures
        final(out)@ == old(out)@ + gutter_spec(class, ln@),
{
    let title = class.title();
    if crate::text::chars_of(title).len() == 0 {
        out.append("<td class=\"ln\">");
        out.append(ln);
        out.append("</td>");
    } else {
        out.append("<td class=\"ln\" title=\"");
        push_escaped(out, title);
        out.append("\">");
        out.append(ln);
        out.append("</td>");
    }
    assert(out@ =~= old(out)@ + gutter_spec(class, ln@));
}

/// Appends the row of line `i + 1`.
fn push_row(out: &mut String, i: usize, frag: &str, class: LineClass, a: RowAttrs<'_>)
    requires
        i < usize::MAX,
    ensures
        final(out)@ == old(out)@ + row_spec(i as int, frag@, class, attrs_view(a)),
{
    let ln = crate::text::dec_string((i + 1) as u64);
    out.append("<tr");
    push_class_attr(out, class);
    push_row_attrs(out, a, ln.as_str());
    push_char(out, '>');
    push_gutter(out, class, ln.as_str());
    out.append("<td class=\"lc\">");
    out.append(frag);
    out.append("</td></tr>");
    assert(out@ =~= old(out)@ + row_spec(i as int, frag@, class, attrs_view(a)));
}

/// Emit the highlighted source block: one row per highlighted line,
/// `classes[i]` classifying line `i + 1`.
pub fn source_block(highlighted: &[String], classes: &[LineClass], tr_attrs: RowAttrs<'_>) -> (r: String)
    ensures
        r@ == source_block_spec(str_views(highlighted@), classes@, attrs_view(tr_attrs)),
{
    let ghost hv = str_views(highlighted@);
    let mut out = String::from_str("<pre class=\"source\"><code><table>");
    let ghost head = out@;
    let mut i: usize = 0;
    while i < highlighted.len()
        invariant
            i <= highlighted@.len(),
            hv == str_views(highlighted@),
            out@ == head + rows_spec(hv, classes@, attrs_view(tr_attrs), i as int),
        decreases highlighted@.len() - i,
    {
        let class = if i < classes.len() {
            classes[i]
        } else {
            LineClass::NonExecutable
        };
        assert(hv[i as int] == highlighted@[i as int]@);
        push_row(&mut out, i, highlighted[i].as_str(), class, tr_attrs);
        assert(out@ =~= head + rows_spec(hv, classes@, attrs_view(tr_attrs), i + 1));
        i += 1;
    }
    out.append("</table></code></pre>");
    out
}

// ---------------------------------------------------------------------------
// Per-file classes and totals
// ---------------------------------------------------------------------------

/// The classes of a file's lines (`classify`).
pub open spec fn classes_spec(src: SourceFile) -> Seq<LineClass> {
    Seq::new(lines_of(src.content@).len(), |i: int| class_of(&src, i))
}

/// The stats of a file's lines.
pub open spec fn file_stats_spec(src: SourceFile) -> LineStats {
    stats_spec(classes_spec(src))
}

/// The sums of coverable, covered, excluded and ignored lines over files.
pub open spec fn totals(files: Seq<(Seq<char>, SourceFile)>) -> (nat, nat, nat, nat)
    decreases files.len(),
{
    if files.len() == 0 {
        (0, 0, 0, 0)
    } else {
        let t = totals(files.drop_last());
        let s = file_stats_spec(files.last().1);
        (
            t.0 + s.coverable as nat,
            t.1 + s.covered as nat,
            t.2 + s.excluded as nat,
            t.3 + s.ignored as nat,
        )
    }
}

/// The totals as a stats line (unique and excluded-covered are not summed).
pub open spec fn total_stats(files: Seq<(Seq<char>, SourceFile)>) -> LineStats {
    let t = totals(files);
    LineStats {
        coverable: t.0 as u32,
        covered: t.1 as u32,
        unique: 0,
        excluded: t.2 as u32,
        excluded_covered: 0,
        ignored: t.3 as u32,
    }
}

/// The report's numbers fit its integers: every file has fewer than
/// `u32::MAX` lines, and the totals (the covered total times 100, for the
/// percentage) fit in a `u32`.
pub open spec fn report_fits(files: Seq<(Seq<char>, SourceFile)>) -> bool {
    &&& forall|i: int| 0 <= i < files.len() ==> lines_of((#[trigger] files[i]).1.content@).len() < u32::MAX
    &&& totals(files).0 <= u32::MAX
    &&& totals(files).1 * 100 <= u32::MAX
    &&& totals(files).2 <= u32::MAX
    &&& totals(files).3 <= u32::MAX
}

/// The index's total line is the sum over the files: its coverable,
/// covered, excluded and ignored counts are those of the files' own stats
/// added up, with nothing cut off when the report fits its integers; each
/// file adds its stats to the total of those before it.
pub proof fn law_index_total_is_sum(files: Seq<(Seq<char>, SourceFile)>)
    requires
        report_fits(files),
    ensures
        total_stats(files).coverable == totals(files).0,
        total_stats(files).covered == totals(files).1,
        total_stats(files).excluded == totals(files).2,
        total_stats(files).ignored == totals(files).3,
        files.len() > 0 ==> totals(files) == ({
            let t = totals(files.drop_last());
            let s = file_stats_spec(files.last().1);
            (
                t.0 + s.coverable as nat,
                t.1 + s.covered as nat,
                t.2 + s.excluded as nat,
                t.3 + s.ignored as nat,
            )
        }),
        files.len() == 0 ==> totals(files) == (0nat, 0nat, 0nat, 0nat),
{
}

proof fn lemma_totals_mono(files: Seq<(Seq<char>, SourceFile)>, k: int)
    requires
        0 <= k <= files.len(),
    ensures
        totals(files.take(k)).0 <= totals(files).0,
        totals(files.take(k)).1 <= totals(files).1,
        totals(files.take(k)).2 <= totals(files).2,
        totals(files.take(k)).3 <= totals(files).3,
    decreases files.len() - k,
{
    if k < files.len() {
        lemma_totals_mono(files, k + 1);
        assert(files.take(k + 1).drop_last() =~= files.take(k));
    } else {
        assert(files.take(k) =~= files);
    }
}

/// Every file's classes and stats, and the totals.
#[verifier::spinoff_prover]
pub fn classify_files(coverage: &StrMap<SourceFile>) -> (r: (Vec<Vec<LineClass>>, Vec<LineStats>, LineStats))
    requires
        report_fits(coverage.seq()),
    ensures
        r.0@.len() == coverage.seq().len(),
        r.1@.len() == coverage.seq().len(),
        forall|i: int|
            0 <= i < coverage.seq().len() ==> (#[trigger] r.0@[i])@ == classes_spec(
                coverage.seq()[i].1,
            ),
        forall|i: int|
            0 <= i < coverage.seq().len() ==> (#[trigger] r.1@[i]) == file_stats_spec(
                coverage.seq()[i].1,
            ) && r.1@[i].covered * 100 <= u32::MAX,
        r.2 == total_stats(coverage.seq()),
        r.2.covered * 100 <= u32::MAX,
{
    let ghost files = coverage.seq();
    let mut classes: Vec<Vec<LineClass>> = Vec::new();
    let mut stats_v: Vec<LineStats> = Vec::new();
    let mut total = LineStats::default();
    let mut i: usize = 0;
    while i < coverage.len()
        invariant
            i <= files.len(),
            files == coverage.seq(),
            report_fits(files),
            classes@.len() == i,
            stats_v@.len() == i,
            forall|k: int| 0 <= k < i ==> (#[trigger] classes@[k])@ == classes_spec(files[k].1),
            forall|k: int|
                0 <= k < i ==> (#[trigger] stats_v@[k]) == file_stats_spec(files[k].1)
                    && stats_v@[k].covered * 100 <= u32::MAX,
            total == total_stats(files.take(i as int)),
        decreases files.len() - i,
    {
        let (_, src) = coverage.entry(i);
        assert(lines_of(files[i as int].1.content@).len() < u32::MAX);
        let c = classify(src);
        let st = stats(c.as_slice());
        proof {
            assert(c@ =~= classes_spec(*src));
            assert(files.take(i + 1).drop_last() =~= files.take(i as int));
            assert(files.take(i + 1).last() == files[i as int]);
            lemma_totals_mono(files, i + 1);
            lemma_totals_mono(files, i as int);
        }
        total = LineStats {
            coverable: total.coverable + st.coverable,
            covered: total.covered + st.covered,
            unique: 0,
            excluded: total.excluded + st.excluded,
            excluded_covered: 0,
            ignored: total.ignored + st.ignored,
        };
        classes.push(c);
        stats_v.push(st);
        i += 1;
    }
    proof {
        assert(files.take(files.len() as int) =~= files);
    }
    (classes, stats_v, total)
}

// ---------------------------------------------------------------------------
// The index page
// ---------------------------------------------------------------------------

/// Client-side column sort for any `<table data-sortable>`: a click on a
/// `th` with a `data-sort` key sorts by that column (numerically where
/// `data-numeric="1"`), keeping each row's trailing `.failout` rows
/// attached to it.
pub const TABLE_SORT_JS: &'static str = "(function(){var ts=document.querySelectorAll('table[data-sortable]');ts.forEach(function(t){var tb=t.tBodies[0];if(!tb)return;var hs=t.querySelectorAll('th[data-sort]');var key=null,dir=1;hs.forEach(function(th){th.addEventListener('click',function(){var k=th.dataset.sort,num=th.dataset.numeric==='1';dir=(key===k)?-dir:1;key=k;hs.forEach(function(h){h.classList.remove('sort-asc','sort-desc');});th.classList.add(dir>0?'sort-asc':'sort-desc');var c=th.cellIndex;var rows=Array.prototype.slice.call(tb.rows);var pairs=[];for(var i=0;i<rows.length;){var main=rows[i++];var extras=[];while(i<rows.length&&rows[i].classList.contains('failout')){extras.push(rows[i++]);}pairs.push([main,extras]);}pairs.sort(function(a,b){var ra=a[0],rb=b[0];var av=ra.cells[c].dataset.v;if(av===undefined)av=ra.cells[c].textContent.trim();var bv=rb.cells[c].dataset.v;if(bv===undefined)bv=rb.cells[c].textContent.trim();if(num){av=+av;bv=+bv;}return av<bv?-dir:av>bv?dir:0;});while(tb.firstChild)tb.removeChild(tb.firstChild);pairs.forEach(function(p){tb.appendChild(p[0]);p[1].forEach(function(e){tb.appendChild(e);});});});});});})();";

/// The page head shared by every page: doctype, charset, viewport.
pub open spec fn page_open_spec() -> Seq<char> {
    "<!doctype html><html lang=\"en\"><head><meta charset=\"utf-8\"><meta name=\"viewport\" content=\"width=device-width, initial-scale=1\">"@
}

/// The sortable file table's header.
pub open spec fn filelist_head_spec() -> Seq<char> {
    "<table class=\"filelist-table\" data-sortable><thead><tr><th data-sort=\"path\">file</th><th data-sort=\"covered\" data-numeric=\"1\">covered</th><th data-sort=\"coverable\" data-numeric=\"1\">coverable</th><th data-sort=\"pct\" data-numeric=\"1\">%</th><th data-sort=\"uncovered\" data-numeric=\"1\">uncovered</th><th data-sort=\"excluded\" data-numeric=\"1\">excluded</th><th data-sort=\"ignored\" data-numeric=\"1\">ignored</th></tr></thead><tbody>"@
}

/// The index page up to the file table's rows.
pub open spec fn index_head_spec(
    theme_name: Seq<char>,
    theme_css: Seq<char>,
    n_tests: nat,
    n_files: nat,
    total: LineStats,
) -> Seq<char> {
    page_open_spec() + "<title>testmap report</title><link rel=\"stylesheet\" href=\"css/style.css\">"@
        + "<style>"@ + theme_css + "</style>"@ + "</head><body><main class=\"index\"><h1>testmap</h1>"@
        + "<p class=\"meta\">"@ + dec(n_tests) + " test(s) · "@ + dec(n_files) + " file(s) · theme: "@
        + escape_spec(theme_name) + " · <a href=\"tests.html\">view all tests →</a></p>"@
        + "<p class=\"total\">total: "@ + stats_html_spec(total, ClickView::Plain) + "</p>"@
        + legend_spec() + filelist_head_spec()
}

/// The sort value and text of a percentage cell.
pub open spec fn pct_cell(s: LineStats) -> (nat, Seq<char>) {
    match pct_spec(s) {
        Some(p) => (p as nat, dec(p as nat) + seq!['%']),
        None => (0, "—"@),
    }
}

/// One row of the file table.
pub open spec fn index_row_spec(path: Seq<char>, s: LineStats) -> Seq<char> {
    let url = path + ".html"@;
    let u = uncovered_of(s);
    let pct = pct_cell(s);
    "<tr><td class=\"fname\" data-v=\""@ + escape_spec(path) + "\"><a href=\""@ + escape_spec(url)
        + "\">"@ + escape_spec(path) + "</a></td>"@ + "<td class=\"num covered\" data-v=\""@
        + dec(s.covered as nat) + "\">"@ + dec(s.covered as nat) + "</td>"@
        + "<td class=\"num coverable\" data-v=\""@ + dec(s.coverable as nat) + "\">"@
        + dec(s.coverable as nat) + "</td>"@ + "<td class=\"num pct\" data-v=\""@ + dec(pct.0)
        + "\">"@ + pct.1 + "</td>"@ + "<td class=\"num gap\" data-v=\""@ + dec(u as nat) + "\">"@
        + jump_count_link_spec(url, "uncovered"@, u, "gap"@) + "</td>"@
        + "<td class=\"num muted\" data-v=\""@ + dec(s.excluded as nat) + "\">"@
        + count_or_dash_spec(s.excluded) + "</td>"@ + "<td class=\"num muted\" data-v=\""@
        + dec(s.ignored as nat) + "\">"@ + jump_count_link_spec(url, "ignored"@, s.ignored, "muted"@)
        + "</td>"@ + "</tr>"@
}

/// The end of the index page.
pub open spec fn index_tail_spec() -> Seq<char> {
    "</tbody></table><script>"@ + TABLE_SORT_JS@ + "</script></main></body></html>"@
}

/// The index order's key of a file: coverage percentage (0 when nothing
/// is coverable), uncovered lines, path.
pub open spec fn index_key(path: Seq<char>, s: LineStats) -> (nat, nat, Seq<char>) {
    (pct_cell(s).0, uncovered_of(s) as nat, path)
}

/// `a` comes before `b` in the index: lower percentage first, then more
/// uncovered lines, then path order.
pub open spec fn index_lt(a: (nat, nat, Seq<char>), b: (nat, nat, Seq<char>)) -> bool {
    a.0 < b.0 || (a.0 == b.0 && (a.1 > b.1 || (a.1 == b.1 && lex_lt(a.2, b.2))))
}

/// The key of the `k`-th file.
pub open spec fn file_key(files: Seq<(Seq<char>, SourceFile)>, k: int) -> (nat, nat, Seq<char>) {
    index_key(files[k].0, file_stats_spec(files[k].1))
}

/// `ord` lists every file index once, in index order.
pub open spec fn is_index_order(files: Seq<(Seq<char>, SourceFile)>, ord: Seq<int>) -> bool {
    &&& ord.len() == files.len()
    &&& forall|a: int| 0 <= a < ord.len() ==> 0 <= #[trigger] ord[a] < files.len()
    &&& forall|a: int, b: int| 0 <= a < b < ord.len() ==> ord[a] != ord[b]
    &&& forall|a: int, b: int|
        0 <= a <= b < ord.len() ==> !index_lt(file_key(files, ord[b]), file_key(files, ord[a]))
}

/// The rows of the files `ord[..n]`.
pub open spec fn index_rows_spec(files: Seq<(Seq<char>, SourceFile)>, ord: Seq<int>, n: int) -> Seq<char>
    decreases n,
{
    if n <= 0 {
        Seq::empty()
    } else {
        index_rows_spec(files, ord, n - 1) + index_row_spec(
            files[ord[n - 1]].0,
            file_stats_spec(files[ord[n - 1]].1),
        )
    }
}

/// The index page, files in the order `ord`.
pub open spec fn index_spec(
    theme_name: Seq<char>,
    theme_css: Seq<char>,
    n_tests: nat,
    files: Seq<(Seq<char>, SourceFile)>,
    ord: Seq<int>,
) -> Seq<char> {
    index_head_spec(theme_name, theme_css, n_tests, files.len(), total_stats(files))
        + index_rows_spec(files, ord, ord.len() as int) + index_tail_spec()
}

/// `index_lt` is a strict order whose complement is transitive.
proof fn lemma_index_order(a: (nat, nat, Seq<char>), b: (nat, nat, Seq<char>), c: (nat, nat, Seq<char>))
    ensures
        !index_lt(a, a),
        index_lt(a, b) ==> !index_lt(b, a),
        index_lt(a, b) && index_lt(b, c) ==> index_lt(a, c),
        !index_lt(b, a) && !index_lt(c, b) ==> !index_lt(c, a),
{
    crate::text::lemma_lex_irrefl(a.2);
    crate::text::lemma_lex_total(a.2, b.2);
    crate::text::lemma_lex_total(b.2, c.2);
    crate::text::lemma_lex_total(a.2, c.2);
    if lex_lt(a.2, b.2) && lex_lt(b.2, c.2) {
        crate::text::lemma_lex_trans(a.2, b.2, c.2);
    }
    if lex_lt(c.2, a.2) && lex_lt(a.2, b.2) {
        crate::text::lemma_lex_trans(c.2, a.2, b.2);
    }
    if lex_lt(b.2, c.2) && lex_lt(c.2, a.2) {
        crate::text::lemma_lex_trans(b.2, c.2, a.2);
    }
}

/// The sort value of a file's percentage cell.
fn pct_value(s: LineStats) -> (r: u32)
    requires
        s.covered * 100 <= u32::MAX,
    ensures
        r == pct_cell(s).0,
{
    match s.pct() {
        Some(p) => p,
        None => 0,
    }
}

/// Whether file `a` comes before file `b` in the index.
fn index_before(pa: &str, sa: LineStats, pb: &str, sb: LineStats) -> (r: bool)
    requires
        sa.covered * 100 <= u32::MAX,
        sb.covered * 100 <= u32::MAX,
    ensures
        r == index_lt(index_key(pa@, sa), index_key(pb@, sb)),
{
    let xa = pct_value(sa);
    let xb = pct_value(sb);
    let ua = sa.coverable.saturating_sub(sa.covered);
    let ub = sb.coverable.saturating_sub(sb.covered);
    if xa != xb {
        xa < xb
    } else if ua != ub {
        ua > ub
    } else {
        str_lt(pa, pb)
    }
}

/// Whether the `i`-th file comes before the `j`-th in the index.
fn file_before(coverage: &StrMap<SourceFile>, stats: &Vec<LineStats>, i: usize, j: usize) -> (r: bool)
    requires
        i < coverage.seq().len(),
        j < coverage.seq().len(),
        stats@.len() == coverage.seq().len(),
        forall|k: int|
            0 <= k < stats@.len() ==> (#[trigger] stats@[k]) == file_stats_spec(coverage.seq()[k].1)
                && stats@[k].covered * 100 <= u32::MAX,
    ensures
        r == index_lt(file_key(coverage.seq(), i as int), file_key(coverage.seq(), j as int)),
{
    let (pi, _) = coverage.entry(i);
    let (pj, _) = coverage.entry(j);
    assert(stats@[i as int] == file_stats_spec(coverage.seq()[i as int].1));
    assert(stats@[j as int] == file_stats_spec(coverage.seq()[j as int].1));
    index_before(pi.as_str(), stats[i], pj.as_str(), stats[j])
}

/// The order of the index's file table: ascending coverage percentage,
/// then most uncovered lines, then path.
#[verifier::spinoff_prover]
pub fn index_order(coverage: &StrMap<SourceFile>, stats: &Vec<LineStats>) -> (r: Vec<usize>)
    requires
        stats@.len() == coverage.seq().len(),
        forall|i: int|
            0 <= i < stats@.len() ==> (#[trigger] stats@[i]) == file_stats_spec(coverage.seq()[i].1)
                && stats@[i].covered * 100 <= u32::MAX,
    ensures
        is_index_order(coverage.seq(), r@.map_values(|x: usize| x as int)),
{
    let ghost files = coverage.seq();
    let mut ord: Vec<usize> = Vec::new();
    let mut i: usize = 0;
    while i < coverage.len()
        invariant
            i <= files.len(),
            files == coverage.seq(),
            stats@.len() == files.len(),
            forall|k: int|
                0 <= k < stats@.len() ==> (#[trigger] stats@[k]) == file_stats_spec(files[k].1)
                    && stats@[k].covered * 100 <= u32::MAX,
            ord@.len() == i,
            forall|a: int| 0 <= a < ord@.len() ==> #[trigger] ord@[a] < i,
            forall|a: int, b: int| 0 <= a < b < ord@.len() ==> ord@[a] != ord@[b],
            forall|a: int, b: int|
                0 <= a <= b < ord@.len() ==> !index_lt(
                    file_key(files, ord@[b] as int),
                    file_key(files, ord@[a] as int),
                ),
        decreases files.len() - i,
    {
        let mut p = ord.len();
        while p > 0 && file_before(coverage, stats, i, ord[p - 1])
            invariant
                p <= ord@.len(),
                i < files.len(),
                files == coverage.seq(),
                stats@.len() == files.len(),
                forall|k: int|
                    0 <= k < stats@.len() ==> (#[trigger] stats@[k]) == file_stats_spec(files[k].1)
                        && stats@[k].covered * 100 <= u32::MAX,
                forall|a: int| 0 <= a < ord@.len() ==> #[trigger] ord@[a] < i,
                forall|k: int|
                    p <= k < ord@.len() ==> index_lt(
                        file_key(files, i as int),
                        file_key(files, #[trigger] ord@[k] as int),
                    ),
            decreases p,
        {
            p -= 1;
        }
        let ghost before = ord@;
        ord.insert(p, i);
        proof {
            let kx = file_key(files, i as int);
            assert forall|a: int, b: int| 0 <= a <= b < ord@.len() implies !index_lt(
                file_key(files, ord@[b] as int),
                file_key(files, ord@[a] as int),
            ) by {
                if a < p && b > p {
                    assert(!index_lt(
                        file_key(files, before[b - 1] as int),
                        file_key(files, before[a] as int),
                    ));
                }
                if a < p && b == p {
                    assert(!index_lt(
                        file_key(files, before[p - 1] as int),
                        file_key(files, before[a] as int),
                    ));
                    assert(!index_lt(kx, file_key(files, before[p - 1] as int)));
                    lemma_index_order(
                        file_key(files, before[a] as int),
                        file_key(files, before[p - 1] as int),
                        kx,
                    );
                }
                if a == p && b > p {
                    assert(index_lt(kx, file_key(files, before[b - 1] as int)));
                    lemma_index_order(kx, file_key(files, before[b - 1] as int), kx);
                }
                if a == p && b == p {
                    lemma_index_order(kx, kx, kx);
                }
                if a > p {
                    assert(!index_lt(
                        file_key(files, before[b - 1] as int),
                        file_key(files, before[a - 1] as int),
                    ));
                }
            }
            assert forall|a: int, b: int| 0 <= a < b < ord@.len() implies ord@[a] != ord@[b] by {
                if a < p && b > p {
                    assert(before[a] != before[b - 1]);
                }
                if a > p {
                    assert(before[a - 1] != before[b - 1]);
                }
            }
            assert forall|a: int| 0 <= a < ord@.len() implies #[trigger] ord@[a] < i + 1 by {
                if a < p {
                    assert(ord@[a] == before[a]);
                } else if a > p {
                    assert(ord@[a] == before[a - 1]);
                }
            }
        }
        i += 1;
    }
    let ghost ov = ord@.map_values(|x: usize| x as int);
    assert forall|a: int, b: int| 0 <= a < b < ov.len() implies ov[a] != ov[b] by {
        assert(ord@[a] != ord@[b]);
    }
    ord
}

fn push_page_open(out: &mut String)
    ensures
        final(out)@ == old(out)@ + page_open_spec(),
{
    out.append("<!doctype html><html lang=\"en\"><head>");
    out.append("<meta charset=\"utf-8\">");
    out.append("<meta name=\"viewport\" content=\"width=device-width, initial-scale=1\">");
    proof {
        reveal_strlit("<!doctype html><html lang=\"en\"><head>");
        reveal_strlit("<meta charset=\"utf-8\">");
        reveal_strlit("<meta name=\"viewport\" content=\"width=device-width, initial-scale=1\">");
        reveal_strlit(
            "<!doctype html><html lang=\"en\"><head><meta charset=\"utf-8\"><meta name=\"viewport\" content=\"width=device-width, initial-scale=1\">",
        );
    }
    assert(out@ =~= old(out)@ + page_open_spec());
}

fn push_filelist_head(out: &mut String)
    ensures
        final(out)@ == old(out)@ + filelist_head_spec(),
{
    out.append("<table class=\"filelist-table\" data-sortable><thead><tr>");
    out.append("<th data-sort=\"path\">file</th>");
    out.append("<th data-sort=\"covered\" data-numeric=\"1\">covered</th>");
    out.append("<th data-sort=\"coverable\" data-numeric=\"1\">coverable</th>");
    out.append("<th data-sort=\"pct\" data-numeric=\"1\">%</th>");
    out.append("<th data-sort=\"uncovered\" data-numeric=\"1\">uncovered</th>");
    out.append("<th data-sort=\"excluded\" data-numeric=\"1\">excluded</th>");
    out.append("<th data-sort=\"ignored\" data-numeric=\"1\">ignored</th>");
    out.append("</tr></thead><tbody>");
    proof {
        reveal_strlit("<table class=\"filelist-table\" data-sortable><thead><tr>");
        reveal_strlit("<th data-sort=\"path\">file</th>");
        reveal_strlit("<th data-sort=\"covered\" data-numeric=\"1\">covered</th>");
        reveal_strlit("<th data-sort=\"coverable\" data-numeric=\"1\">coverable</th>");
        reveal_strlit("<th data-sort=\"pct\" data-numeric=\"1\">%</th>");
        reveal_strlit("<th data-sort=\"uncovered\" data-numeric=\"1\">uncovered</th>");
        reveal_strlit("<th data-sort=\"excluded\" data-numeric=\"1\">excluded</th>");
        reveal_strlit("<th data-sort=\"ignored\" data-numeric=\"1\">ignored</th>");
        reveal_strlit("</tr></thead><tbody>");
        reveal_strlit(
            "<table class=\"filelist-table\" data-sortable><thead><tr><th data-sort=\"path\">file</th><th data-sort=\"covered\" data-numeric=\"1\">covered</th><th data-sort=\"coverable\" data-numeric=\"1\">coverable</th><th data-sort=\"pct\" data-numeric=\"1\">%</th><th data-sort=\"uncovered\" data-numeric=\"1\">uncovered</th><th data-sort=\"excluded\" data-numeric=\"1\">excluded</th><th data-sort=\"ignored\" data-numeric=\"1\">ignored</th></tr></thead><tbody>",
        );
    }
    assert(out@ =~= old(out)@ + filelist_head_spec());
}

/// The index page up to the file table's rows.
#[verifier::spinoff_prover]
fn index_head(theme_name: &str, theme_css: &str, n_tests: usize, n_files: usize, total: LineStats) -> (r:
    String)
    requires
        total.covered * 100 <= u32::MAX,
    ensures
        r@ == index_head_spec(theme_name@, theme_css@, n_tests as nat, n_files as nat, total),
{
    let mut out = String::new();
    push_page_open(&mut out);
    assert(out@ =~= page_open_spec());
    out.append("<title>testmap report</title><link rel=\"stylesheet\" href=\"css/style.css\">");
    out.append("<style>");
    out.append(theme_css);
    out.append("</style>");
    out.append("</head><body><main class=\"index\"><h1>testmap</h1>");
    out.append("<p class=\"meta\">");
    push_dec(&mut out, n_tests as u64);
    out.append(" test(s) · ");
    push_dec(&mut out, n_files as u64);
    out.append(" file(s) · theme: ");
    push_escaped(&mut out, theme_name);
    out.append(" · <a href=\"tests.html\">view all tests →</a></p>");
    out.append("<p class=\"total\">total: ");
    out.append(stats_html(total, StatsClick::NoClick).as_str());
    out.append("</p>");
    out.append(legend_html());
    let ghost before = out@;
    push_filelist_head(&mut out);
    out
}

/// One row of the index's file table.
#[verifier::spinoff_prover]
fn index_row(path: &str, s: LineStats) -> (r: String)
    requires
        s.covered * 100 <= u32::MAX,
    ensures
        r@ == index_row_spec(path@, s),
{
    let mut url = path.to_owned();
    url.append(".html");
    let uncovered = s.coverable.saturating_sub(s.covered);
    let (pct_v, pct_txt) = match s.pct() {
        Some(p) => {
            let mut t = crate::text::dec_string(p as u64);
            push_char(&mut t, '%');
            (p, t)
        },
        None => (0, "—".to_owned()),
    };
    let mut out = String::new();
    out.append("<tr><td class=\"fname\" data-v=\"");
    assert(out@ =~= "<tr><td class=\"fname\" data-v=\""@);
    push_escaped(&mut out, path);
    out.append("\"><a href=\"");
    push_escaped(&mut out, url.as_str());
    out.append("\">");
    push_escaped(&mut out, path);
    out.append("</a></td>");
    out.append("<td class=\"num covered\" data-v=\"");
    push_dec(&mut out, s.covered as u64);
    out.append("\">");
    push_dec(&mut out, s.covered as u64);
    out.append("</td>");
    out.append("<td class=\"num coverable\" data-v=\"");
    push_dec(&mut out, s.coverable as u64);
    out.append("\">");
    push_dec(&mut out, s.coverable as u64);
    out.append("</td>");
    out.append("<td class=\"num pct\" data-v=\"");
    push_dec(&mut out, pct_v as u64);
    out.append("\">");
    out.append(pct_txt.as_str());
    out.append("</td>");
    out.append("<td class=\"num gap\" data-v=\"");
    push_dec(&mut out, uncovered as u64);
    out.append("\">");
    out.append(jump_count_link(url.as_str(), "uncovered", uncovered, "gap").as_str());
    out.append("</td>");
    out.append("<td class=\"num muted\" data-v=\"");
    push_dec(&mut out, s.excluded as u64);
    out.append("\">");
    out.append(count_or_dash(s.excluded).as_str());
    out.append("</td>");
    out.append("<td class=\"num muted\" data-v=\"");
    push_dec(&mut out, s.ignored as u64);
    out.append("\">");
    out.append(jump_count_link(url.as_str(), "ignored", s.ignored, "muted").as_str());
    out.append("</td>");
    out.append("</tr>");
    out
}

/// The index page from each file's stats and the totals.
#[verifier::spinoff_prover]
#[verifier::rlimit(40)]
fn index_with(
    theme_name: &str,
    theme_css: &str,
    n_tests: usize,
    coverage: &StrMap<SourceFile>,
    stats: &Vec<LineStats>,
    total: LineStats,
) -> (r: String)
    requires
        stats@.len() == coverage.seq().len(),
        forall|i: int|
            0 <= i < stats@.len() ==> (#[trigger] stats@[i]) == file_stats_spec(coverage.seq()[i].1)
                && stats@[i].covered * 100 <= u32::MAX,
        total == total_stats(coverage.seq()),
        total.covered * 100 <= u32::MAX,
    ensures
        exists|ord: Seq<int>|
            #[trigger] is_index_order(coverage.seq(), ord) && r@ == index_spec(
                theme_name@,
                theme_css@,
                n_tests as nat,
                coverage.seq(),
                ord,
            ),
{
    let ghost files = coverage.seq();
    let ord = index_order(coverage, stats);
    let ghost ov = ord@.map_values(|x: usize| x as int);
    let mut out = index_head(theme_name, theme_css, n_tests, coverage.len(), total);
    let ghost head = out@;
    let mut k: usize = 0;
    while k < ord.len()
        invariant
            k <= ord@.len(),
            files == coverage.seq(),
            ov == ord@.map_values(|x: usize| x as int),
            is_index_order(files, ov),
            stats@.len() == files.len(),
            forall|i: int|
                0 <= i < stats@.len() ==> (#[trigger] stats@[i]) == file_stats_spec(files[i].1)
                    && stats@[i].covered * 100 <= u32::MAX,
            out@ == head + index_rows_spec(files, ov, k as int),
        decreases ord@.len() - k,
    {
        let j = ord[k];
        assert(ov[k as int] == j as int);
        assert(0 <= ov[k as int] < files.len());
        let (path, _) = coverage.entry(j);
        let row = index_row(path.as_str(), stats[j]);
        out.append(row.as_str());
        assert(out@ =~= head + index_rows_spec(files, ov, k + 1));
        k += 1;
    }
    out.append("</tbody></table><script>");
    out.append(TABLE_SORT_JS);
    out.append("</script></main></body></html>");
    assert(out@ =~= index_spec(theme_name@, theme_css@, n_tests as nat, files, ov));
    assert(is_index_order(files, ov));
    out
}

/// The directory report's `index.html`: totals, the legend and the file
/// table, worst coverage first (then most uncovered lines, then path).
pub fn index_page(theme_name: &str, theme_css: &str, n_tests: usize, coverage: &StrMap<SourceFile>) -> (r:
    String)
    requires
        report_fits(coverage.seq()),
    ensures
        exists|ord: Seq<int>|
            #[trigger] is_index_order(coverage.seq(), ord) && r@ == index_spec(
                theme_name@,
                theme_css@,
                n_tests as nat,
                coverage.seq(),
                ord,
            ),
{
    let (_, stats, total) = classify_files(coverage);
    index_with(theme_name, theme_css, n_tests, coverage, &stats, total)
}

// ---------------------------------------------------------------------------
// A file's page
// ---------------------------------------------------------------------------

/// The hover panel.
pub open spec fn panel_spec() -> Seq<char> {
    "<div id=\"panel\" class=\"panel\" role=\"status\"><span class=\"hint\">Hover a highlighted line to see covering tests · click to pin</span></div>"@
}

/// The page of one source file in the directory report: a toolbar with
/// its stats, the classified source, and the tests plus this file's
/// coverage embedded for the script.
pub open spec fn file_page_spec(
    path: Seq<char>,
    theme_css: Seq<char>,
    highlighted: Seq<Seq<char>>,
    classes: Seq<LineClass>,
    stats: LineStats,
    tests_js: Seq<char>,
    cov: SourceFile,
) -> Seq<char> {
    let prefix = ups(slash_count(path));
    page_open_spec() + "<title>"@ + escape_spec(path) + " — testmap</title>"@
        + "<link rel=\"stylesheet\" href=\""@ + prefix + "css/style.css\">"@ + "<style>"@ + theme_css
        + "</style>"@ + "</head><body>"@ + "<div class=\"toolbar\">"@ + "<a class=\"back\" href=\""@
        + prefix + "index.html\">← index</a>"@ + "<span class=\"path\">"@ + escape_spec(path)
        + "</span>"@ + "<span class=\"toolbar-stats\">"@ + stats_html_spec(stats, ClickView::Page)
        + "</span>"@ + "</div>"@ + source_block_spec(highlighted, classes, None)
        + panel_spec() + "<script>window.__TESTMAP_TESTS="@ + tests_js + ";window.__TESTMAP_FILE="@
        + json_quoted(path) + ";window.__TESTMAP_COV={"@ + json_quoted(path) + seq![':']
        + lines_obj_spec(cov.lines.seq()) + "};window.__TESTMAP_ABOVE={"@ + json_quoted(path)
        + seq![':'] + above_obj_spec(cov.above_threshold.seq()) + "};</script>"@ + "<script src=\""@
        + prefix + "js/app.js\"></script>"@ + "</body></html>"@
}

/// The page of one source file in the directory report.
#[verifier::spinoff_prover]
pub fn file_page(
    path: &str,
    theme_css: &str,
    highlighted: &[String],
    classes: &[LineClass],
    stats: LineStats,
    tests_js: &str,
    cov: &SourceFile,
) -> (r: String)
    requires
        stats.covered * 100 <= u32::MAX,
    ensures
        r@ == file_page_spec(
            path@,
            theme_css@,
            str_views(highlighted@),
            classes@,
            stats,
            tests_js@,
            *cov,
        ),
{
    let prefix = up_prefix(path);
    let json_path = json_str(path);
    let mut out = String::new();
    push_page_open(&mut out);
    assert(out@ =~= page_open_spec());
    out.append("<title>");
    push_escaped(&mut out, path);
    out.append(" — testmap</title>");
    out.append("<link rel=\"stylesheet\" href=\"");
    out.append(prefix.as_str());
    out.append("css/style.css\">");
    out.append("<style>");
    out.append(theme_css);
    out.append("</style>");
    out.append("</head><body>");
    out.append("<div class=\"toolbar\">");
    out.append("<a class=\"back\" href=\"");
    out.append(prefix.as_str());
    out.append("index.html\">← index</a>");
    out.append("<span class=\"path\">");
    push_escaped(&mut out, path);
    out.append("</span>");
    out.append("<span class=\"toolbar-stats\">");
    out.append(stats_html(stats, StatsClick::ScrollPage).as_str());
    out.append("</span>");
    out.append("</div>");
    out.append(source_block(highlighted, classes, RowAttrs::Line).as_str());
    out.append("<div id=\"panel\" class=\"panel\" role=\"status\"><span class=\"hint\">Hover a highlighted line to see covering tests · click to pin</span></div>");
    out.append("<script>window.__TESTMAP_TESTS=");
    out.append(tests_js);
    out.append(";window.__TESTMAP_FILE=");
    out.append(json_path.as_str());
    out.append(";window.__TESTMAP_COV={");
    out.append(json_path.as_str());
    push_char(&mut out, ':');
    out.append(lines_obj(&cov.lines).as_str());
    out.append("};window.__TESTMAP_ABOVE={");
    out.append(json_path.as_str());
    push_char(&mut out, ':');
    out.append(above_obj(&cov.above_threshold).as_str());
    out.append("};</script>");
    out.append("<script src=\"");
    out.append(prefix.as_str());
    out.append("js/app.js\"></script>");
    out.append("</body></html>");
    out
}

// ---------------------------------------------------------------------------
// The tests catalog
// ---------------------------------------------------------------------------

/// Each test's mapped-line count (see `per_test_counts`).
pub open spec fn counts_spec(n: nat, files: Seq<(Seq<char>, SourceFile)>) -> Seq<u32> {
    Seq::new(n, |i: int| cov_occ(files, i) as u32)
}

/// How many counts are zero.
pub open spec fn zeros(c: Seq<u32>) -> nat
    decreases c.len(),
{
    if c.len() == 0 {
        0
    } else {
        zeros(c.drop_last()) + if c.last() == 0 {
            1nat
        } else {
            0nat
        }
    }
}

/// Whether a test failed.
pub open spec fn is_failed(t: TestView) -> bool {
    t.status@ == "failed"@
}

/// How many tests failed.
pub open spec fn failed_count(t: Seq<TestView>) -> nat
    decreases t.len(),
{
    if t.len() == 0 {
        0
    } else {
        failed_count(t.drop_last()) + if is_failed(t.last()) {
            1nat
        } else {
            0nat
        }
    }
}

/// A test's full path: `module::name`, or the bare name.
pub open spec fn test_path(t: TestView) -> Seq<char> {
    if t.module@.len() == 0 {
        t.name@
    } else {
        t.module@ + "::"@ + t.name@
    }
}

/// The summary line: tests observed, failed (highlighted when any), and
/// how many cover mapped lines.
pub open spec fn tests_meta_spec(n: nat, failed: nat, zero: nat) -> Seq<char> {
    "<p class=\"meta\">"@ + dec(n) + " test(s) observed · "@ + (if failed > 0 {
        "<span class=\"failcount\">"@ + dec(failed) + " failed</span> · "@
    } else {
        "<span class=\"muted\">"@ + dec(failed) + " failed</span> · "@
    }) + dec((n - zero) as nat)
        + " cover ≥1 mapped line · <span class=\"zerocount\">"@ + dec(zero)
        + " cover 0 mapped lines</span> <span class=\"muted\">(ran but exercised no snapshotted code — often filtered, skipped, or broken)</span></p>"@
}

/// The tests table's header.
pub open spec fn tests_table_head_spec() -> Seq<char> {
    "<table class=\"tests-table\" data-sortable><thead><tr><th data-sort=\"idx\">#</th><th data-sort=\"status\">status</th><th data-sort=\"kind\">kind</th><th data-sort=\"binary\">binary</th><th data-sort=\"path\">test</th><th data-sort=\"lines\" data-numeric=\"1\">lines</th><th data-sort=\"dur\" data-numeric=\"1\">dur&nbsp;ms</th></tr></thead><tbody>"@
}

/// The row after a failed test: its captured output, or a note that there
/// was none (blank output counts as none).
pub open spec fn failout_spec(t: TestView) -> Seq<char> {
    if !is_failed(t) {
        Seq::empty()
    } else {
        match t.failure_output {
            Some(o) => if trim(o@).len() > 0 {
                "<tr class=\"failout\"><td colspan=\"7\"><details><summary>output</summary><pre class=\"failout-pre\">"@
                    + escape_spec(o@) + "</pre></details></td></tr>"@
            } else {
                "<tr class=\"failout\"><td colspan=\"7\"><span class=\"muted\">(no output captured)</span></td></tr>"@
            },
            None => "<tr class=\"failout\"><td colspan=\"7\"><span class=\"muted\">(no output captured)</span></td></tr>"@,
        }
    }
}

/// The row of test `i`, which covers `count` mapped lines.
pub open spec fn test_row_spec(i: nat, t: TestView, count: u32) -> Seq<char> {
    let failed = is_failed(t);
    let cls = if failed {
        "failed"@
    } else if count == 0 {
        "zero"@
    } else {
        ""@
    };
    let status_v = if failed {
        "1"@
    } else {
        "0"@
    };
    let path = test_path(t);
    "<tr class=\""@ + cls + "\">"@ + "<td data-v=\""@ + dec(i) + "\">"@ + dec(i) + "</td>"@
        + "<td data-v=\""@ + status_v + "\">"@ + t.status@ + "</td>"@ + "<td data-v=\""@
        + escape_spec(t.kind@) + "\"><span class=\"badge\">"@ + escape_spec(t.kind@)
        + "</span></td>"@ + "<td data-v=\""@ + escape_spec(t.binary@) + "\"><span class=\"badge\">"@
        + escape_spec(t.binary@) + "</span></td>"@ + "<td class=\"tname\" data-v=\""@ + escape_spec(
        path,
    ) + "\">"@ + escape_spec(path) + "</td>"@ + "<td class=\"num\" data-v=\""@ + dec(count as nat)
        + "\">"@ + dec(count as nat) + "</td>"@ + "<td class=\"num\" data-v=\""@ + dec(
        t.duration_ms as nat,
    ) + "\">"@ + dec(t.duration_ms as nat) + "</td>"@ + "</tr>"@ + failout_spec(t)
}

/// The rows of the first `k` tests.
pub open spec fn test_rows_spec(tests: Seq<TestView>, counts: Seq<u32>, k: int) -> Seq<char>
    decreases k,
{
    if k <= 0 {
        Seq::empty()
    } else {
        test_rows_spec(tests, counts, k - 1) + test_row_spec((k - 1) as nat, tests[k - 1], counts[k - 1])
    }
}

/// `tests.html`: every observed test with the number of mapped lines it
/// covers; failed tests carry their output, tests covering nothing stand
/// out.
pub open spec fn tests_page_spec(theme_css: Seq<char>, tests: Seq<TestView>, counts: Seq<u32>) -> Seq<char> {
    page_open_spec() + "<title>Observed tests — testmap</title>"@
        + "<link rel=\"stylesheet\" href=\"css/style.css\">"@ + "<style>"@ + theme_css + "</style>"@
        + "</head><body>"@ + "<div class=\"toolbar\">"@
        + "<a class=\"back\" href=\"index.html\">← index</a>"@ + "<span class=\"path\">Observed tests ("@
        + dec(tests.len()) + ")</span>"@ + "</div>"@ + "<main class=\"tests-page\">"@
        + tests_meta_spec(tests.len(), failed_count(tests), zeros(counts)) + tests_table_head_spec()
        + test_rows_spec(tests, counts, tests.len() as int) + "</tbody></table>"@ + "</main>"@
        + "<script>"@ + TABLE_SORT_JS@ + "</script>"@ + "</body></html>"@
}

fn str_is(a: &str, b: &str) -> (r: bool)
    ensures
        r == (a@ == b@),
{
    crate::text::chars_eq(crate::text::chars_of(a).as_slice(), crate::text::chars_of(b).as_slice())
}

fn failout(t: &TestView<'_>) -> (r: String)
    ensures
        r@ == failout_spec(*t),
{
    if !str_is(t.status, "failed") {
        return String::new();
    }
    let none = "<tr class=\"failout\"><td colspan=\"7\"><span class=\"muted\">(no output captured)</span></td></tr>";
    match t.failure_output {
        Some(o) => {
            if crate::text::chars_of(crate::text::trim_string(o).as_str()).len() > 0 {
                let mut out = String::new();
                out.append(
                    "<tr class=\"failout\"><td colspan=\"7\"><details><summary>output</summary><pre class=\"failout-pre\">",
                );
                assert(out@ =~= "<tr class=\"failout\"><td colspan=\"7\"><details><summary>output</summary><pre class=\"failout-pre\">"@);
                push_escaped(&mut out, o);
                out.append("</pre></details></td></tr>");
                out
            } else {
                none.to_owned()
            }
        },
        None => none.to_owned(),
    }
}

#[verifier::spinoff_prover]
fn test_row(i: usize, t: &TestView<'_>, count: u32) -> (r: String)
    ensures
        r@ == test_row_spec(i as nat, *t, count),
{
    let failed = str_is(t.status, "failed");
    let cls = if failed {
        "failed"
    } else if count == 0 {
        "zero"
    } else {
        ""
    };
    let status_v = if failed {
        "1"
    } else {
        "0"
    };
    let mut path = String::new();
    if crate::text::chars_of(t.module).len() == 0 {
        path.append(t.name);
    } else {
        path.append(t.module);
        path.append("::");
        path.append(t.name);
    }
    assert(path@ =~= test_path(*t));
    let mut out = String::new();
    out.append("<tr class=\"");
    assert(out@ =~= "<tr class=\""@);
    out.append(cls);
    out.append("\">");
    out.append("<td data-v=\"");
    push_dec(&mut out, i as u64);
    out.append("\">");
    push_dec(&mut out, i as u64);
    out.append("</td>");
    out.append("<td data-v=\"");
    out.append(status_v);
    out.append("\">");
    out.append(t.status);
    out.append("</td>");
    out.append("<td data-v=\"");
    push_escaped(&mut out, t.kind);
    out.append("\"><span class=\"badge\">");
    push_escaped(&mut out, t.kind);
    out.append("</span></td>");
    out.append("<td data-v=\"");
    push_escaped(&mut out, t.binary);
    out.append("\"><span class=\"badge\">");
    push_escaped(&mut out, t.binary);
    out.append("</span></td>");
    out.append("<td class=\"tname\" data-v=\"");
    push_escaped(&mut out, path.as_str());
    out.append("\">");
    push_escaped(&mut out, path.as_str());
    out.append("</td>");
    out.append("<td class=\"num\" data-v=\"");
    push_dec(&mut out, count as u64);
    out.append("\">");
    push_dec(&mut out, count as u64);
    out.append("</td>");
    out.append("<td class=\"num\" data-v=\"");
    push_dec(&mut out, t.duration_ms);
    out.append("\">");
    push_dec(&mut out, t.duration_ms);
    out.append("</td>");
    out.append("</tr>");
    out.append(failout(t).as_str());
    out
}

fn tests_meta(n: usize, failed: usize, zero: usize) -> (r: String)
    requires
        zero <= n,
    ensures
        r@ == tests_meta_spec(n as nat, failed as nat, zero as nat),
{
    let mut out = String::new();
    out.append("<p class=\"meta\">");
    assert(out@ =~= "<p class=\"meta\">"@);
    push_dec(&mut out, n as u64);
    out.append(" test(s) observed · ");
    let mut f = String::new();
    if failed > 0 {
        f.append("<span class=\"failcount\">");
        assert(f@ =~= "<span class=\"failcount\">"@);
        push_dec(&mut f, failed as u64);
        f.append(" failed</span> · ");
    } else {
        f.append("<span class=\"muted\">");
        assert(f@ =~= "<span class=\"muted\">"@);
        push_dec(&mut f, failed as u64);
        f.append(" failed</span> · ");
    }
    out.append(f.as_str());
    push_dec(&mut out, (n - zero) as u64);
    out.append(" cover ≥1 mapped line · <span class=\"zerocount\">");
    push_dec(&mut out, zero as u64);
    out.append(
        " cover 0 mapped lines</span> <span class=\"muted\">(ran but exercised no snapshotted code — often filtered, skipped, or broken)</span></p>",
    );
    out
}

fn push_tests_table_head(out: &mut String)
    ensures
        final(out)@ == old(out)@ + tests_table_head_spec(),
{
    out.append("<table class=\"tests-table\" data-sortable><thead><tr><th data-sort=\"idx\">#</th><th data-sort=\"status\">status</th><th data-sort=\"kind\">kind</th><th data-sort=\"binary\">binary</th><th data-sort=\"path\">test</th><th data-sort=\"lines\" data-numeric=\"1\">lines</th><th data-sort=\"dur\" data-numeric=\"1\">dur&nbsp;ms</th></tr></thead><tbody>");
}

/// The tests catalog page, `tests.html`.
#[verifier::spinoff_prover]
pub fn render_tests_page(theme_css: &str, tests: &[TestView<'_>], coverage: &StrMap<SourceFile>) -> (r: String)
    requires
        forall|i: int| 0 <= i < tests@.len() ==> #[trigger] cov_occ(coverage.seq(), i) <= u32::MAX,
    ensures
        r@ == tests_page_spec(theme_css@, tests@, counts_spec(tests@.len(), coverage.seq())),
{
    let n = tests.len();
    let counts = per_test_counts(n, coverage);
    let ghost cs = counts_spec(n as nat, coverage.seq());
    assert(counts@ =~= cs);
    let mut zero: usize = 0;
    let mut failed: usize = 0;
    let mut i: usize = 0;
    while i < n
        invariant
            i <= n,
            n == tests@.len(),
            counts@ == cs,
            cs.len() == n,
            zero == zeros(cs.take(i as int)),
            failed == failed_count(tests@.take(i as int)),
            zero <= i,
            failed <= i,
        decreases n - i,
    {
        assert(cs.take(i + 1).drop_last() =~= cs.take(i as int));
        assert(tests@.take(i + 1).drop_last() =~= tests@.take(i as int));
        if counts[i] == 0 {
            zero += 1;
        }
        if str_is(tests[i].status, "failed") {
            failed += 1;
        }
        i += 1;
    }
    assert(cs.take(n as int) =~= cs);
    assert(tests@.take(n as int) =~= tests@);
    let mut out = String::new();
    push_page_open(&mut out);
    assert(out@ =~= page_open_spec());
    out.append("<title>Observed tests — testmap</title>");
    out.append("<link rel=\"stylesheet\" href=\"css/style.css\">");
    out.append("<style>");
    out.append(theme_css);
    out.append("</style>");
    out.append("</head><body>");
    out.append("<div class=\"toolbar\">");
    out.append("<a class=\"back\" href=\"index.html\">← index</a>");
    out.append("<span class=\"path\">Observed tests (");
    push_dec(&mut out, n as u64);
    out.append(")</span>");
    out.append("</div>");
    out.append("<main class=\"tests-page\">");
    out.append(tests_meta(n, failed, zero).as_str());
    push_tests_table_head(&mut out);
    let ghost head = out@;
    let mut k: usize = 0;
    while k < n
        invariant
            k <= n,
            n == tests@.len(),
            counts@ == cs,
            cs.len() == n,
            out@ == head + test_rows_spec(tests@, cs, k as int),
        decreases n - k,
    {
        out.append(test_row(k, &tests[k], counts[k]).as_str());
        assert(out@ =~= head + test_rows_spec(tests@, cs, k + 1));
        k += 1;
    }
    out.append("</tbody></table>");
    out.append("</main>");
    out.append("<script>");
    out.append(TABLE_SORT_JS);
    out.append("</script>");
    out.append("</body></html>");
    out
}

// ---------------------------------------------------------------------------
// The directory report
// ---------------------------------------------------------------------------

/// The snapshot of `path` in `files` (which must hold it).
pub open spec fn src_of(files: Seq<(Seq<char>, SourceFile)>, path: Seq<char>) -> SourceFile {
    crate::strmap::lookup(files, path)->Some_0
}

/// Every view names a file of `files`.
pub open spec fn views_known(files: Seq<(Seq<char>, SourceFile)>, views: Seq<FileView>) -> bool {
    forall|k: int|
        0 <= k < views.len() ==> crate::strmap::lookup(files, (#[trigger] views[k]).path@) is Some
}

/// The page of view `v` in the directory report.
pub open spec fn view_page_spec(
    theme_css: Seq<char>,
    tests_js: Seq<char>,
    files: Seq<(Seq<char>, SourceFile)>,
    v: FileView,
) -> Seq<char> {
    let src = src_of(files, v.path@);
    file_page_spec(
        v.path@,
        theme_css,
        str_views(v.highlighted@),
        classes_spec(src),
        file_stats_spec(src),
        tests_js,
        src,
    )
}

/// The pages of the directory report, as text: `index.html`, one page per
/// highlighted file (at `<path>.html`), and `tests.html`.
pub struct DirectoryReport {
    pub index: String,
    pub pages: Vec<(String, String)>,
    pub tests: String,
}

/// The position of `path` among the files, which hold it.
fn file_position(coverage: &StrMap<SourceFile>, path: &str) -> (r: usize)
    requires
        crate::strmap::lookup(coverage.seq(), path@) is Some,
    ensures
        r < coverage.seq().len(),
        coverage.seq()[r as int].0 == path@,
        src_of(coverage.seq(), path@) == coverage.seq()[r as int].1,
{
    proof {
        use_type_invariant(coverage);
    }
    match coverage.index_of(path) {
        Some(i) => {
            proof {
                crate::strmap::lemma_lookup_sorted(coverage.seq(), i as int);
            }
            i
        },
        None => {
            proof {
                crate::strmap::lemma_lookup_entry(coverage.seq(), path@);
            }
            0
        },
    }
}

/// Every page of the directory report (the caller writes them, with the
/// stylesheet and script, under the output directory).
#[verifier::spinoff_prover]
pub fn render_directory(
    theme_name: &str,
    theme_css: &str,
    tests: &[TestView<'_>],
    coverage: &StrMap<SourceFile>,
    views: &[FileView],
) -> (r: DirectoryReport)
    requires
        report_fits(coverage.seq()),
        views_known(coverage.seq(), views@),
        forall|i: int| 0 <= i < tests@.len() ==> #[trigger] cov_occ(coverage.seq(), i) <= u32::MAX,
    ensures
        exists|ord: Seq<int>|
            #[trigger] is_index_order(coverage.seq(), ord) && r.index@ == index_spec(
                theme_name@,
                theme_css@,
                tests@.len(),
                coverage.seq(),
                ord,
            ),
        r.pages@.len() == views@.len(),
        forall|k: int|
            0 <= k < views@.len() ==> {
                &&& (#[trigger] r.pages@[k]).0@ == views@[k].path@ + ".html"@
                &&& r.pages@[k].1@ == view_page_spec(
                    theme_css@,
                    tests_js_spec(tests@),
                    coverage.seq(),
                    views@[k],
                )
            },
        r.tests@ == tests_page_spec(theme_css@, tests@, counts_spec(tests@.len(), coverage.seq())),
{
    let ghost files = coverage.seq();
    let tjs = tests_js(tests);
    let (classes, stats, total) = classify_files(coverage);
    let index = index_with(theme_name, theme_css, tests.len(), coverage, &stats, total);
    let mut pages: Vec<(String, String)> = Vec::new();
    let mut k: usize = 0;
    while k < views.len()
        invariant
            k <= views@.len(),
            files == coverage.seq(),
            views_known(files, views@),
            tjs@ == tests_js_spec(tests@),
            classes@.len() == files.len(),
            stats@.len() == files.len(),
            forall|i: int| 0 <= i < files.len() ==> (#[trigger] classes@[i])@ == classes_spec(files[i].1),
            forall|i: int|
                0 <= i < files.len() ==> (#[trigger] stats@[i]) == file_stats_spec(files[i].1)
                    && stats@[i].covered * 100 <= u32::MAX,
            pages@.len() == k,
            forall|j: int|
                0 <= j < k ==> {
                    &&& (#[trigger] pages@[j]).0@ == views@[j].path@ + ".html"@
                    &&& pages@[j].1@ == view_page_spec(theme_css@, tests_js_spec(tests@), files, views@[j])
                },
        decreases views@.len() - k,
    {
        let v = &views[k];
        assert(crate::strmap::lookup(files, views@[k as int].path@) is Some);
        let i = file_position(coverage, v.path.as_str());
        let (_, src) = coverage.entry(i);
        let page = file_page(
            v.path.as_str(),
            theme_css,
            v.highlighted.as_slice(),
            classes[i].as_slice(),
            stats[i],
            tjs.as_str(),
            src,
        );
        let mut name = v.path.as_str().to_owned();
        name.append(".html");
        pages.push((name, page));
        k += 1;
    }
    let tests_html = render_tests_page(theme_css, tests, coverage);
    DirectoryReport { index, pages, tests: tests_html }
}

// ---------------------------------------------------------------------------
// The single-file report
// ---------------------------------------------------------------------------

/// A file's entry in the single-file report's file list.
pub open spec fn file_item_spec(path: Seq<char>, src: SourceFile) -> Seq<char> {
    "<li><a href=\"#file-"@ + file_id_spec(path) + "\">"@ + escape_spec(path)
        + "</a> <span class=\"stats\">"@ + stats_html_spec(file_stats_spec(src), ClickView::File(path))
        + "</span></li>"@
}

/// The entries of the first `k` views.
pub open spec fn file_items_spec(files: Seq<(Seq<char>, SourceFile)>, views: Seq<FileView>, k: int) -> Seq<
    char,
>
    decreases k,
{
    if k <= 0 {
        Seq::empty()
    } else {
        file_items_spec(files, views, k - 1) + file_item_spec(
            views[k - 1].path@,
            src_of(files, views[k - 1].path@),
        )
    }
}

/// A file's section: its toolbar and classified source, rows naming the
/// file.
pub open spec fn section_spec(path: Seq<char>, h: Seq<Seq<char>>, src: SourceFile) -> Seq<char> {
    "<section class=\"file\" id=\"file-"@ + file_id_spec(path)
        + "\"><div class=\"toolbar\"><span class=\"path\">"@ + escape_spec(path) + "</span></div>"@
        + source_block_spec(h, classes_spec(src), Some(path)) + "</section>"@
}

/// The sections of the first `k` views.
pub open spec fn sections_spec(files: Seq<(Seq<char>, SourceFile)>, views: Seq<FileView>, k: int) -> Seq<
    char,
>
    decreases k,
{
    if k <= 0 {
        Seq::empty()
    } else {
        sections_spec(files, views, k - 1) + section_spec(
            views[k - 1].path@,
            str_views(views[k - 1].highlighted@),
            src_of(files, views[k - 1].path@),
        )
    }
}

/// The self-contained single-file report: stylesheet, totals, file list,
/// every file's section, and the data and script inline.
pub open spec fn single_file_spec(
    theme_name: Seq<char>,
    theme_css: Seq<char>,
    css: Seq<char>,
    js: Seq<char>,
    tests: Seq<TestView>,
    files: Seq<(Seq<char>, SourceFile)>,
    views: Seq<FileView>,
) -> Seq<char> {
    let d = build_data_spec(tests, files);
    page_open_spec() + "<title>testmap report</title><style>"@ + css + theme_css
        + "</style></head><body>"@ + "<main class=\"index\"><h1>testmap</h1>"@ + "<p class=\"meta\">"@
        + dec(tests.len()) + " test(s) · "@ + dec(files.len()) + " file(s) · theme: "@ + escape_spec(
        theme_name,
    ) + "</p>"@ + "<p class=\"total\">total: "@ + stats_html_spec(total_stats(files), ClickView::Page)
        + "</p>"@ + legend_spec() + "<ul class=\"filelist\">"@ + file_items_spec(
        files,
        views,
        views.len() as int,
    ) + "</ul></main>"@ + sections_spec(files, views, views.len() as int) + panel_spec()
        + "<script>window.__TESTMAP_TESTS="@ + d.0 + ";window.__TESTMAP_COV="@ + d.1
        + ";window.__TESTMAP_ABOVE="@ + d.2 + ";</script><script>"@ + js + "</script></body></html>"@
}

fn file_item(path: &str, s: LineStats) -> (r: String)
    requires
        s.covered * 100 <= u32::MAX,
    ensures
        r@ == "<li><a href=\"#file-"@ + file_id_spec(path@) + "\">"@ + escape_spec(path@)
            + "</a> <span class=\"stats\">"@ + stats_html_spec(s, ClickView::File(path@))
            + "</span></li>"@,
{
    let mut out = String::new();
    out.append("<li><a href=\"#file-");
    assert(out@ =~= "<li><a href=\"#file-"@);
    out.append(fnv1a(path).as_str());
    out.append("\">");
    push_escaped(&mut out, path);
    out.append("</a> <span class=\"stats\">");
    out.append(stats_html(s, StatsClick::ScrollFile(path)).as_str());
    out.append("</span></li>");
    out
}

fn section(path: &str, highlighted: &[String], classes: &[LineClass]) -> (r: String)
    ensures
        r@ == "<section class=\"file\" id=\"file-"@ + file_id_spec(path@)
            + "\"><div class=\"toolbar\"><span class=\"path\">"@ + escape_spec(path@)
            + "</span></div>"@ + source_block_spec(str_views(highlighted@), classes@, Some(path@))
            + "</section>"@,
{
    let mut out = String::new();
    out.append("<section class=\"file\" id=\"file-");
    assert(out@ =~= "<section class=\"file\" id=\"file-"@);
    out.append(fnv1a(path).as_str());
    out.append("\"><div class=\"toolbar\"><span class=\"path\">");
    push_escaped(&mut out, path);
    out.append("</span></div>");
    out.append(source_block(highlighted, classes, RowAttrs::FileLine(path)).as_str());
    out.append("</section>");
    out
}

/// The file list entries and the sections of the single-file report.
#[verifier::spinoff_prover]
fn items_and_sections(
    coverage: &StrMap<SourceFile>,
    views: &[FileView],
    classes: &Vec<Vec<LineClass>>,
    stats: &Vec<LineStats>,
) -> (r: (String, String))
    requires
        views_known(coverage.seq(), views@),
        classes@.len() == coverage.seq().len(),
        stats@.len() == coverage.seq().len(),
        forall|i: int|
            0 <= i < coverage.seq().len() ==> (#[trigger] classes@[i])@ == classes_spec(
                coverage.seq()[i].1,
            ),
        forall|i: int|
            0 <= i < coverage.seq().len() ==> (#[trigger] stats@[i]) == file_stats_spec(
                coverage.seq()[i].1,
            ) && stats@[i].covered * 100 <= u32::MAX,
    ensures
        r.0@ == file_items_spec(coverage.seq(), views@, views@.len() as int),
        r.1@ == sections_spec(coverage.seq(), views@, views@.len() as int),
{
    let ghost files = coverage.seq();
    let mut items = String::new();
    let mut secs = String::new();
    let mut k: usize = 0;
    while k < views.len()
        invariant
            k <= views@.len(),
            files == coverage.seq(),
            views_known(files, views@),
            classes@.len() == files.len(),
            stats@.len() == files.len(),
            forall|i: int| 0 <= i < files.len() ==> (#[trigger] classes@[i])@ == classes_spec(files[i].1),
            forall|i: int|
                0 <= i < files.len() ==> (#[trigger] stats@[i]) == file_stats_spec(files[i].1)
                    && stats@[i].covered * 100 <= u32::MAX,
            items@ == file_items_spec(files, views@, k as int),
            secs@ == sections_spec(files, views@, k as int),
        decreases views@.len() - k,
    {
        let v = &views[k];
        assert(crate::strmap::lookup(files, views@[k as int].path@) is Some);
        let i = file_position(coverage, v.path.as_str());
        items.append(file_item(v.path.as_str(), stats[i]).as_str());
        secs.append(section(v.path.as_str(), v.highlighted.as_slice(), classes[i].as_slice()).as_str());
        assert(items@ =~= file_items_spec(files, views@, k + 1));
        assert(secs@ =~= sections_spec(files, views@, k + 1));
        k += 1;
    }
    (items, secs)
}

/// The single-file report. `css` and `js` are the report's stylesheet and
/// script, inlined.
#[verifier::spinoff_prover]
pub fn render_single_file(
    theme_name: &str,
    theme_css: &str,
    css: &str,
    js: &str,
    tests: &[TestView<'_>],
    coverage: &StrMap<SourceFile>,
    views: &[FileView],
) -> (r: String)
    requires
        report_fits(coverage.seq()),
        views_known(coverage.seq(), views@),
    ensures
        r@ == single_file_spec(
            theme_name@,
            theme_css@,
            css@,
            js@,
            tests@,
            coverage.seq(),
            views@,
        ),
{
    let (tjs, cjs, ajs) = build_data(tests, coverage);
    let (classes, stats, total) = classify_files(coverage);
    let (items, secs) = items_and_sections(coverage, views, &classes, &stats);
    let mut out = String::new();
    push_page_open(&mut out);
    assert(out@ =~= page_open_spec());
    out.append("<title>testmap report</title><style>");
    out.append(css);
    out.append(theme_css);
    out.append("</style></head><body>");
    out.append("<main class=\"index\"><h1>testmap</h1>");
    out.append("<p class=\"meta\">");
    push_dec(&mut out, tests.len() as u64);
    out.append(" test(s) · ");
    push_dec(&mut out, coverage.len() as u64);
    out.append(" file(s) · theme: ");
    push_escaped(&mut out, theme_name);
    out.append("</p>");
    out.append("<p class=\"total\">total: ");
    out.append(stats_html(total, StatsClick::ScrollPage).as_str());
    out.append("</p>");
    out.append(legend_html());
    out.append("<ul class=\"filelist\">");
    out.append(items.as_str());
    out.append("</ul></main>");
    out.append(secs.as_str());
    out.append("<div id=\"panel\" class=\"panel\" role=\"status\"><span class=\"hint\">Hover a highlighted line to see covering tests · click to pin</span></div>");
    out.append("<script>window.__TESTMAP_TESTS=");
    out.append(tjs.as_str());
    out.append(";window.__TESTMAP_COV=");
    out.append(cjs.as_str());
    out.append(";window.__TESTMAP_ABOVE=");
    out.append(ajs.as_str());
    out.append(";</script><script>");
    out.append(js);
    out.append("</script></body></html>");
    out
}

/// A sequence of `n` distinct numbers below `n` holds every number below
/// `n`.
proof fn lemma_perm_onto(o: Seq<int>, n: int, v: int)
    requires
        o.len() == n,
        forall|a: int| 0 <= a < o.len() ==> 0 <= #[trigger] o[a] < n,
        forall|a: int, b: int| 0 <= a < b < o.len() ==> o[a] != o[b],
        0 <= v < n,
    ensures
        exists|j: int| 0 <= j < n && o[j] == v,
{
    assert(o.no_duplicates()) by {
        assert forall|a: int, b: int| 0 <= a < o.len() && 0 <= b < o.len() && a != b implies o[a]
            != o[b] by {
            if a > b {
                assert(o[b] != o[a]);
            }
        }
    }
    o.unique_seq_to_set();
    vstd::seq_lib::seq_to_set_is_finite(o);
    vstd::set_lib::lemma_int_range(0, n);
    let r = vstd::set_lib::set_int_range(0, n);
    assert(o.to_set().subset_of(r)) by {
        assert forall|x: int| o.to_set().contains(x) implies r.contains(x) by {
            let j = choose|j: int| 0 <= j < o.len() && o[j] == x;
            assert(0 <= o[j] < n);
        }
    }
    vstd::set_lib::lemma_subset_equality(o.to_set(), r);
    assert(r.contains(v));
    assert(o.to_set().contains(v));
}

/// Two index orders agree on their first `k + 1` positions.
proof fn lemma_orders_agree(files: Seq<(Seq<char>, SourceFile)>, o1: Seq<int>, o2: Seq<int>, k: int)
    requires
        crate::strmap::keys_sorted(files),
        is_index_order(files, o1),
        is_index_order(files, o2),
        0 <= k < o1.len(),
    ensures
        forall|j: int| 0 <= j <= k ==> o1[j] == o2[j],
    decreases k,
{
    if k > 0 {
        lemma_orders_agree(files, o1, o2, k - 1);
    }
    let n = files.len() as int;
    let x = o1[k];
    let y = o2[k];
    if x != y {
        lemma_perm_onto(o2, n, x);
        lemma_perm_onto(o1, n, y);
        let j2 = choose|j: int| 0 <= j < n && o2[j] == x;
        let j1 = choose|j: int| 0 <= j < n && o1[j] == y;
        if j2 < k {
            assert(o1[j2] == o2[j2]);
        }
        if j1 < k {
            assert(o1[j1] == o2[j1]);
            assert(o2[j1] != o2[k]);
        }
        assert(j2 > k);
        assert(j1 > k);
        let kx = file_key(files, x);
        let ky = file_key(files, y);
        assert(!index_lt(kx, ky));
        assert(!index_lt(ky, kx));
        assert(files[x].0 != files[y].0) by {
            if x < y {
                assert(lex_lt(files[x].0, files[y].0));
                crate::text::lemma_lex_irrefl(files[x].0);
            } else {
                assert(lex_lt(files[y].0, files[x].0));
                crate::text::lemma_lex_irrefl(files[y].0);
            }
        }
        crate::text::lemma_lex_total(kx.2, ky.2);
    }
}

/// The index order is unique: files have distinct paths, so only one
/// order of them is sorted.
pub proof fn law_index_order_is_unique(files: Seq<(Seq<char>, SourceFile)>, o1: Seq<int>, o2: Seq<int>)
    requires
        crate::strmap::keys_sorted(files),
        is_index_order(files, o1),
        is_index_order(files, o2),
    ensures
        o1 == o2,
{
    if o1.len() > 0 {
        lemma_orders_agree(files, o1, o2, o1.len() - 1);
    }
    assert(o1 =~= o2);
}

} // verus!
