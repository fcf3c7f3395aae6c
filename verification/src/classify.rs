//! Line classification for the report.
//!
//! Each source line is classified into one category, used both to color the
//! gutter dot and to compute per-file / total coverage in the index. The
//! classification is derived from the database alone: the source text, the
//! executable-line set, and the covered line sets.
//!
//! A line is **excluded** (coverage not expected) inside a
//! `//cov:excl-start` … `//cov:excl-stop` region, when tagged with
//! `//cov:excl-line`, or when it contains `unreachable!`. A line is
//! **ignored** (coverage noise) inside a `//cov:ignore-start` …
//! `//cov:ignore-stop` region, when tagged with `//cov:ignore-line`, at a
//! panic site (`panic!`, `.unwrap()`, `.expect(`, `todo!`,
//! `unimplemented!`), or when it is the head of a multi-line macro whose
//! uncovered status is an llvm-cov artifact. Every other executable line is
//! covered or uncovered; non-executable lines carry no class.

use vstd::prelude::*;
use crate::database::SourceFile;
use crate::pattern::{matches_exec, pattern_matches, replaced, replaced_exec};
use crate::sorted::{elems, insert_sorted, strictly_sorted};
use crate::strmap::lookup;
use crate::text::{
    chars_of, contains, contains_in, dec, dec_string, find, find_in, lines_of, parse_u32_in,
    parse_unsigned, split_lines, string_of, views,
};

verus! {

/// The category of one source line.
#[derive(Clone, Copy, PartialEq, Eq, Debug, Structural)]
pub enum LineClass {
    /// Not executable (blank/comment/etc.) — no dot, not counted.
    NonExecutable,
    /// Executable and reached by at least one test.
    Covered,
    /// Executable and reached by exactly one test (outside a test body).
    CoveredUnique,
    /// Executable, not excluded/ignored, not reached by any test.
    Uncovered,
    /// Explicitly excluded and not covered.
    Excluded,
    /// Excluded but covered anyway — usually a stale exclusion marker.
    ExcludedCovered,
    /// Ignored as coverage noise.
    Ignored,
}

/// The `<tr>` CSS class of each category.
pub open spec fn css_class_spec(c: LineClass) -> Option<Seq<char>> {
    match c {
        LineClass::NonExecutable => None,
        LineClass::Covered => Some("cov-covered"@),
        LineClass::CoveredUnique => Some("cov-unique"@),
        LineClass::Uncovered => Some("cov-uncovered"@),
        LineClass::Excluded => Some("cov-excluded"@),
        LineClass::ExcludedCovered => Some("cov-excl-covered"@),
        LineClass::Ignored => Some("cov-ignored"@),
    }
}

/// The gutter-dot tooltip of each category.
pub open spec fn title_spec(c: LineClass) -> Seq<char> {
    match c {
        LineClass::NonExecutable => ""@,
        LineClass::Covered => "covered — reached by at least one test"@,
        LineClass::CoveredUnique => "covered by exactly one test — removing it loses this line's coverage"@,
        LineClass::Uncovered => "uncovered — no test reached this line"@,
        LineClass::Excluded => "excluded — coverage not expected (excl marker / unreachable!)"@,
        LineClass::ExcludedCovered => "excluded but covered anyway — the exclusion marker may be stale"@,
        LineClass::Ignored => "ignored — panic site, ignore marker, or multi-line macro head (llvm-cov coverage artifact)"@,
    }
}

impl LineClass {
    /// The `<tr>` CSS class used to color this line's gutter dot.
    pub fn css_class(self) -> (r: Option<&'static str>)
        ensures
            match r {
                Some(s) => css_class_spec(self) == Some(s@),
                None => css_class_spec(self) is None,
            },
    {
        match self {
            LineClass::NonExecutable => None,
            LineClass::Covered => Some("cov-covered"),
            LineClass::CoveredUnique => Some("cov-unique"),
            LineClass::Uncovered => Some("cov-uncovered"),
            LineClass::Excluded => Some("cov-excluded"),
            LineClass::ExcludedCovered => Some("cov-excl-covered"),
            LineClass::Ignored => Some("cov-ignored"),
        }
    }

    /// Hover tooltip text for the line's gutter dot.
    pub fn title(self) -> (r: &'static str)
        ensures
            r@ == title_spec(self),
    {
        match self {
            LineClass::NonExecutable => "",
            LineClass::Covered => "covered — reached by at least one test",
            LineClass::CoveredUnique => "covered by exactly one test — removing it loses this line's coverage",
            LineClass::Uncovered => "uncovered — no test reached this line",
            LineClass::Excluded => "excluded — coverage not expected (excl marker / unreachable!)",
            LineClass::ExcludedCovered => "excluded but covered anyway — the exclusion marker may be stale",
            LineClass::Ignored => "ignored — panic site, ignore marker, or multi-line macro head (llvm-cov coverage artifact)",
        }
    }
}

/// Aggregate counts for one file (or a total across files).
#[derive(Clone, Copy)]
pub struct LineStats {
    /// Executable lines that aren't excluded or ignored — the denominator.
    pub coverable: u32,
    /// Coverable lines that were actually reached by a test.
    pub covered: u32,
    /// Covered lines reached by exactly one test.
    pub unique: u32,
    /// Executable lines marked excluded and not covered.
    pub excluded: u32,
    /// Executable lines marked excluded that were covered anyway.
    pub excluded_covered: u32,
    /// Executable lines marked ignored.
    pub ignored: u32,
}

impl Default for LineStats {
    fn default() -> (r: Self)
        ensures
            r.coverable == 0 && r.covered == 0 && r.unique == 0 && r.excluded == 0
                && r.excluded_covered == 0 && r.ignored == 0,
    {
        LineStats { coverable: 0, covered: 0, unique: 0, excluded: 0, excluded_covered: 0, ignored: 0 }
    }
}

/// The coverage percentage, rounded down; `None` when nothing is coverable.
pub open spec fn pct_spec(s: LineStats) -> Option<u32> {
    if s.coverable == 0 {
        None
    } else {
        Some(((s.covered as int) * 100 / (s.coverable as int)) as u32)
    }
}

impl LineStats {
    /// Coverage percentage of coverable lines, rounded down. `None` when there
    /// is nothing coverable.
    pub fn pct(self) -> (r: Option<u32>)
        requires
            self.covered * 100 <= u32::MAX,
        ensures
            r == pct_spec(self),
    {
        if self.coverable == 0 {
            None
        } else {
            Some(self.covered * 100 / self.coverable)
        }
    }
}

/// How many entries of `s` equal `c`.
pub open spec fn count(s: Seq<LineClass>, c: LineClass) -> nat
    decreases s.len(),
{
    if s.len() == 0 {
        0
    } else {
        count(s.drop_last(), c) + if s.last() == c {
            1nat
        } else {
            0nat
        }
    }
}

/// The tally of a classification.
pub open spec fn stats_spec(s: Seq<LineClass>) -> LineStats {
    LineStats {
        coverable: (count(s, LineClass::Covered) + count(s, LineClass::CoveredUnique) + count(
            s,
            LineClass::Uncovered,
        )) as u32,
        covered: (count(s, LineClass::Covered) + count(s, LineClass::CoveredUnique)) as u32,
        unique: count(s, LineClass::CoveredUnique) as u32,
        excluded: count(s, LineClass::Excluded) as u32,
        excluded_covered: count(s, LineClass::ExcludedCovered) as u32,
        ignored: count(s, LineClass::Ignored) as u32,
    }
}

/// Counts of all categories together never exceed the number of lines.
proof fn lemma_counts_bounded(s: Seq<LineClass>)
    ensures
        count(s, LineClass::NonExecutable) + count(s, LineClass::Covered) + count(s, LineClass::CoveredUnique)
            + count(s, LineClass::Uncovered) + count(s, LineClass::Excluded) + count(
            s,
            LineClass::ExcludedCovered,
        ) + count(s, LineClass::Ignored) == s.len(),
    decreases s.len(),
{
    if s.len() > 0 {
        lemma_counts_bounded(s.drop_last());
    }
}

/// The stats of a file add up: unique lines are covered, covered lines
/// are coverable, every counted line is a distinct line of the file, and a
/// percentage, when there is one, is at most 100.
pub proof fn law_stats_add_up(classes: Seq<LineClass>)
    requires
        classes.len() <= u32::MAX,
    ensures
        ({
            let s = stats_spec(classes);
            &&& s.unique <= s.covered <= s.coverable
            &&& s.coverable + s.excluded + s.excluded_covered + s.ignored <= classes.len()
            &&& pct_spec(s) matches Some(p) ==> p <= 100
        }),
{
    lemma_counts_bounded(classes);
    let s = stats_spec(classes);
    if s.coverable > 0 {
        assert((s.covered as int) * 100 / (s.coverable as int) <= 100) by (nonlinear_arith)
            requires
                s.covered <= s.coverable,
                s.coverable > 0,
        ;
    }
}

/// Tally a file's classification vector into `LineStats`.
pub fn stats(classes: &[LineClass]) -> (r: LineStats)
    requires
        classes@.len() <= u32::MAX,
    ensures
        r == stats_spec(classes@),
{
    let mut s = LineStats::default();
    let mut i: usize = 0;
    while i < classes.len()
        invariant
            i <= classes@.len() <= u32::MAX,
            s == stats_spec(classes@.take(i as int)),
        decreases classes@.len() - i,
    {
        proof {
            let t = classes@.take(i + 1);
            assert(t.drop_last() =~= classes@.take(i as int));
            lemma_counts_bounded(t);
        }
        match classes[i] {
            LineClass::Covered => {
                s.coverable = s.coverable + 1;
                s.covered = s.covered + 1;
            },
            LineClass::CoveredUnique => {
                s.coverable = s.coverable + 1;
                s.covered = s.covered + 1;
                s.unique = s.unique + 1;
            },
            LineClass::Uncovered => s.coverable = s.coverable + 1,
            LineClass::Excluded => s.excluded = s.excluded + 1,
            LineClass::ExcludedCovered => s.excluded_covered = s.excluded_covered + 1,
            LineClass::Ignored => s.ignored = s.ignored + 1,
            LineClass::NonExecutable => {},
        }
        i += 1;
    }
    assert(classes@.take(classes@.len() as int) =~= classes@);
    s
}


// ---------------------------------------------------------------------------
// Markers and panic sites
// ---------------------------------------------------------------------------

/// The coverage markers a line can carry.
#[derive(Clone, Copy, PartialEq, Eq, Debug, Structural)]
pub enum Marker {
    ExclStart,
    ExclStop,
    ExclLine,
    IgnStart,
    IgnStop,
    IgnLine,
}

/// Keeps the earlier of the best marker so far and a candidate found at
/// `pos`; on a tie the one found first stays.
pub open spec fn pick(best: Option<(int, Marker)>, pos: Option<int>, m: Marker) -> Option<
    (int, Marker),
> {
    match pos {
        None => best,
        Some(p) => match best {
            None => Some((p, m)),
            Some(b) => if p < b.0 {
                Some((p, m))
            } else {
                best
            },
        },
    }
}

/// The one coverage marker a line carries: of the six marker tokens, the one
/// that occurs earliest on the line.
pub open spec fn line_marker_spec(line: Seq<char>) -> Option<Marker> {
    let b0 = pick(None, find(line, "cov:excl-start"@), Marker::ExclStart);
    let b1 = pick(b0, find(line, "cov:excl-stop"@), Marker::ExclStop);
    let b2 = pick(b1, find(line, "cov:excl-line"@), Marker::ExclLine);
    let b3 = pick(b2, find(line, "cov:ignore-start"@), Marker::IgnStart);
    let b4 = pick(b3, find(line, "cov:ignore-stop"@), Marker::IgnStop);
    let b5 = pick(b4, find(line, "cov:ignore-line"@), Marker::IgnLine);
    match b5 {
        Some(b) => Some(b.1),
        None => None,
    }
}

/// A found marker, its position as an integer.
pub open spec fn found_view(b: Option<(usize, Marker)>) -> Option<(int, Marker)> {
    match b {
        Some(x) => Some((x.0 as int, x.1)),
        None => None,
    }
}

fn pick_exec(best: Option<(usize, Marker)>, line: &[char], tok: &str, m: Marker) -> (r: Option<
    (usize, Marker),
>)
    ensures
        found_view(r) == pick(found_view(best), find(line@, tok@), m),
{
    let t = chars_of(tok);
    match find_in(line, t.as_slice()) {
        None => best,
        Some(p) => match best {
            None => Some((p, m)),
            Some(b) => if p < b.0 {
                Some((p, m))
            } else {
                best
            },
        },
    }
}

/// The one coverage marker `line` carries, if any (see `line_marker_spec`).
pub fn line_marker(line: &[char]) -> (r: Option<Marker>)
    ensures
        r == line_marker_spec(line@),
{
    let b0 = pick_exec(None, line, "cov:excl-start", Marker::ExclStart);
    let b1 = pick_exec(b0, line, "cov:excl-stop", Marker::ExclStop);
    let b2 = pick_exec(b1, line, "cov:excl-line", Marker::ExclLine);
    let b3 = pick_exec(b2, line, "cov:ignore-start", Marker::IgnStart);
    let b4 = pick_exec(b3, line, "cov:ignore-stop", Marker::IgnStop);
    let b5 = pick_exec(b4, line, "cov:ignore-line", Marker::IgnLine);
    match b5 {
        Some(b) => Some(b.1),
        None => None,
    }
}

/// A panic-shaped line. `unreachable!` is not one: it is excluded instead.
pub open spec fn is_panic_line_spec(line: Seq<char>) -> bool {
    contains(line, "panic!"@) || contains(line, ".unwrap()"@) || contains(line, ".expect("@)
        || contains(line, "todo!"@) || contains(line, "unimplemented!"@)
}

fn contains_lit(line: &[char], pat: &str) -> (r: bool)
    ensures
        r == contains(line@, pat@),
{
    let p = chars_of(pat);
    contains_in(line, p.as_slice())
}

/// Recognise a panic-shaped line (see `is_panic_line_spec`).
pub fn is_panic_line(line: &[char]) -> (r: bool)
    ensures
        r == is_panic_line_spec(line@),
{
    contains_lit(line, "panic!") || contains_lit(line, ".unwrap()") || contains_lit(
        line,
        ".expect(",
    ) || contains_lit(line, "todo!") || contains_lit(line, "unimplemented!")
}

/// The region state (inside an exclusion region, inside an ignore region)
/// after a line carrying `m`.
pub open spec fn advance(st: (bool, bool), m: Option<Marker>) -> (bool, bool) {
    match m {
        Some(Marker::ExclStart) => (true, st.1),
        Some(Marker::ExclStop) => (false, st.1),
        Some(Marker::IgnStart) => (st.0, true),
        Some(Marker::IgnStop) => (st.0, false),
        _ => st,
    }
}

/// The region state before line `n` (0-based).
pub open spec fn region_before(lines: Seq<Seq<char>>, n: int) -> (bool, bool)
    decreases n,
{
    if n <= 0 {
        (false, false)
    } else {
        advance(region_before(lines, n - 1), line_marker_spec(lines[n - 1]))
    }
}

/// Whether line `i` is excluded: it carries an `excl-*` marker, or it carries
/// no marker inside an exclusion region, or it contains `unreachable!`.
pub open spec fn excl_flag(lines: Seq<Seq<char>>, i: int) -> bool {
    let m = line_marker_spec(lines[i]);
    ||| m == Some(Marker::ExclStart) || m == Some(Marker::ExclStop) || m == Some(Marker::ExclLine)
    ||| m is None && region_before(lines, i).0
    ||| contains(lines[i], "unreachable!"@)
}

/// Whether line `i` is ignored: it carries an `ignore-*` marker, or it
/// carries no marker inside an ignore region, or it is a panic site.
pub open spec fn ign_flag(lines: Seq<Seq<char>>, i: int) -> bool {
    let m = line_marker_spec(lines[i]);
    ||| m == Some(Marker::IgnStart) || m == Some(Marker::IgnStop) || m == Some(Marker::IgnLine)
    ||| m is None && region_before(lines, i).1
    ||| is_panic_line_spec(lines[i])
}

/// Once an `ignore-stop` line has been read, and no `ignore-start` line
/// since, the ignore region is closed.
proof fn lemma_ignore_closed(lines: Seq<Seq<char>>, s: int, j: int)
    requires
        0 <= s < j <= lines.len(),
        line_marker_spec(lines[s]) == Some(Marker::IgnStop),
        forall|k: int| s < k < j ==> line_marker_spec(#[trigger] lines[k]) != Some(Marker::IgnStart),
    ensures
        !region_before(lines, j).1,
    decreases j - s,
{
    if j > s + 1 {
        lemma_ignore_closed(lines, s, j - 1);
    }
}

/// Once an `ignore-start` line has been read, and no `ignore-stop` line
/// since, the ignore region is open.
proof fn lemma_ignore_open(lines: Seq<Seq<char>>, s: int, j: int)
    requires
        0 <= s < j <= lines.len(),
        line_marker_spec(lines[s]) == Some(Marker::IgnStart),
        forall|k: int| s < k < j ==> line_marker_spec(#[trigger] lines[k]) != Some(Marker::IgnStop),
    ensures
        region_before(lines, j).1,
    decreases j - s,
{
    if j > s + 1 {
        lemma_ignore_open(lines, s, j - 1);
    }
}

/// Once an `excl-stop` line has been read, and no `excl-start` line since,
/// the exclusion region is closed.
proof fn lemma_excl_closed(lines: Seq<Seq<char>>, s: int, j: int)
    requires
        0 <= s < j <= lines.len(),
        line_marker_spec(lines[s]) == Some(Marker::ExclStop),
        forall|k: int| s < k < j ==> line_marker_spec(#[trigger] lines[k]) != Some(Marker::ExclStart),
    ensures
        !region_before(lines, j).0,
    decreases j - s,
{
    if j > s + 1 {
        lemma_excl_closed(lines, s, j - 1);
    }
}

/// Once an `excl-start` line has been read, and no `excl-stop` line since,
/// the exclusion region is open.
proof fn lemma_excl_open(lines: Seq<Seq<char>>, s: int, j: int)
    requires
        0 <= s < j <= lines.len(),
        line_marker_spec(lines[s]) == Some(Marker::ExclStart),
        forall|k: int| s < k < j ==> line_marker_spec(#[trigger] lines[k]) != Some(Marker::ExclStop),
    ensures
        region_before(lines, j).0,
    decreases j - s,
{
    if j > s + 1 {
        lemma_excl_open(lines, s, j - 1);
    }
}

/// Before any marker line, no region is open.
proof fn lemma_no_region_yet(lines: Seq<Seq<char>>, j: int)
    requires
        0 <= j <= lines.len(),
        forall|k: int| 0 <= k < j ==> line_marker_spec(#[trigger] lines[k]) is None,
    ensures
        region_before(lines, j) == (false, false),
    decreases j,
{
    if j > 0 {
        lemma_no_region_yet(lines, j - 1);
    }
}

/// Ignore regions run from an `ignore-start` line to the next
/// `ignore-stop` line. A line without a marker that follows an
/// `ignore-start` line, with no `ignore-stop` line in between, is ignored;
/// one that follows an `ignore-stop` line, with no `ignore-start` line in
/// between, is ignored only when it is a panic site; and so is one that no
/// marker line precedes at all.
pub proof fn law_ignore_regions_run_from_start_to_stop(lines: Seq<Seq<char>>, s: int, j: int)
    requires
        0 <= s < j < lines.len(),
        line_marker_spec(lines[j]) is None,
    ensures
        line_marker_spec(lines[s]) == Some(Marker::IgnStart) && (forall|k: int|
            s < k < j ==> line_marker_spec(#[trigger] lines[k]) != Some(Marker::IgnStop))
            ==> ign_flag(lines, j),
        line_marker_spec(lines[s]) == Some(Marker::IgnStop) && (forall|k: int|
            s < k < j ==> line_marker_spec(#[trigger] lines[k]) != Some(Marker::IgnStart))
            ==> (ign_flag(lines, j) <==> is_panic_line_spec(lines[j])),
        (forall|k: int| 0 <= k < j ==> line_marker_spec(#[trigger] lines[k]) is None) ==> (ign_flag(
            lines,
            j,
        ) <==> is_panic_line_spec(lines[j])),
{
    if line_marker_spec(lines[s]) == Some(Marker::IgnStart) && (forall|k: int|
        s < k < j ==> line_marker_spec(#[trigger] lines[k]) != Some(Marker::IgnStop)) {
        lemma_ignore_open(lines, s, j);
    }
    if line_marker_spec(lines[s]) == Some(Marker::IgnStop) && (forall|k: int|
        s < k < j ==> line_marker_spec(#[trigger] lines[k]) != Some(Marker::IgnStart)) {
        lemma_ignore_closed(lines, s, j);
    }
    if forall|k: int| 0 <= k < j ==> line_marker_spec(#[trigger] lines[k]) is None {
        lemma_no_region_yet(lines, j);
    }
}

/// Exclusion regions run from an `excl-start` line to the next `excl-stop`
/// line. A line without a marker that follows an `excl-start` line, with no
/// `excl-stop` line in between, is excluded; one that follows an
/// `excl-stop` line, with no `excl-start` line in between, is excluded only
/// when it contains `unreachable!`; and so is one that no marker line
/// precedes at all.
pub proof fn law_exclusion_regions_run_from_start_to_stop(lines: Seq<Seq<char>>, s: int, j: int)
    requires
        0 <= s < j < lines.len(),
        line_marker_spec(lines[j]) is None,
    ensures
        line_marker_spec(lines[s]) == Some(Marker::ExclStart) && (forall|k: int|
            s < k < j ==> line_marker_spec(#[trigger] lines[k]) != Some(Marker::ExclStop))
            ==> excl_flag(lines, j),
        line_marker_spec(lines[s]) == Some(Marker::ExclStop) && (forall|k: int|
            s < k < j ==> line_marker_spec(#[trigger] lines[k]) != Some(Marker::ExclStart))
            ==> (excl_flag(lines, j) <==> contains(lines[j], "unreachable!"@)),
        (forall|k: int| 0 <= k < j ==> line_marker_spec(#[trigger] lines[k]) is None) ==> (
        excl_flag(lines, j) <==> contains(lines[j], "unreachable!"@)),
{
    if line_marker_spec(lines[s]) == Some(Marker::ExclStart) && (forall|k: int|
        s < k < j ==> line_marker_spec(#[trigger] lines[k]) != Some(Marker::ExclStop)) {
        lemma_excl_open(lines, s, j);
    }
    if line_marker_spec(lines[s]) == Some(Marker::ExclStop) && (forall|k: int|
        s < k < j ==> line_marker_spec(#[trigger] lines[k]) != Some(Marker::ExclStart)) {
        lemma_excl_closed(lines, s, j);
    }
    if forall|k: int| 0 <= k < j ==> line_marker_spec(#[trigger] lines[k]) is None {
        lemma_no_region_yet(lines, j);
    }
}

/// Scan source text for the exclusion/ignore markers plus the automatic
/// `unreachable!` / panic detections. Returns `(excluded, ignored)`, one flag
/// per line of `content` (see `excl_flag`, `ign_flag`).
pub fn compute_excl_ignored(content: &str) -> (r: (Vec<bool>, Vec<bool>))
    ensures
        r.0@.len() == lines_of(content@).len(),
        r.1@.len() == lines_of(content@).len(),
        forall|i: int|
            0 <= i < r.0@.len() ==> r.0@[i] == excl_flag(lines_of(content@), i) && r.1@[i]
                == ign_flag(lines_of(content@), i),
{
    let text = chars_of(content);
    let lines = split_lines(&text);
    let ghost ls = lines_of(content@);
    let mut excluded: Vec<bool> = Vec::new();
    let mut ignored: Vec<bool> = Vec::new();
    let mut excl_on = false;
    let mut ign_on = false;
    let mut i: usize = 0;
    while i < lines.len()
        invariant
            views(lines@) == ls,
            i <= lines@.len(),
            excluded@.len() == i,
            ignored@.len() == i,
            (excl_on, ign_on) == region_before(ls, i as int),
            forall|k: int|
                0 <= k < i ==> excluded@[k] == excl_flag(ls, k) && ignored@[k] == ign_flag(ls, k),
        decreases lines@.len() - i,
    {
        let raw = &lines[i];
        assert(raw@ == ls[i as int]);
        let marker = line_marker(raw.as_slice());
        let (mut e, mut g) = match marker {
            Some(Marker::ExclStart) | Some(Marker::ExclStop) | Some(Marker::ExclLine) => (
                true,
                false,
            ),
            Some(Marker::IgnStart) | Some(Marker::IgnStop) | Some(Marker::IgnLine) => (
                false,
                true,
            ),
            None => (excl_on, ign_on),
        };
        if contains_lit(raw.as_slice(), "unreachable!") {
            e = true;
        }
        if is_panic_line(raw.as_slice()) {
            g = true;
        }
        excluded.push(e);
        ignored.push(g);
        match marker {
            Some(Marker::ExclStart) => excl_on = true,
            Some(Marker::ExclStop) => excl_on = false,
            Some(Marker::IgnStart) => ign_on = true,
            Some(Marker::IgnStop) => ign_on = false,
            _ => {},
        }
        i += 1;
    }
    (excluded, ignored)
}


// ---------------------------------------------------------------------------
// `#[test]` function bodies
// ---------------------------------------------------------------------------

/// A test attribute: `#[...test...]`.
pub const TEST_ATTR: &'static str = r"#\[[^\]]*\btest\b[^\]]*\]";

/// The `fn` keyword.
pub const FN_KW: &'static str = r"\bfn\b";

/// A (byte/raw) string literal on one line.
pub const STR_LIT: &'static str = r#"(?:br|b|r)?"(?:\\.|[^"\\])*""#;

/// A character literal.
pub const CHAR_LIT: &'static str = r#"'(?:\\.|[^'\\])*'"#;

/// A line with its string and character literals and its trailing `//`
/// comment removed, so that its braces can be counted.
pub open spec fn clean_spec(line: Seq<char>) -> Seq<char> {
    let a = replaced(STR_LIT@, line, ""@);
    let b = replaced(CHAR_LIT@, a, ""@);
    match find(b, "//"@) {
        Some(i) => b.take(i),
        None => b,
    }
}

/// Strip string/char literals and the trailing `//` comment from a line so the
/// remainder is safe to brace-count (see `clean_spec`).
pub fn clean_for_braces(line: &str) -> (r: Vec<char>)
    ensures
        r@ == clean_spec(line@),
{
    let a = replaced_exec(STR_LIT, line, "");
    let b = replaced_exec(CHAR_LIT, a.as_str(), "");
    let cs = chars_of(b.as_str());
    let sl = chars_of("//");
    match find_in(cs.as_slice(), sl.as_slice()) {
        Some(i) => {
            proof {
                reveal_strlit("//");
            }
            crate::text::slice_copy(&cs, 0, i)
        },
        None => cs,
    }
}

/// Brace-scan state: a `fn` keyword was seen, the brace depth, the body's
/// opening brace was seen.
pub type Scan = (bool, u64, bool);

/// One character of the brace scan; the flag tells that the body closed.
pub open spec fn brace_step(st: Scan, c: char) -> (Scan, bool) {
    if c == '{' {
        let open = st.2 || (st.1 == 0 && st.0);
        let d = if st.1 == u64::MAX {
            st.1
        } else {
            (st.1 + 1) as u64
        };
        ((st.0, d, open), false)
    } else if c == '}' && st.1 > 0 {
        let d = (st.1 - 1) as u64;
        ((st.0, d, st.2), d == 0 && st.2)
    } else {
        (st, false)
    }
}

/// The brace scan over the first `n` characters of `l`; it stops at the
/// body's closing brace.
pub open spec fn scan_chars(st: Scan, l: Seq<char>, n: int) -> (Scan, bool)
    decreases n,
{
    if n <= 0 {
        (st, false)
    } else {
        let prev = scan_chars(st, l, n - 1);
        if prev.1 {
            prev
        } else {
            brace_step(prev.0, l[n - 1])
        }
    }
}

/// The line holding a `fn` keyword.
pub open spec fn has_fn_kw(l: Seq<char>) -> bool {
    pattern_matches(FN_KW@, l)
}

/// The index of the line where the body closes, scanning from line `j` in
/// state `st`.
pub open spec fn body_end(cl: Seq<Seq<char>>, j: int, st: Scan) -> Option<int>
    decreases cl.len() - j,
{
    if j < 0 || j >= cl.len() {
        None
    } else {
        let st1 = (st.0 || has_fn_kw(cl[j]), st.1, st.2);
        let r = scan_chars(st1, cl[j], cl[j].len() as int);
        if r.1 {
            Some(j)
        } else {
            body_end(cl, j + 1, r.0)
        }
    }
}

/// The start of a brace scan.
pub open spec fn scan_start() -> Scan {
    (false, 0, false)
}

/// Whether line `k` lies in a test function found by scanning from line `i`:
/// at a test-attribute line whose body closes at `c`, the lines `i..=c` are
/// marked and the scan resumes after `c`.
pub open spec fn test_marked(cl: Seq<Seq<char>>, i: int, k: int) -> bool
    decreases cl.len() - i,
{
    if i < 0 || i >= cl.len() {
        false
    } else if pattern_matches(TEST_ATTR@, cl[i]) && body_end(cl, i, scan_start()) is Some {
        let c = body_end(cl, i, scan_start())->Some_0;
        if i <= c < cl.len() {
            (i <= k <= c) || test_marked(cl, c + 1, k)
        } else {
            false
        }
    } else {
        test_marked(cl, i + 1, k)
    }
}

/// The cleaned lines of `content`.
pub open spec fn cleaned_lines(content: Seq<char>) -> Seq<Seq<char>> {
    lines_of(content).map_values(|l: Seq<char>| clean_spec(l))
}

/// `body_end` never answers a line before where it started.
proof fn lemma_body_end_after(cl: Seq<Seq<char>>, j: int, st: Scan)
    ensures
        body_end(cl, j, st) matches Some(c) ==> j <= c < cl.len(),
    decreases cl.len() - j,
{
    if 0 <= j < cl.len() {
        let st1 = (st.0 || has_fn_kw(cl[j]), st.1, st.2);
        let r = scan_chars(st1, cl[j], cl[j].len() as int);
        if !r.1 {
            lemma_body_end_after(cl, j + 1, r.0);
        }
    }
}

/// Lines before where a scan starts are never marked by it.
proof fn lemma_test_marked_before(cl: Seq<Seq<char>>, i: int, k: int)
    requires
        k < i,
    ensures
        !test_marked(cl, i, k),
    decreases cl.len() - i,
{
    if 0 <= i < cl.len() {
        if pattern_matches(TEST_ATTR@, cl[i]) && body_end(cl, i, scan_start()) is Some {
            let c = body_end(cl, i, scan_start())->Some_0;
            if i <= c < cl.len() {
                lemma_test_marked_before(cl, c + 1, k);
            }
        } else {
            lemma_test_marked_before(cl, i + 1, k);
        }
    }
}

/// The brace scan over a whole line.
fn scan_line(st: (bool, u64, bool), l: &Vec<char>) -> (r: ((bool, u64, bool), bool))
    ensures
        r == scan_chars(st, l@, l@.len() as int),
{
    let mut cur = st;
    let mut i: usize = 0;
    while i < l.len()
        invariant
            i <= l@.len(),
            scan_chars(st, l@, i as int) == (cur, false),
        decreases l@.len() - i,
    {
        let c = l[i];
        if c == '{' {
            let open = cur.2 || (cur.1 == 0 && cur.0);
            let d = if cur.1 == u64::MAX {
                cur.1
            } else {
                cur.1 + 1
            };
            cur = (cur.0, d, open);
        } else if c == '}' && cur.1 > 0 {
            let d = cur.1 - 1;
            cur = (cur.0, d, cur.2);
            if d == 0 && cur.2 {
                proof {
                    assert(scan_chars(st, l@, i + 1) == (cur, true));
                    lemma_scan_stops(st, l@, i + 1, l@.len() as int);
                }
                return (cur, true);
            }
        }
        i += 1;
    }
    (cur, false)
}

/// Once the body has closed, the scan stays where it stopped.
proof fn lemma_scan_stops(st: Scan, l: Seq<char>, n: int, m: int)
    requires
        0 < n <= m,
        scan_chars(st, l, n).1,
    ensures
        scan_chars(st, l, m) == scan_chars(st, l, n),
    decreases m - n,
{
    if m > n {
        lemma_scan_stops(st, l, n, m - 1);
    }
}

/// From a test-attribute line `start`, the index of the line holding the
/// closing brace of the function body that follows (see `body_end`).
pub fn find_test_body(cleaned: &Vec<Vec<char>>, start: usize) -> (r: Option<usize>)
    ensures
        match r {
            Some(c) => body_end(views(cleaned@), start as int, scan_start()) == Some(c as int),
            None => body_end(views(cleaned@), start as int, scan_start()) is None,
        },
{
    let ghost cl = views(cleaned@);
    let mut st: (bool, u64, bool) = (false, 0, false);
    let mut j = start;
    while j < cleaned.len()
        invariant
            cl == views(cleaned@),
            start <= j,
            body_end(cl, start as int, scan_start()) == body_end(cl, j as int, st),
        decreases cleaned@.len() - j,
    {
        let line = &cleaned[j];
        assert(line@ == cl[j as int]);
        if !st.0 {
            let text = string_of(line.as_slice());
            if matches_exec(FN_KW, text.as_str()) {
                st = (true, st.1, st.2);
            }
        }
        let r = scan_line(st, line);
        if r.1 {
            return Some(j);
        }
        st = r.0;
        j += 1;
    }
    None
}

/// Per-line flags marking lines inside a `#[test]` function, from the
/// attribute line through the body's closing brace (see `test_marked`).
pub fn compute_test_fn_lines(content: &str) -> (r: Vec<bool>)
    ensures
        r@.len() == lines_of(content@).len(),
        forall|k: int| 0 <= k < r@.len() ==> r@[k] == test_marked(cleaned_lines(content@), 0, k),
{
    let text = chars_of(content);
    let lines = split_lines(&text);
    let ghost cl = cleaned_lines(content@);
    let n = lines.len();
    let mut cleaned: Vec<Vec<char>> = Vec::new();
    let mut i: usize = 0;
    while i < n
        invariant
            n == lines@.len(),
            views(lines@) == lines_of(content@),
            cl == cleaned_lines(content@),
            i <= n,
            cleaned@.len() == i,
            forall|k: int| 0 <= k < i ==> (#[trigger] cleaned@[k])@ == cl[k],
        decreases n - i,
    {
        let s = string_of(lines[i].as_slice());
        assert(lines@[i as int]@ == lines_of(content@)[i as int]);
        cleaned.push(clean_for_braces(s.as_str()));
        i += 1;
    }
    assert(views(cleaned@) =~= cl);
    let mut out: Vec<bool> = vec![false; n];
    let mut i: usize = 0;
    while i < n
        invariant
            n == cleaned@.len(),
            cl == views(cleaned@),
            out@.len() == n,
            i <= n,
            forall|k: int| 0 <= k < i ==> out@[k] == test_marked(cl, 0, k),
            forall|k: int| i <= k < n ==> !out@[k],
            forall|k: int| i <= k ==> test_marked(cl, 0, k) == test_marked(cl, i as int, k),
        decreases n - i,
    {
        let attr = {
            let s = string_of(cleaned[i].as_slice());
            assert(cleaned@[i as int]@ == cl[i as int]);
            matches_exec(TEST_ATTR, s.as_str())
        };
        let close = if attr {
            find_test_body(&cleaned, i)
        } else {
            None
        };
        proof {
            lemma_body_end_after(cl, i as int, scan_start());
        }
        match close {
            Some(c) => {
                let mut k = i;
                while k <= c
                    invariant
                        i <= k <= c + 1,
                        c < n,
                        out@.len() == n,
                        forall|m: int| 0 <= m < i ==> out@[m] == test_marked(cl, 0, m),
                        forall|m: int| i <= m < k ==> out@[m],
                        forall|m: int| k <= m < n ==> !out@[m],
                    decreases c + 1 - k,
                {
                    out.set(k, true);
                    k += 1;
                }
                proof {
                    assert forall|m: int| i <= m implies test_marked(cl, i as int, m) == ((i <= m
                        <= c) || test_marked(cl, c + 1, m)) by {}
                    assert forall|m: int| 0 <= m < c + 1 implies out@[m] == test_marked(cl, 0, m) by {
                        if m >= i {
                            assert(test_marked(cl, i as int, m));
                        }
                    }
                }
                i = c + 1;
            },
            None => {
                proof {
                    lemma_test_marked_before(cl, i + 1, i as int);
                    assert forall|m: int| i <= m implies test_marked(cl, i as int, m)
                        == test_marked(cl, i + 1, m) by {}
                }
                i += 1;
            },
        }
    }
    out
}


// ---------------------------------------------------------------------------
// Multi-line macro heads
// ---------------------------------------------------------------------------

/// `ident!` followed by an opening bracket.
pub const MACRO_HEAD: &'static str = r"[A-Za-z_][A-Za-z0-9_]*!\s*[(\[{]";

/// The part of a line before its first `//`.
pub open spec fn code_part(line: Seq<char>) -> Seq<char> {
    match find(line, "//"@) {
        Some(i) => line.take(i),
        None => line,
    }
}

/// How a character changes the bracket depth.
pub open spec fn bracket_delta(c: char) -> int {
    if c == '(' || c == '{' || c == '[' {
        1
    } else if c == ')' || c == '}' || c == ']' {
        -1
    } else {
        0
    }
}

/// Opening minus closing brackets in `s`.
pub open spec fn bracket_balance(s: Seq<char>) -> int
    decreases s.len(),
{
    if s.len() == 0 {
        0
    } else {
        bracket_balance(s.drop_last()) + bracket_delta(s.last())
    }
}

/// A line that opens a macro invocation whose body continues on the next
/// lines: its code holds an `ident!` and an opening bracket, and more
/// brackets open than close.
pub open spec fn opens_multiline_macro_spec(line: Seq<char>) -> bool {
    pattern_matches(MACRO_HEAD@, code_part(line)) && bracket_balance(code_part(line)) > 0
}

/// True if `line` opens a macro invocation whose body continues onto the
/// following line(s) (see `opens_multiline_macro_spec`).
pub fn opens_multiline_macro(line: &str) -> (r: bool)
    ensures
        r == opens_multiline_macro_spec(line@),
{
    let cs = chars_of(line);
    let sl = chars_of("//");
    let end = match find_in(cs.as_slice(), sl.as_slice()) {
        Some(i) => {
            proof {
                reveal_strlit("//");
            }
            i
        },
        None => cs.len(),
    };
    let code = crate::text::slice_copy(&cs, 0, end);
    assert(cs@.subrange(0, cs@.len() as int) =~= cs@);
    assert(code@ == code_part(line@));
    let code_text = string_of(code.as_slice());
    if !matches_exec(MACRO_HEAD, code_text.as_str()) {
        return false;
    }
    let mut depth: i128 = 0;
    let mut i: usize = 0;
    while i < code.len()
        invariant
            i <= code@.len(),
            depth == bracket_balance(code@.take(i as int)),
            -(i as int) <= depth <= i as int,
        decreases code@.len() - i,
    {
        assert(code@.take(i + 1).drop_last() =~= code@.take(i as int));
        let c = code[i];
        if c == '(' || c == '{' || c == '[' {
            depth = depth + 1;
        } else if c == ')' || c == '}' || c == ']' {
            depth = depth - 1;
        }
        i += 1;
    }
    assert(code@.take(code@.len() as int) =~= code@);
    depth > 0
}

/// Whether line `i` (0-based) is the phantom head of a multi-line macro: it
/// is executable and uncovered, it opens a multi-line macro, and the next
/// line is covered.
pub open spec fn macro_artifact(
    lines: Seq<Seq<char>>,
    executable: Set<u32>,
    covered: Set<u32>,
    i: int,
) -> bool {
    let n = (i + 1) as u32;
    &&& executable.contains(n)
    &&& !covered.contains(n)
    &&& opens_multiline_macro_spec(lines[i])
    &&& covered.contains((n + 1) as u32)
}

/// Per-line flags marking phantom coverage gaps left by multi-line macro
/// invocations (see `macro_artifact`).
pub fn compute_macro_artifacts(content: &str, executable: &Vec<u32>, covered: &Vec<u32>) -> (r:
    Vec<bool>)
    requires
        strictly_sorted(executable@),
        strictly_sorted(covered@),
        lines_of(content@).len() < u32::MAX,
    ensures
        r@.len() == lines_of(content@).len(),
        forall|i: int|
            0 <= i < r@.len() ==> r@[i] == macro_artifact(
                lines_of(content@),
                elems(executable@),
                elems(covered@),
                i,
            ),
{
    let text = chars_of(content);
    let lines = split_lines(&text);
    let ghost ls = lines_of(content@);
    let mut out: Vec<bool> = Vec::new();
    let mut i: usize = 0;
    while i < lines.len()
        invariant
            views(lines@) == ls,
            ls.len() < u32::MAX,
            i <= lines@.len(),
            out@.len() == i,
            strictly_sorted(executable@),
            strictly_sorted(covered@),
            forall|k: int|
                0 <= k < i ==> out@[k] == macro_artifact(
                    ls,
                    elems(executable@),
                    elems(covered@),
                    k,
                ),
        decreases lines@.len() - i,
    {
        assert(lines@[i as int]@ == ls[i as int]);
        let lineno = (i + 1) as u32;
        let flag = if !crate::sorted::contains_sorted(executable, lineno)
            || crate::sorted::contains_sorted(covered, lineno) {
            false
        } else {
            let s = string_of(lines[i].as_slice());
            opens_multiline_macro(s.as_str()) && crate::sorted::contains_sorted(covered, lineno + 1)
        };
        out.push(flag);
        i += 1;
    }
    out
}

// ---------------------------------------------------------------------------
// Classification
// ---------------------------------------------------------------------------

/// Line `n` is covered: some key of the below- or above-threshold map reads
/// as `n`.
pub open spec fn covered_line(src: &SourceFile, n: u32) -> bool {
    ||| exists|i: int|
        0 <= i < src.lines.seq().len() && parse_unsigned(src.lines.seq()[i].0, u32::MAX as nat)
            == Some(n as nat)
    ||| exists|i: int|
        0 <= i < src.above_threshold.seq().len() && parse_unsigned(
            src.above_threshold.seq()[i].0,
            u32::MAX as nat,
        ) == Some(n as nat)
}

/// The covered line numbers.
pub open spec fn covered_set(src: &SourceFile) -> Set<u32> {
    Set::new(|n: u32| covered_line(src, n))
}

/// Line `n` is covered by exactly one test: the below-threshold map holds
/// the key `n.to_string()` with a single test.
pub open spec fn uniquely_covered_spec(src: &SourceFile, n: u32) -> bool {
    match lookup(src.lines.seq(), dec(n as nat)) {
        Some(v) => v@.len() == 1,
        None => false,
    }
}

/// The category of an executable line.
pub open spec fn class_for(excl: bool, ign: bool, cov: bool, unique: bool) -> LineClass {
    if excl && cov {
        LineClass::ExcludedCovered
    } else if excl {
        LineClass::Excluded
    } else if ign {
        LineClass::Ignored
    } else if unique {
        LineClass::CoveredUnique
    } else if cov {
        LineClass::Covered
    } else {
        LineClass::Uncovered
    }
}

/// The category of line `i` (0-based) of `src`.
pub open spec fn class_of(src: &SourceFile, i: int) -> LineClass {
    let lines = lines_of(src.content@);
    let n = (i + 1) as u32;
    if !src.executable@.contains(n) {
        LineClass::NonExecutable
    } else {
        let cov = covered_set(src).contains(n);
        let ign = ign_flag(lines, i) || macro_artifact(
            lines,
            elems(src.executable@),
            covered_set(src),
            i,
        );
        let unique = cov && uniquely_covered_spec(src, n) && !test_marked(
            cleaned_lines(src.content@),
            0,
            i,
        );
        class_for(excl_flag(lines, i), ign, cov, unique)
    }
}

/// An executable line that carries an `excl-*` marker, or contains
/// `unreachable!`, is excluded: white, or pink when a test covered it
/// anyway.
pub proof fn law_marked_lines_are_excluded(src: &SourceFile, i: int)
    requires
        0 <= i < lines_of(src.content@).len(),
        src.executable@.contains((i + 1) as u32),
        ({
            let line = lines_of(src.content@)[i];
            let m = line_marker_spec(line);
            ||| m == Some(Marker::ExclStart)
            ||| m == Some(Marker::ExclStop)
            ||| m == Some(Marker::ExclLine)
            ||| contains(line, "unreachable!"@)
        }),
    ensures
        class_of(src, i) == if covered_set(src).contains((i + 1) as u32) {
            LineClass::ExcludedCovered
        } else {
            LineClass::Excluded
        },
{
}

/// An executable line that is not excluded and carries an `ignore-*`
/// marker or is a panic site is ignored (grey), covered or not.
pub proof fn law_panic_and_ignore_lines_are_ignored(src: &SourceFile, i: int)
    requires
        0 <= i < lines_of(src.content@).len(),
        src.executable@.contains((i + 1) as u32),
        !excl_flag(lines_of(src.content@), i),
        ({
            let line = lines_of(src.content@)[i];
            let m = line_marker_spec(line);
            ||| m == Some(Marker::IgnStart)
            ||| m == Some(Marker::IgnStop)
            ||| m == Some(Marker::IgnLine)
            ||| is_panic_line_spec(line)
        }),
    ensures
        class_of(src, i) == LineClass::Ignored,
{
}

/// A line that is not executable is never counted, whatever it holds.
pub proof fn law_non_executable_lines_are_not_classified(src: &SourceFile, i: int)
    requires
        !src.executable@.contains((i + 1) as u32),
    ensures
        class_of(src, i) == LineClass::NonExecutable,
{
}

/// An ignore region ends at its stop marker: an executable line without a
/// marker after an `ignore-stop` line, with no `ignore-start` line in
/// between, that is not excluded, not a panic site, not a macro-head
/// artifact and not covered, is a real gap (uncovered); and one after an
/// `ignore-start` line, with no `ignore-stop` line in between, that is not
/// excluded, is ignored.
pub proof fn law_ignore_region_classes(src: &SourceFile, s: int, j: int)
    requires
        0 <= s < j < lines_of(src.content@).len(),
        src.executable@.contains((j + 1) as u32),
        line_marker_spec(lines_of(src.content@)[j]) is None,
        !excl_flag(lines_of(src.content@), j),
    ensures
        ({
            let lines = lines_of(src.content@);
            &&& line_marker_spec(lines[s]) == Some(Marker::IgnStop)
            &&& forall|k: int|
                s < k < j ==> line_marker_spec(#[trigger] lines[k]) != Some(Marker::IgnStart)
            &&& !is_panic_line_spec(lines[j])
            &&& !macro_artifact(lines, elems(src.executable@), covered_set(src), j)
            &&& !covered_set(src).contains((j + 1) as u32)
        }) ==> class_of(src, j) == LineClass::Uncovered,
        ({
            let lines = lines_of(src.content@);
            &&& line_marker_spec(lines[s]) == Some(Marker::IgnStart)
            &&& forall|k: int|
                s < k < j ==> line_marker_spec(#[trigger] lines[k]) != Some(Marker::IgnStop)
        }) ==> class_of(src, j) == LineClass::Ignored,
{
    law_ignore_regions_run_from_start_to_stop(lines_of(src.content@), s, j);
}

/// True if line `lineno` is covered by exactly one test (see
/// `uniquely_covered_spec`).
pub fn uniquely_covered(src: &SourceFile, lineno: u32) -> (r: bool)
    ensures
        r == uniquely_covered_spec(src, lineno),
{
    let key = dec_string(lineno as u64);
    match src.lines.get(key.as_str()) {
        Some(v) => v.len() == 1,
        None => false,
    }
}

/// The covered line numbers of `src`, as a strictly increasing vector.
fn covered_lines(src: &SourceFile) -> (r: Vec<u32>)
    ensures
        strictly_sorted(r@),
        elems(r@) == covered_set(src),
{
    let mut r: Vec<u32> = Vec::new();
    let mut i: usize = 0;
    while i < src.lines.len()
        invariant
            i <= src.lines.seq().len(),
            strictly_sorted(r@),
            forall|n: u32|
                elems(r@).contains(n) <==> exists|k: int|
                    0 <= k < i && parse_unsigned(src.lines.seq()[k].0, u32::MAX as nat) == Some(
                        n as nat,
                    ),
        decreases src.lines.seq().len() - i,
    {
        let (key, _) = src.lines.entry(i);
        let kc = chars_of(key.as_str());
        let ghost before = r@;
        match parse_u32_in(kc.as_slice(), 0, kc.len()) {
            Some(n) => {
                insert_sorted(&mut r, n);
            },
            None => {},
        }
        proof {
            assert(kc@.subrange(0, kc@.len() as int) =~= kc@);
            assert forall|n: u32|
                elems(r@).contains(n) <==> exists|k: int|
                    0 <= k < i + 1 && parse_unsigned(src.lines.seq()[k].0, u32::MAX as nat)
                        == Some(n as nat) by {
                if parse_unsigned(src.lines.seq()[i as int].0, u32::MAX as nat) == Some(n as nat) {
                    assert(elems(r@).contains(n));
                }
                if elems(before).contains(n) {
                    assert(elems(r@).contains(n));
                }
            }
        }
        i += 1;
    }
    let mut j: usize = 0;
    while j < src.above_threshold.len()
        invariant
            j <= src.above_threshold.seq().len(),
            strictly_sorted(r@),
            forall|n: u32|
                elems(r@).contains(n) <==> (exists|k: int|
                    0 <= k < src.lines.seq().len() && parse_unsigned(
                        src.lines.seq()[k].0,
                        u32::MAX as nat,
                    ) == Some(n as nat)) || (exists|k: int|
                    0 <= k < j && parse_unsigned(src.above_threshold.seq()[k].0, u32::MAX as nat)
                        == Some(n as nat)),
        decreases src.above_threshold.seq().len() - j,
    {
        let (key, _) = src.above_threshold.entry(j);
        let kc = chars_of(key.as_str());
        let ghost before = r@;
        match parse_u32_in(kc.as_slice(), 0, kc.len()) {
            Some(n) => {
                insert_sorted(&mut r, n);
            },
            None => {},
        }
        proof {
            assert(kc@.subrange(0, kc@.len() as int) =~= kc@);
            assert forall|n: u32|
                elems(r@).contains(n) <==> (exists|k: int|
                    0 <= k < src.lines.seq().len() && parse_unsigned(
                        src.lines.seq()[k].0,
                        u32::MAX as nat,
                    ) == Some(n as nat)) || (exists|k: int|
                    0 <= k < j + 1 && parse_unsigned(
                        src.above_threshold.seq()[k].0,
                        u32::MAX as nat,
                    ) == Some(n as nat)) by {
                if parse_unsigned(src.above_threshold.seq()[j as int].0, u32::MAX as nat) == Some(
                    n as nat,
                ) {
                    assert(elems(r@).contains(n));
                }
                if elems(before).contains(n) {
                    assert(elems(r@).contains(n));
                }
            }
        }
        j += 1;
    }
    assert(elems(r@) =~= covered_set(src));
    r
}

/// Classify every line of a file: `classes[i]` describes line `i + 1` (see
/// `class_of`).
pub fn classify(src: &SourceFile) -> (r: Vec<LineClass>)
    requires
        lines_of(src.content@).len() < u32::MAX,
    ensures
        r@.len() == lines_of(src.content@).len(),
        forall|i: int| 0 <= i < r@.len() ==> r@[i] == class_of(src, i),
{
    let (excluded, ignored) = compute_excl_ignored(src.content.as_str());
    let test_fn_lines = compute_test_fn_lines(src.content.as_str());
    let executable = crate::sorted::sorted_set(&src.executable);
    let covered = covered_lines(src);
    let macro_artifact = compute_macro_artifacts(src.content.as_str(), &executable, &covered);
    let n = if excluded.len() > ignored.len() {
        excluded.len()
    } else {
        ignored.len()
    };
    let ghost ls = lines_of(src.content@);
    let mut out: Vec<LineClass> = Vec::new();
    let mut i: usize = 0;
    while i < n
        invariant
            n == ls.len(),
            ls == lines_of(src.content@),
            ls.len() < u32::MAX,
            excluded@.len() == n,
            ignored@.len() == n,
            test_fn_lines@.len() == n,
            macro_artifact@.len() == n,
            strictly_sorted(executable@),
            elems(executable@) == elems(src.executable@),
            strictly_sorted(covered@),
            elems(covered@) == covered_set(src),
            forall|k: int|
                0 <= k < n ==> excluded@[k] == excl_flag(ls, k) && ignored@[k] == ign_flag(ls, k),
            forall|k: int|
                0 <= k < n ==> test_fn_lines@[k] == test_marked(cleaned_lines(src.content@), 0, k),
            forall|k: int|
                0 <= k < n ==> macro_artifact@[k] == crate::classify::macro_artifact(
                    ls,
                    elems(executable@),
                    elems(covered@),
                    k,
                ),
            i <= n,
            out@.len() == i,
            forall|k: int| 0 <= k < i ==> out@[k] == class_of(src, k),
        decreases n - i,
    {
        let lineno = (i + 1) as u32;
        let is_exec = crate::sorted::contains_sorted(&executable, lineno);
        assert(elems(executable@).contains(lineno) == src.executable@.contains(lineno));
        if !is_exec {
            out.push(LineClass::NonExecutable);
        } else {
            let excl = excluded[i];
            let ign = ignored[i] || macro_artifact[i];
            let cov = crate::sorted::contains_sorted(&covered, lineno);
            assert(elems(covered@).contains(lineno) == cov);
            let unique = cov && uniquely_covered(src, lineno) && !test_fn_lines[i];
            let class = if excl && cov {
                LineClass::ExcludedCovered
            } else if excl {
                LineClass::Excluded
            } else if ign {
                LineClass::Ignored
            } else if unique {
                LineClass::CoveredUnique
            } else if cov {
                LineClass::Covered
            } else {
                LineClass::Uncovered
            };
            out.push(class);
        }
        i += 1;
    }
    out
}

} // verus!
