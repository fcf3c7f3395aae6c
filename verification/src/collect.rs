//! The decisions of `cargo testmap collect`: which settings apply, which
//! tests run and in which order, and what the collected runs add up to.
//!
//! Building, listing and running the test binaries happen in the caller,
//! which hands the results back here.

use vstd::prelude::*;
use crate::cli::{CollectArgs, DEFAULT_THRESHOLD};
use crate::config::CollectConfig;
use crate::discovery::{case_view, target_view, TestCase, TestTarget};
use crate::pattern::{compiles, is_match, pattern_matches, regex_compiles};
use crate::database::{Database, Metadata, SourceFile, TestEntry, DATABASE_VERSION};
use crate::reverse::{
    entries_of, exec_lines_of, law_snapshot_lists_covering_tests, rm_wf, snapshot_matches, tests_of,
    ExecutableMap, ReverseMap,
};
use crate::text::dec;
use crate::run::{rec_views, status_name, str_views, TestCoverage, TestStatus};
use crate::sorted::elems;
use crate::strmap::StrMap;
use crate::util::{now_rfc3339, rfc3339_spec};
use crate::text::{lemma_lex_irrefl, lemma_lex_total, lemma_lex_trans, lex_lt, str_lt};

verus! {

broadcast use vstd::seq_lib::group_to_multiset_ensures;

/// An optional string as an optional character sequence.
pub open spec fn opt_str(o: Option<String>) -> Option<Seq<char>> {
    match o {
        Some(s) => Some(s@),
        None => None,
    }
}

/// A copy of an optional string.
pub fn copy_opt(o: &Option<String>) -> (r: Option<String>)
    ensures
        opt_str(r) == opt_str(*o),
{
    match o {
        Some(s) => Some(s.as_str().to_owned()),
        None => None,
    }
}

// ---------------------------------------------------------------------------
// Settings
// ---------------------------------------------------------------------------

/// The settings of one collection, command line and config file merged.
pub struct Settings {
    pub filter: Option<String>,
    pub skip: Option<String>,
    pub threshold: u32,
    pub jobs: Option<usize>,
}

/// The threshold in force: the config file's, when it sets one and the
/// command line gave the default (a given 10 cannot be told from the
/// default); else the command line's.
pub open spec fn merged_threshold(args_threshold: u32, cfg_threshold: Option<u32>) -> u32 {
    match cfg_threshold {
        Some(t) => if args_threshold == DEFAULT_THRESHOLD {
            t
        } else {
            args_threshold
        },
        None => args_threshold,
    }
}

/// Merges the config file's `[collect]` table with the command line; the
/// command line wins where it sets a value.
pub fn merge_settings(args: &CollectArgs, cfg: &CollectConfig) -> (r: Settings)
    ensures
        opt_str(r.filter) == (if args.filter is Some {
            opt_str(args.filter)
        } else {
            opt_str(cfg.filter)
        }),
        opt_str(r.skip) == (if args.skip is Some {
            opt_str(args.skip)
        } else {
            opt_str(cfg.skip)
        }),
        r.threshold == merged_threshold(args.threshold, cfg.threshold),
        r.jobs == (if args.jobs is Some {
            args.jobs
        } else {
            cfg.jobs
        }),
{
    let filter = if args.filter.is_some() {
        copy_opt(&args.filter)
    } else {
        copy_opt(&cfg.filter)
    };
    let skip = if args.skip.is_some() {
        copy_opt(&args.skip)
    } else {
        copy_opt(&cfg.skip)
    };
    let threshold = match cfg.threshold {
        Some(t) => if args.threshold == DEFAULT_THRESHOLD {
            t
        } else {
            args.threshold
        },
        None => args.threshold,
    };
    let jobs = match args.jobs {
        Some(n) => Some(n),
        None => cfg.jobs,
    };
    Settings { filter, skip, threshold, jobs }
}

// ---------------------------------------------------------------------------
// Target selection forwarded to cargo
// ---------------------------------------------------------------------------

/// `s` alone when `b`, else nothing.
pub open spec fn flag_if(b: bool, s: Seq<char>) -> Seq<Seq<char>> {
    if b {
        seq![s]
    } else {
        Seq::empty()
    }
}

/// The cargo target-selection arguments of a collection.
pub open spec fn cargo_select_spec(
    workspace: bool,
    package: Option<Seq<char>>,
    lib: bool,
    bins: bool,
    tests: bool,
    extra: Seq<Seq<char>>,
) -> Seq<Seq<char>> {
    flag_if(workspace, "--workspace"@) + (match package {
        Some(p) => seq!["--package"@, p],
        None => Seq::empty(),
    }) + flag_if(lib, "--lib"@) + flag_if(bins, "--bins"@) + flag_if(tests, "--tests"@) + extra
}

/// Each selection flag of the command line is forwarded under cargo's own
/// name for it, in a fixed order: `--workspace`, then `--package` and the
/// package name, then `--lib`, `--bins`, `--tests`, each present exactly when
/// its flag is set, then the extra cargo arguments as given.
pub proof fn law_selection_flags_keep_their_cargo_names(
    workspace: bool,
    package: Option<Seq<char>>,
    lib: bool,
    bins: bool,
    tests: bool,
    extra: Seq<Seq<char>>,
)
    ensures
        ({
            let r = cargo_select_spec(workspace, package, lib, bins, tests, extra);
            let w: int = if workspace { 1 } else { 0 };
            let p: int = if package is Some { 2 } else { 0 };
            let l: int = if lib { 1 } else { 0 };
            let b: int = if bins { 1 } else { 0 };
            let t: int = if tests { 1 } else { 0 };
            &&& r.len() == w + p + l + b + t + extra.len()
            &&& workspace ==> r[0] == seq!['-', '-', 'w', 'o', 'r', 'k', 's', 'p', 'a', 'c', 'e']
            &&& package matches Some(name) ==> r[w] == seq![
                '-',
                '-',
                'p',
                'a',
                'c',
                'k',
                'a',
                'g',
                'e',
            ] && r[w + 1] == name
            &&& lib ==> r[w + p] == seq!['-', '-', 'l', 'i', 'b']
            &&& bins ==> r[w + p + l] == seq!['-', '-', 'b', 'i', 'n', 's']
            &&& tests ==> r[w + p + l + b] == seq!['-', '-', 't', 'e', 's', 't', 's']
            &&& forall|i: int| 0 <= i < extra.len() ==> r[w + p + l + b + t + i] == extra[i]
        }),
{
    reveal_strlit("--workspace");
    reveal_strlit("--package");
    reveal_strlit("--lib");
    reveal_strlit("--bins");
    reveal_strlit("--tests");
    let r = cargo_select_spec(workspace, package, lib, bins, tests, extra);
    let pk: Seq<Seq<char>> = match package {
        Some(p) => seq!["--package"@, p],
        None => Seq::empty(),
    };
    let a = flag_if(workspace, "--workspace"@);
    let bl = flag_if(lib, "--lib"@);
    let bb = flag_if(bins, "--bins"@);
    let bt = flag_if(tests, "--tests"@);
    assert(r == a + pk + bl + bb + bt + extra);
    assert("--workspace"@ =~= seq!['-', '-', 'w', 'o', 'r', 'k', 's', 'p', 'a', 'c', 'e']);
    assert("--package"@ =~= seq!['-', '-', 'p', 'a', 'c', 'k', 'a', 'g', 'e']);
    assert("--lib"@ =~= seq!['-', '-', 'l', 'i', 'b']);
    assert("--bins"@ =~= seq!['-', '-', 'b', 'i', 'n', 's']);
    assert("--tests"@ =~= seq!['-', '-', 't', 'e', 's', 't', 's']);
}

/// Assembles the cargo target-selection arguments forwarded to the build.
pub fn cargo_select(args: &CollectArgs) -> (r: Vec<String>)
    ensures
        str_views(r@) == cargo_select_spec(
            args.workspace,
            opt_str(args.package),
            args.lib,
            args.bins,
            args.tests,
            str_views(args.cargo_args@),
        ),
{
    let mut out: Vec<String> = Vec::new();
    let ghost e: Seq<Seq<char>> = Seq::empty();
    if args.workspace {
        out.push("--workspace".to_owned());
    }
    assert(str_views(out@) =~= flag_if(args.workspace, "--workspace"@));
    let ghost s1 = str_views(out@);
    match &args.package {
        Some(p) => {
            out.push("--package".to_owned());
            out.push(p.as_str().to_owned());
            assert(str_views(out@) =~= s1 + seq!["--package"@, p@]);
        },
        None => {
            assert(str_views(out@) =~= s1 + e);
        },
    }
    let ghost s2 = str_views(out@);
    if args.lib {
        out.push("--lib".to_owned());
    }
    assert(str_views(out@) =~= s2 + flag_if(args.lib, "--lib"@));
    let ghost s3 = str_views(out@);
    if args.bins {
        out.push("--bins".to_owned());
    }
    assert(str_views(out@) =~= s3 + flag_if(args.bins, "--bins"@));
    let ghost s4 = str_views(out@);
    if args.tests {
        out.push("--tests".to_owned());
    }
    assert(str_views(out@) =~= s4 + flag_if(args.tests, "--tests"@));
    let ghost s5 = str_views(out@);
    let ghost xv = str_views(args.cargo_args@);
    let mut i: usize = 0;
    while i < args.cargo_args.len()
        invariant
            i <= args.cargo_args@.len(),
            xv == str_views(args.cargo_args@),
            str_views(out@) == s5 + xv.take(i as int),
        decreases args.cargo_args@.len() - i,
    {
        let ghost before = out@;
        out.push(args.cargo_args[i].as_str().to_owned());
        assert(str_views(out@) =~= str_views(before).push(xv[i as int]));
        assert(xv.take(i + 1) =~= xv.take(i as int).push(xv[i as int]));
        i += 1;
    }
    assert(xv.take(args.cargo_args@.len() as int) =~= xv);
    out
}

// ---------------------------------------------------------------------------
// Selecting tests
// ---------------------------------------------------------------------------

/// A case and its target as plain values.
pub open spec fn pair_view(p: (TestCase, TestTarget)) -> (
    (int, Seq<char>, Seq<char>, Seq<char>),
    (Seq<char>, Seq<char>, Seq<char>, Seq<char>),
) {
    (case_view(p.0), target_view(p.1))
}

/// The cases and targets of `v` as plain values.
pub open spec fn pair_views(v: Seq<(TestCase, TestTarget)>) -> Seq<
    ((int, Seq<char>, Seq<char>, Seq<char>), (Seq<char>, Seq<char>, Seq<char>, Seq<char>)),
> {
    v.map_values(|p: (TestCase, TestTarget)| pair_view(p))
}

/// Whether a test with full path `full` is collected: it matches the
/// filter, if any, and does not match the skip pattern, if any.
pub open spec fn keep_case(full: Seq<char>, filter: Option<Seq<char>>, skip: Option<Seq<char>>) -> bool {
    &&& match filter {
        Some(p) => pattern_matches(p, full),
        None => true,
    }
    &&& match skip {
        Some(p) => !pattern_matches(p, full),
        None => true,
    }
}

/// The cases of `v` that are collected, in order.
pub open spec fn kept_cases(
    v: Seq<((int, Seq<char>, Seq<char>, Seq<char>), (Seq<char>, Seq<char>, Seq<char>, Seq<char>))>,
    filter: Option<Seq<char>>,
    skip: Option<Seq<char>>,
) -> Seq<((int, Seq<char>, Seq<char>, Seq<char>), (Seq<char>, Seq<char>, Seq<char>, Seq<char>))>
    decreases v.len(),
{
    if v.len() == 0 {
        Seq::empty()
    } else {
        let prev = kept_cases(v.drop_last(), filter, skip);
        if keep_case(v.last().0.1, filter, skip) {
            prev.push(v.last())
        } else {
            prev
        }
    }
}

/// Why no tests were selected.
#[derive(PartialEq, Eq, Structural)]
pub enum SelectError {
    /// The `--filter` pattern does not compile.
    InvalidFilter,
    /// The `--skip` pattern does not compile.
    InvalidSkip,
    /// No test passed the filters.
    NoTestsMatched,
}

/// Whether an optional pattern is absent or compiles.
pub open spec fn compiles_opt(p: Option<Seq<char>>) -> bool {
    match p {
        Some(p) => regex_compiles(p),
        None => true,
    }
}

/// Whether `text` matches the optional pattern; `absent` when there is
/// none. The pattern is known to compile.
fn matches_opt(p: Option<&str>, text: &str, absent: bool) -> (r: bool)
    requires
        p matches Some(q) ==> regex_compiles(q@),
    ensures
        r == match p {
            Some(q) => pattern_matches(q@, text@),
            None => absent,
        },
{
    match p {
        Some(q) => match is_match(q, text) {
            Some(b) => b,
            None => false,
        },
        None => absent,
    }
}

/// An optional borrowed string as an optional character sequence.
pub open spec fn opt_ref(o: Option<&str>) -> Option<Seq<char>> {
    match o {
        Some(s) => Some(s@),
        None => None,
    }
}

/// Checks the `--filter` and `--skip` patterns, the filter first.
pub fn check_patterns(filter: Option<&str>, skip: Option<&str>) -> (r: Result<(), SelectError>)
    ensures
        r == (if !compiles_opt(opt_ref(filter)) {
            Err(SelectError::InvalidFilter)
        } else if !compiles_opt(opt_ref(skip)) {
            Err(SelectError::InvalidSkip)
        } else {
            Ok::<(), SelectError>(())
        }),
{
    match filter {
        Some(p) => if !compiles(p) {
            return Err(SelectError::InvalidFilter);
        },
        None => {},
    }
    match skip {
        Some(p) => if !compiles(p) {
            return Err(SelectError::InvalidSkip);
        },
        None => {},
    }
    Ok(())
}

/// Applies `--filter` and `--skip` to the discovered cases. An invalid
/// pattern is an error (the filter is checked first), and so is a
/// selection that keeps no test.
#[verifier::spinoff_prover]
pub fn select_cases(cases: Vec<(TestCase, TestTarget)>, filter: Option<&str>, skip: Option<&str>) -> (r:
    Result<Vec<(TestCase, TestTarget)>, SelectError>)
    ensures
        !compiles_opt(opt_ref(filter)) ==> r == Err::<Vec<(TestCase, TestTarget)>, SelectError>(
            SelectError::InvalidFilter,
        ),
        compiles_opt(opt_ref(filter)) && !compiles_opt(opt_ref(skip)) ==> r == Err::<
            Vec<(TestCase, TestTarget)>,
            SelectError,
        >(SelectError::InvalidSkip),
        compiles_opt(opt_ref(filter)) && compiles_opt(opt_ref(skip)) ==> {
            let kept = kept_cases(pair_views(cases@), opt_ref(filter), opt_ref(skip));
            match r {
                Ok(v) => kept.len() > 0 && pair_views(v@) == kept,
                Err(e) => kept.len() == 0 && e == SelectError::NoTestsMatched,
            }
        },
{
    match check_patterns(filter, skip) {
        Err(e) => return Err(e),
        Ok(()) => {},
    }
    let ghost pv = pair_views(cases@);
    let mut out: Vec<(TestCase, TestTarget)> = Vec::new();
    let ghost mut n: int = 0;
    for item in it: cases
        invariant
            n == it.index(),
            pv == pair_views(it.seq()),
            filter matches Some(q) ==> regex_compiles(q@),
            skip matches Some(q) ==> regex_compiles(q@),
            pair_views(out@) == kept_cases(pv.take(n), opt_ref(filter), opt_ref(skip)),
    {
        proof {
            assert(pv.take(n + 1).drop_last() =~= pv.take(n));
            assert(pv.take(n + 1).last() == pair_view(item));
        }
        let keep = matches_opt(filter, item.0.full.as_str(), true) && !matches_opt(
            skip,
            item.0.full.as_str(),
            false,
        );
        if keep {
            let ghost before = out@;
            out.push(item);
            proof {
                assert(pair_views(out@) =~= pair_views(before).push(pv[n]));
            }
        }
        proof {
            n = n + 1;
        }
    }
    proof {
        assert(pv.take(n) =~= pv);
    }
    if out.len() == 0 {
        Err(SelectError::NoTestsMatched)
    } else {
        Ok(out)
    }
}

// ---------------------------------------------------------------------------
// Run order
// ---------------------------------------------------------------------------

/// The order of runs: by full test path, then by target.
pub open spec fn key_lt(a: (Seq<char>, int), b: (Seq<char>, int)) -> bool {
    lex_lt(a.0, b.0) || (a.0 == b.0 && a.1 < b.1)
}

/// The sort key of a case.
pub open spec fn case_key(p: (TestCase, TestTarget)) -> (Seq<char>, int) {
    (p.0.full@, p.0.target_index as int)
}

/// `s` is in run order.
pub open spec fn in_run_order(s: Seq<(TestCase, TestTarget)>) -> bool {
    forall|a: int, b: int| 0 <= a <= b < s.len() ==> !key_lt(case_key(s[b]), case_key(s[a]))
}

/// `key_lt` is a strict total order.
proof fn lemma_key_order(a: (Seq<char>, int), b: (Seq<char>, int), c: (Seq<char>, int))
    ensures
        !key_lt(a, a),
        key_lt(a, b) ==> !key_lt(b, a),
        key_lt(a, b) && key_lt(b, c) ==> key_lt(a, c),
        a != b ==> key_lt(a, b) || key_lt(b, a),
        !key_lt(b, a) && !key_lt(c, b) ==> !key_lt(c, a),
{
    lemma_lex_irrefl(a.0);
    lemma_lex_total(a.0, b.0);
    lemma_lex_total(b.0, c.0);
    lemma_lex_total(a.0, c.0);
    if lex_lt(a.0, b.0) && lex_lt(b.0, c.0) {
        lemma_lex_trans(a.0, b.0, c.0);
    }
    if lex_lt(c.0, a.0) && lex_lt(a.0, b.0) {
        lemma_lex_trans(c.0, a.0, b.0);
    }
    if lex_lt(b.0, c.0) && lex_lt(c.0, a.0) {
        lemma_lex_trans(b.0, c.0, a.0);
    }
}

/// Whether `a` runs before `b`.
fn case_before(a: &TestCase, b: &TestCase) -> (r: bool)
    ensures
        r == key_lt((a.full@, a.target_index as int), (b.full@, b.target_index as int)),
{
    if str_lt(a.full.as_str(), b.full.as_str()) {
        true
    } else if str_lt(b.full.as_str(), a.full.as_str()) {
        false
    } else {
        proof {
            lemma_lex_total(a.full@, b.full@);
        }
        a.target_index < b.target_index
    }
}

/// Sorts the selected cases into run order: by full test path, then by
/// target. The position in the result is the test's index in the
/// database.
#[verifier::spinoff_prover]
pub fn order_cases(selected: Vec<(TestCase, TestTarget)>) -> (r: Vec<(TestCase, TestTarget)>)
    ensures
        in_run_order(r@),
        r@.to_multiset() == selected@.to_multiset(),
{
    let ghost sv = selected@;
    let mut r: Vec<(TestCase, TestTarget)> = Vec::new();
    let ghost mut n: int = 0;
    for x in it: selected
        invariant
            n == it.index(),
            sv == it.seq(),
            in_run_order(r@),
            r@.to_multiset() == sv.take(n).to_multiset(),
    {
        let mut p = r.len();
        while p > 0 && case_before(&x.0, &r[p - 1].0)
            invariant
                p <= r@.len(),
                forall|k: int| p <= k < r@.len() ==> key_lt(case_key(x), case_key(#[trigger] r@[k])),
            decreases p,
        {
            p -= 1;
        }
        let ghost before = r@;
        let ghost xv = x;
        r.insert(p, x);
        proof {
            vstd::seq_lib::to_multiset_insert(before, p as int, xv);
            assert(sv.take(n + 1) =~= sv.take(n).push(xv));
            assert forall|a: int, b: int| 0 <= a <= b < r@.len() implies !key_lt(
                case_key(r@[b]),
                case_key(r@[a]),
            ) by {
                if a < p && b > p {
                    lemma_key_order(case_key(before[a]), case_key(before[b - 1]), case_key(before[b - 1]));
                    assert(!key_lt(case_key(before[b - 1]), case_key(before[a])));
                }
                if a < p && b == p {
                    assert(!key_lt(case_key(before[p - 1]), case_key(before[a])));
                    assert(!key_lt(case_key(xv), case_key(before[p - 1])));
                    lemma_key_order(case_key(before[a]), case_key(before[p - 1]), case_key(xv));
                }
                if a == p && b > p {
                    assert(key_lt(case_key(xv), case_key(before[b - 1])));
                    lemma_key_order(case_key(xv), case_key(before[b - 1]), case_key(xv));
                }
                if a == p && b == p {
                    lemma_key_order(case_key(xv), case_key(xv), case_key(xv));
                }
                if a > p {
                    assert(!key_lt(case_key(before[b - 1]), case_key(before[a - 1])));
                }
            }
            n = n + 1;
        }
    }
    proof {
        assert(sv.take(n) =~= sv);
    }
    r
}

// ---------------------------------------------------------------------------
// What the runs add up to
// ---------------------------------------------------------------------------

/// Whether a record of `recs` for file `f` lists line `l`.
pub open spec fn hits(recs: Seq<(Seq<char>, Seq<u32>)>, f: Seq<char>, l: u32) -> bool {
    exists|j: int| 0 <= j < recs.len() && (#[trigger] recs[j]).0 == f && recs[j].1.contains(l)
}

/// The lines that the records of `recs` for file `f` list.
pub open spec fn lines_in(recs: Seq<(Seq<char>, Seq<u32>)>, f: Seq<char>) -> Set<u32> {
    Set::new(|l: u32| hits(recs, f, l))
}

/// The tests that the runs `results` record for line `l` of file `f`.
pub open spec fn recorded(results: Seq<Option<(usize, TestCoverage)>>, f: Seq<char>, l: u32) -> Set<
    u32,
>
    decreases results.len(),
{
    if results.len() == 0 {
        Set::empty()
    } else {
        let prev = recorded(results.drop_last(), f, l);
        match results.last() {
            Some(p) => if hits(rec_views(p.1.records@), f, l) {
                prev.insert(p.0 as u32)
            } else {
                prev
            },
            None => prev,
        }
    }
}

/// The executable lines that the runs `results` record for file `f`.
pub open spec fn recorded_executable(results: Seq<Option<(usize, TestCoverage)>>, f: Seq<char>) -> Set<
    u32,
>
    decreases results.len(),
{
    if results.len() == 0 {
        Set::empty()
    } else {
        let prev = recorded_executable(results.drop_last(), f);
        match results.last() {
            Some(p) => prev.union(lines_in(rec_views(p.1.executable@), f)),
            None => prev,
        }
    }
}

/// Adds one run's coverage to the reverse map and the executable map.
#[verifier::spinoff_prover]
fn record_cov(map: &mut ReverseMap, exec: &mut ExecutableMap, idx: u32, cov: &TestCoverage)
    ensures
        forall|f: Seq<char>, l: u32|
            #[trigger] tests_of(final(map).seq(), f, l) == if hits(rec_views(cov.records@), f, l) {
                tests_of(old(map).seq(), f, l).insert(idx)
            } else {
                tests_of(old(map).seq(), f, l)
            },
        forall|f: Seq<char>|
            #[trigger] exec_lines_of(final(exec).seq(), f) == exec_lines_of(old(exec).seq(), f).union(
                lines_in(rec_views(cov.executable@), f),
            ),
{
    let ghost m0 = map.seq();
    let ghost rv = rec_views(cov.records@);
    let mut j: usize = 0;
    while j < cov.records.len()
        invariant
            j <= cov.records@.len(),
            rv == rec_views(cov.records@),
            forall|f: Seq<char>, l: u32|
                #[trigger] tests_of(map.seq(), f, l) == if hits(rv.take(j as int), f, l) {
                    tests_of(m0, f, l).insert(idx)
                } else {
                    tests_of(m0, f, l)
                },
        decreases cov.records@.len() - j,
    {
        let path = &cov.records[j].0;
        let lines = &cov.records[j].1;
        let ghost m1 = map.seq();
        let mut k: usize = 0;
        while k < lines.len()
            invariant
                j < cov.records@.len(),
                k <= lines@.len(),
                rv == rec_views(cov.records@),
                rv[j as int] == (path@, lines@),
                forall|f: Seq<char>, l: u32|
                    #[trigger] tests_of(map.seq(), f, l) == if f == path@ && lines@.take(
                        k as int,
                    ).contains(l) {
                        tests_of(m1, f, l).insert(idx)
                    } else {
                        tests_of(m1, f, l)
                    },
            decreases lines@.len() - k,
        {
            let ghost m2 = map.seq();
            map.record(path.as_str(), lines[k], idx);
            proof {
                assert forall|f: Seq<char>, l: u32| #[trigger] tests_of(map.seq(), f, l) == if f
                    == path@ && lines@.take(k + 1).contains(l) {
                    tests_of(m1, f, l).insert(idx)
                } else {
                    tests_of(m1, f, l)
                } by {
                    if f == path@ && lines@.take(k + 1).contains(l) {
                        if l == lines@[k as int] {
                            assert(tests_of(m1, f, l).insert(idx).insert(idx) =~= tests_of(
                                m1,
                                f,
                                l,
                            ).insert(idx));
                            if lines@.take(k as int).contains(l) {
                            } else {
                            }
                        } else {
                            let w = choose|w: int| 0 <= w < k + 1 && #[trigger] lines@.take(k + 1)[w] == l;
                            assert(lines@.take(k as int)[w] == l);
                        }
                    } else {
                        if f == path@ && l == lines@[k as int] {
                            assert(lines@.take(k + 1)[k as int] == l);
                        }
                        if f == path@ && lines@.take(k as int).contains(l) {
                            let w = choose|w: int| 0 <= w < k && #[trigger] lines@.take(k as int)[w] == l;
                            assert(lines@.take(k + 1)[w] == l);
                        }
                    }
                }
            }
            k += 1;
        }
        proof {
            assert(lines@.take(lines@.len() as int) =~= lines@);
            assert forall|f: Seq<char>, l: u32| #[trigger] tests_of(map.seq(), f, l) == if hits(
                rv.take(j + 1),
                f,
                l,
            ) {
                tests_of(m0, f, l).insert(idx)
            } else {
                tests_of(m0, f, l)
            } by {
                let here = f == path@ && lines@.contains(l);
                if hits(rv.take(j as int), f, l) {
                    let w = choose|w: int|
                        0 <= w < rv.take(j as int).len() && (#[trigger] rv.take(j as int)[w]).0
                            == f && rv.take(j as int)[w].1.contains(l);
                    assert(rv.take(j + 1)[w] == rv.take(j as int)[w]);
                    assert(hits(rv.take(j + 1), f, l));
                }
                if here {
                    assert(rv.take(j + 1)[j as int] == rv[j as int]);
                    assert(hits(rv.take(j + 1), f, l));
                }
                if hits(rv.take(j + 1), f, l) && !here {
                    let w = choose|w: int|
                        0 <= w < rv.take(j + 1).len() && (#[trigger] rv.take(j + 1)[w]).0 == f
                            && rv.take(j + 1)[w].1.contains(l);
                    assert(w != j);
                    assert(rv.take(j as int)[w] == rv.take(j + 1)[w]);
                    assert(hits(rv.take(j as int), f, l));
                }
                if here && hits(rv.take(j as int), f, l) {
                    assert(tests_of(m0, f, l).insert(idx).insert(idx) =~= tests_of(m0, f, l).insert(
                        idx,
                    ));
                }
            }
        }
        j += 1;
    }
    proof {
        assert(rv.take(cov.records@.len() as int) =~= rv);
    }
    let ghost e0 = exec.seq();
    let ghost ev = rec_views(cov.executable@);
    let mut j: usize = 0;
    while j < cov.executable.len()
        invariant
            j <= cov.executable@.len(),
            ev == rec_views(cov.executable@),
            forall|f: Seq<char>|
                #[trigger] exec_lines_of(exec.seq(), f) == exec_lines_of(e0, f).union(
                    lines_in(ev.take(j as int), f),
                ),
        decreases cov.executable@.len() - j,
    {
        let ghost e1 = exec.seq();
        exec.record(cov.executable[j].0.as_str(), cov.executable[j].1.as_slice());
        proof {
            assert forall|f: Seq<char>| #[trigger] exec_lines_of(exec.seq(), f) == exec_lines_of(
                e0,
                f,
            ).union(lines_in(ev.take(j + 1), f)) by {
                assert(ev[j as int] == (cov.executable@[j as int].0@, cov.executable@[j as int].1@));
                assert forall|l: u32| lines_in(ev.take(j + 1), f).contains(l) == (lines_in(
                    ev.take(j as int),
                    f,
                ).contains(l) || (f == ev[j as int].0 && ev[j as int].1.contains(l))) by {
                    if hits(ev.take(j as int), f, l) {
                        let w = choose|w: int|
                            0 <= w < ev.take(j as int).len() && (#[trigger] ev.take(j as int)[w]).0
                                == f && ev.take(j as int)[w].1.contains(l);
                        assert(ev.take(j + 1)[w] == ev.take(j as int)[w]);
                    }
                    if f == ev[j as int].0 && ev[j as int].1.contains(l) {
                        assert(ev.take(j + 1)[j as int] == ev[j as int]);
                    }
                    if hits(ev.take(j + 1), f, l) {
                        let w = choose|w: int|
                            0 <= w < ev.take(j + 1).len() && (#[trigger] ev.take(j + 1)[w]).0 == f
                                && ev.take(j + 1)[w].1.contains(l);
                        if w < j {
                            assert(ev.take(j as int)[w] == ev.take(j + 1)[w]);
                        }
                    }
                }
                if f == ev[j as int].0 {
                    assert(exec_lines_of(exec.seq(), f) == exec_lines_of(e1, f).union(
                        elems(ev[j as int].1),
                    ));
                    assert(exec_lines_of(e1, f) == exec_lines_of(e0, f).union(
                        lines_in(ev.take(j as int), f),
                    ));
                    assert(exec_lines_of(exec.seq(), f) =~= exec_lines_of(e0, f).union(
                        lines_in(ev.take(j + 1), f),
                    ));
                } else {
                    assert(exec_lines_of(exec.seq(), f) =~= exec_lines_of(e0, f).union(
                        lines_in(ev.take(j + 1), f),
                    ));
                }
            }
        }
        j += 1;
    }
    proof {
        assert(ev.take(cov.executable@.len() as int) =~= ev);
    }
}

/// The run of test `i` among `results`: the last one that names it.
pub open spec fn result_for(results: Seq<Option<(usize, TestCoverage)>>, i: int) -> Option<TestCoverage>
    decreases results.len(),
{
    if results.len() == 0 {
        None
    } else {
        match results.last() {
            Some(p) => if p.0 == i {
                Some(p.1)
            } else {
                result_for(results.drop_last(), i)
            },
            None => result_for(results.drop_last(), i),
        }
    }
}

/// What a run leaves in the test table: status, duration, failure output.
pub open spec fn outcome_of(res: Option<TestCoverage>) -> (Seq<char>, u64, Option<Seq<char>>) {
    match res {
        Some(c) => (status_name(c.status), c.duration_ms, opt_str(c.failure_output)),
        None => ("collected"@, 0u64, None),
    }
}

/// The table entry `e` describes the case `p` with the run `res`.
pub open spec fn entry_matches(e: TestEntry, p: (TestCase, TestTarget), res: Option<TestCoverage>) -> bool {
    &&& e.name@ == p.0.name@
    &&& e.module@ == p.0.module@
    &&& e.binary@ == p.1.name@
    &&& e.kind@ == p.1.kind@
    &&& (e.status@, e.duration_ms, opt_str(e.failure_output)) == outcome_of(res)
}

/// A slot of the outcome table holds the outcome of `res`.
spec fn slot_matches(s: Option<(TestStatus, u64, Option<String>)>, res: Option<TestCoverage>) -> bool {
    match res {
        Some(c) => s matches Some(t) && t.0 == c.status && t.1 == c.duration_ms && opt_str(t.2)
            == opt_str(c.failure_output),
        None => s is None,
    }
}

/// The test table, the reverse map and the executable map of a
/// collection: `indexed` lists the cases in run order, `results` holds the
/// run of each test that produced coverage, with its index (recorded in the
/// reverse map as a `u32`).
#[verifier::spinoff_prover]
pub fn build_tests(indexed: &Vec<(TestCase, TestTarget)>, results: Vec<Option<(usize, TestCoverage)>>) -> (r: (
    Vec<TestEntry>,
    ReverseMap,
    ExecutableMap,
))
    requires
        forall|k: int|
            0 <= k < results@.len() ==> (#[trigger] results@[k] matches Some(p) ==> p.0
                < indexed@.len()),
    ensures
        r.0@.len() == indexed@.len(),
        forall|i: int|
            0 <= i < indexed@.len() ==> entry_matches(
                #[trigger] r.0@[i],
                indexed@[i],
                result_for(results@, i),
            ),
        forall|f: Seq<char>, l: u32| #[trigger] tests_of(r.1.seq(), f, l) == recorded(results@, f, l),
        forall|f: Seq<char>|
            #[trigger] exec_lines_of(r.2.seq(), f) == recorded_executable(results@, f),
{
    let n = indexed.len();
    let mut slots: Vec<Option<(TestStatus, u64, Option<String>)>> = Vec::new();
    let mut i: usize = 0;
    while i < n
        invariant
            i <= n,
            n == indexed@.len(),
            slots@.len() == i,
            forall|k: int| 0 <= k < i ==> #[trigger] slots@[k] is None,
        decreases n - i,
    {
        slots.push(None);
        i += 1;
    }
    let mut map = ReverseMap::new();
    let mut exec = ExecutableMap::new();
    let ghost rs = results@;
    let ghost mut m: int = 0;
    for r in it: results
        invariant
            m == it.index(),
            rs == it.seq(),
            n == indexed@.len(),
            slots@.len() == n,
            forall|k: int| 0 <= k < rs.len() ==> (#[trigger] rs[k] matches Some(p) ==> p.0 < n),
            forall|k: int| 0 <= k < n ==> slot_matches(#[trigger] slots@[k], result_for(rs.take(m), k)),
            forall|f: Seq<char>, l: u32| #[trigger] tests_of(map.seq(), f, l) == recorded(rs.take(m), f, l),
            forall|f: Seq<char>|
                #[trigger] exec_lines_of(exec.seq(), f) == recorded_executable(rs.take(m), f),
    {
        proof {
            assert(rs.take(m + 1).drop_last() =~= rs.take(m));
            assert(rs.take(m + 1).last() == r);
            assert(rs[m] == r);
        }
        match r {
            Some((idx, cov)) => {
                record_cov(&mut map, &mut exec, idx as u32, &cov);
                let TestCoverage { status, duration_ms, records: _, executable: _, failure_output } =
                    cov;
                slots.set(idx, Some((status, duration_ms, failure_output)));
            },
            None => {},
        }
        proof {
            m = m + 1;
        }
    }
    proof {
        assert(rs.take(m) =~= rs);
    }
    let mut tests: Vec<TestEntry> = Vec::new();
    let ghost sv = slots@;
    let ghost mut j: int = 0;
    for s in it: slots
        invariant
            j == it.index(),
            sv == it.seq(),
            sv.len() == n,
            n == indexed@.len(),
            tests@.len() == j,
            forall|k: int| 0 <= k < n ==> slot_matches(#[trigger] sv[k], result_for(rs, k)),
            forall|k: int|
                0 <= k < j ==> entry_matches(#[trigger] tests@[k], indexed@[k], result_for(rs, k)),
    {
        let ji: usize = tests.len();
        let (c, t) = (&indexed[ji].0, &indexed[ji].1);
        let (status, duration_ms, failure_output) = match s {
            Some((st, d, f)) => (st.as_str().to_owned(), d, f),
            None => ("collected".to_owned(), 0u64, None),
        };
        proof {
            assert(sv[j] == s);
        }
        tests.push(
            TestEntry {
                name: c.name.as_str().to_owned(),
                module: c.module.as_str().to_owned(),
                binary: t.name.as_str().to_owned(),
                kind: t.kind.as_str().to_owned(),
                status,
                duration_ms,
                failure_output,
            },
        );
        proof {
            j = j + 1;
        }
    }
    (tests, map, exec)
}

/// The names and captured output of the tests that failed, in run order
/// (`""` where nothing was captured).
pub open spec fn failed_runs(
    names: Seq<Seq<char>>,
    results: Seq<Option<(usize, TestCoverage)>>,
) -> Seq<(Seq<char>, Seq<char>)>
    decreases results.len(),
{
    if results.len() == 0 {
        Seq::empty()
    } else {
        let prev = failed_runs(names, results.drop_last());
        match results.last() {
            Some(p) => if p.1.status == TestStatus::Failed {
                prev.push(
                    (
                        names[p.0 as int],
                        match p.1.failure_output {
                            Some(o) => o@,
                            None => Seq::empty(),
                        },
                    ),
                )
            } else {
                prev
            },
            None => prev,
        }
    }
}

/// The full paths of the cases of `v`.
pub open spec fn full_names(v: Seq<(TestCase, TestTarget)>) -> Seq<Seq<char>> {
    v.map_values(|p: (TestCase, TestTarget)| p.0.full@)
}

/// The tests that failed during collection, with their captured output, so
/// they can be reported.
pub fn failed_tests(indexed: &Vec<(TestCase, TestTarget)>, results: &Vec<Option<(usize, TestCoverage)>>) -> (r:
    Vec<(String, String)>)
    requires
        forall|k: int|
            0 <= k < results@.len() ==> (#[trigger] results@[k] matches Some(p) ==> p.0
                < indexed@.len()),
    ensures
        r@.map_values(|p: (String, String)| (p.0@, p.1@)) == failed_runs(
            full_names(indexed@),
            results@,
        ),
{
    let ghost names = full_names(indexed@);
    let mut out: Vec<(String, String)> = Vec::new();
    let mut i: usize = 0;
    while i < results.len()
        invariant
            i <= results@.len(),
            names == full_names(indexed@),
            forall|k: int|
                0 <= k < results@.len() ==> (#[trigger] results@[k] matches Some(p) ==> p.0
                    < indexed@.len()),
            out@.map_values(|p: (String, String)| (p.0@, p.1@)) == failed_runs(
                names,
                results@.take(i as int),
            ),
        decreases results@.len() - i,
    {
        proof {
            assert(results@.take(i + 1).drop_last() =~= results@.take(i as int));
            assert(results@.take(i + 1).last() == results@[i as int]);
        }
        match &results[i] {
            Some((idx, cov)) => {
                if cov.status == TestStatus::Failed {
                    let output = match &cov.failure_output {
                        Some(o) => o.as_str().to_owned(),
                        None => String::new(),
                    };
                    let ghost before = out@;
                    out.push((indexed[*idx].0.full.as_str().to_owned(), output));
                    proof {
                        assert(out@.map_values(|p: (String, String)| (p.0@, p.1@)) =~= before.map_values(
                            |p: (String, String)| (p.0@, p.1@),
                        ).push(
                            (
                                names[*idx as int],
                                match cov.failure_output {
                                    Some(o) => o@,
                                    None => Seq::empty(),
                                },
                            ),
                        ));
                    }
                }
            },
            None => {},
        }
        i += 1;
    }
    proof {
        assert(results@.take(results@.len() as int) =~= results@);
    }
    out
}

/// The database of a collection, stamped with the current time.
pub fn assemble_database(
    workspace_root: String,
    tool_version: String,
    collection_args: Vec<String>,
    tests: Vec<TestEntry>,
    sources: StrMap<SourceFile>,
) -> (r: Database)
    ensures
        r.version == DATABASE_VERSION,
        exists|secs: u64| r.metadata.generated_at@ == rfc3339_spec(secs as nat),
        r.metadata.workspace_root@ == workspace_root@,
        r.metadata.cargo_testmap_version@ == tool_version@,
        r.metadata.collection_args@ == collection_args@,
        r.tests@ == tests@,
        r.sources == sources,
{
    let generated_at = now_rfc3339();
    Database {
        version: DATABASE_VERSION,
        metadata: Metadata {
            generated_at,
            workspace_root,
            cargo_testmap_version: tool_version,
            collection_args,
        },
        tests,
        sources,
    }
}

/// The collected database answers what the runs covered: a line below the
/// threshold lists exactly the tests whose runs covered it, and every line
/// that some run covered is listed or, at or above the threshold,
/// summarized by its count.
pub proof fn law_database_lists_covering_runs(
    results: Seq<Option<(usize, TestCoverage)>>,
    s: Seq<(Seq<char>, Vec<(u32, Vec<u32>)>)>,
    sf: SourceFile,
    f: Seq<char>,
    content: Seq<char>,
    exec: Set<u32>,
    threshold: u32,
    l: u32,
)
    requires
        rm_wf(s),
        forall|g: Seq<char>, m: u32| #[trigger] tests_of(s, g, m) == recorded(results, g, m),
        snapshot_matches(sf, f, content, exec, entries_of(s, f), threshold),
    ensures
        sf.lines.get_spec(dec(l as nat)) matches Some(v) ==> elems(v@) == recorded(results, f, l),
        0 < recorded(results, f, l).len() < threshold ==> sf.lines.get_spec(dec(l as nat)) is Some,
        sf.above_threshold.get_spec(dec(l as nat)) matches Some(a) ==> a.total == recorded(
            results,
            f,
            l,
        ).len() % 0x1_0000_0000,
{
    assert(tests_of(s, f, l) == recorded(results, f, l));
    law_snapshot_lists_covering_tests(s, sf, f, content, exec, threshold, l);
}

/// Lines reference tests by their index in the test table: every test that
/// the runs record for a line is an index of the table (an index is stored
/// as a `u32`, so it wraps past 2^32 tests).
pub proof fn law_recorded_tests_are_table_indices(
    results: Seq<Option<(usize, TestCoverage)>>,
    n: nat,
    f: Seq<char>,
    l: u32,
)
    requires
        forall|k: int| 0 <= k < results.len() ==> (#[trigger] results[k] matches Some(p) ==> p.0 < n),
    ensures
        forall|t: u32| #[trigger] recorded(results, f, l).contains(t) ==> t < n,
    decreases results.len(),
{
    if results.len() > 0 {
        let prev = results.drop_last();
        assert forall|k: int| 0 <= k < prev.len() implies (#[trigger] prev[k] matches Some(p) ==> p.0
            < n) by {
            assert(prev[k] == results[k]);
        }
        law_recorded_tests_are_table_indices(prev, n, f, l);
        assert(results.last() == results[results.len() - 1]);
        assert forall|t: u32| #[trigger] recorded(results, f, l).contains(t) implies t < n by {
            match results.last() {
                Some(p) => {
                    assert(p.0 < n);
                    if p.0 < 0x1_0000_0000 {
                        assert((p.0 as u32) == p.0);
                    }
                    assert((p.0 as u32) < n);
                    if t != p.0 as u32 {
                        assert(recorded(prev, f, l).contains(t));
                    }
                },
                None => {
                    assert(recorded(prev, f, l).contains(t));
                },
            }
        }
    }
}

} // verus!
