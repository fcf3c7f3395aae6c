//! Running one test and turning what it left behind into coverage.
//!
//! The caller starts the processes and lists the staging directory; this
//! module decides which files belong to a run, which arguments the llvm
//! tools get, and what a run's coverage is.

use vstd::prelude::*;
use crate::lcov::{parse, records, FileCoverage};
use crate::llvm::LlvmTools;
use crate::reverse::copy_u32s;
use crate::sorted::{elems, strictly_sorted};
use crate::text::{
    chars_of, ends_with, ends_with_in, starts_with, starts_with_in, trim, trim_string,
};
use crate::util::{join_path, join_path_spec, relativize, relativize_spec};

verus! {

/// How a test run ended.
#[derive(Clone, Copy, PartialEq, Eq, Structural)]
pub enum TestStatus {
    Collected,
    Failed,
}

/// The name of a status, as stored in the database.
pub open spec fn status_name(s: TestStatus) -> Seq<char> {
    match s {
        TestStatus::Collected => "collected"@,
        TestStatus::Failed => "failed"@,
    }
}

impl TestStatus {
    /// The name of the status, as stored in the database.
    pub fn as_str(self) -> (r: &'static str)
        ensures
            r@ == status_name(self),
    {
        match self {
            TestStatus::Collected => "collected",
            TestStatus::Failed => "failed",
        }
    }
}

/// Result of running a single test and exporting its coverage.
pub struct TestCoverage {
    pub status: TestStatus,
    pub duration_ms: u64,
    /// (relative_path, covered_lines) per LCOV record.
    pub records: Vec<(String, Vec<u32>)>,
    /// (relative_path, executable_lines) per LCOV record.
    pub executable: Vec<(String, Vec<u32>)>,
    /// Captured output (stderr + stdout) of a failing test. `None` for
    /// passing tests.
    pub failure_output: Option<String>,
}

/// Per-collect-run constants shared by every test invocation.
pub struct RunContext<'a> {
    pub tools: &'a LlvmTools,
    pub staging: &'a str,
    pub workspace_root: &'a str,
    /// Every instrumented binary produced by the build.
    pub objects: &'a [String],
}

// ---------------------------------------------------------------------------
// Captured output
// ---------------------------------------------------------------------------

/// What `combine_test_output` gives: the trimmed stderr, then the trimmed
/// stdout, with a separator line between them when both are non-empty.
pub open spec fn combined_output(stderr: Seq<char>, stdout: Seq<char>) -> Seq<char> {
    let e = trim(stderr);
    let o = trim(stdout);
    if o.len() == 0 {
        e
    } else if e.len() == 0 {
        o
    } else {
        e + "\n--- stdout ---\n"@ + o
    }
}

/// Combine a failing test's stderr and stdout into one string: stderr first
/// (where panics and assertions land), then stdout. Empty halves are
/// dropped.
pub fn combine_test_output(stderr: &str, stdout: &str) -> (r: String)
    ensures
        r@ == combined_output(stderr@, stdout@),
{
    let mut out = trim_string(stderr);
    let o = trim_string(stdout);
    if o.as_str().unicode_len() > 0 {
        if out.as_str().unicode_len() > 0 {
            out.append("\n--- stdout ---\n");
        }
        out.append(o.as_str());
    }
    out
}

/// How a test process ended.
pub enum ProcessOutcome {
    /// It ran to the end; `success` tells whether it exited successfully.
    Exited { success: bool, stderr: String, stdout: String },
    /// It could not be started; `error` is the reason given.
    NotStarted { error: String },
}

/// The note that a failed start of `target_exe` leaves.
pub open spec fn spawn_failure(target_exe: Seq<char>, error: Seq<char>) -> Seq<char> {
    "failed to spawn `"@ + target_exe + "`: "@ + error
}

/// What a run keeps of a test process's end: nothing after a successful
/// exit (the test passed); its combined output (see `combine_test_output`)
/// after any other exit; a note naming `target_exe` when the process could
/// not be started. A run failed exactly when this is given.
pub fn failure_output(outcome: &ProcessOutcome, target_exe: &str) -> (r: Option<String>)
    ensures
        match outcome {
            ProcessOutcome::Exited { success, stderr, stdout } => if *success {
                r is None
            } else {
                r matches Some(s) && s@ == combined_output(stderr@, stdout@)
            },
            ProcessOutcome::NotStarted { error } => r matches Some(s) && s@ == spawn_failure(
                target_exe@,
                error@,
            ),
        },
{
    match outcome {
        ProcessOutcome::Exited { success, stderr, stdout } => {
            if *success {
                None
            } else {
                Some(combine_test_output(stderr.as_str(), stdout.as_str()))
            }
        },
        ProcessOutcome::NotStarted { error } => {
            let mut out = "failed to spawn `".to_owned();
            out.append(target_exe);
            out.append("`: ");
            out.append(error.as_str());
            Some(out)
        },
    }
}

// ---------------------------------------------------------------------------
// Records relative to the workspace
// ---------------------------------------------------------------------------

/// The records whose path lies under `root`, with the path made relative
/// to it; the others (std, dependencies) are dropped.
pub open spec fn rel_records<T>(recs: Seq<(Seq<char>, T)>, root: Seq<char>) -> Seq<(Seq<char>, T)>
    decreases recs.len(),
{
    if recs.len() == 0 {
        Seq::empty()
    } else {
        let prev = rel_records(recs.drop_last(), root);
        match relativize_spec(recs.last().0, root) {
            Some(rel) => prev.push((rel, recs.last().1)),
            None => prev,
        }
    }
}

/// A vector of `(path, lines)` pairs as character and number sequences.
pub open spec fn rec_views(v: Seq<(String, Vec<u32>)>) -> Seq<(Seq<char>, Seq<u32>)> {
    v.map_values(|p: (String, Vec<u32>)| (p.0@, p.1@))
}

/// Keep only records under `workspace_root`, with paths made relative.
pub fn relativize_records(records: Vec<(String, Vec<u32>)>, workspace_root: &str) -> (r: Vec<
    (String, Vec<u32>),
>)
    ensures
        rec_views(r@) == rel_records(rec_views(records@), workspace_root@),
{
    let ghost rv = rec_views(records@);
    let mut out: Vec<(String, Vec<u32>)> = Vec::new();
    let mut i: usize = 0;
    while i < records.len()
        invariant
            i <= records@.len(),
            rv == rec_views(records@),
            rec_views(out@) == rel_records(rv.take(i as int), workspace_root@),
        decreases records@.len() - i,
    {
        assert(rv.take(i + 1).drop_last() =~= rv.take(i as int));
        assert(rv.take(i + 1).last() == (records@[i as int].0@, records@[i as int].1@));
        match relativize(records[i].0.as_str(), workspace_root) {
            Some(rel) => {
                let lines = copy_u32s(&records[i].1);
                out.push((rel, lines));
                assert(rec_views(out@) =~= rel_records(rv.take(i + 1), workspace_root@));
            },
            None => {},
        }
        i += 1;
    }
    assert(rv.take(records@.len() as int) =~= rv);
    out
}

// ---------------------------------------------------------------------------
// Profile files of one run
// ---------------------------------------------------------------------------

/// Whether `name` is one of the profiles that the run `hash` wrote:
/// `<hash>.<pid>.profraw`.
pub open spec fn is_run_profraw(name: Seq<char>, hash: Seq<char>) -> bool {
    starts_with(name, hash + seq!['.']) && ends_with(name, ".profraw"@)
}

/// The paths, under `staging`, of the names in `names` that belong to the
/// run `hash`, in the order given.
pub open spec fn run_profraws(staging: Seq<char>, names: Seq<Seq<char>>, hash: Seq<char>) -> Seq<
    Seq<char>,
>
    decreases names.len(),
{
    if names.len() == 0 {
        Seq::empty()
    } else {
        let prev = run_profraws(staging, names.drop_last(), hash);
        if is_run_profraw(names.last(), hash) {
            prev.push(join_path_spec(staging, names.last()))
        } else {
            prev
        }
    }
}

/// The strings of `v` as character sequences.
pub open spec fn str_views(v: Seq<String>) -> Seq<Seq<char>> {
    v.map_values(|s: String| s@)
}

/// The `<hash>.*.profraw` files among the entry names `names` of the
/// directory `staging`, as paths under it.
pub fn glob_run_profraw(staging: &str, names: &[String], hash: &str) -> (r: Vec<String>)
    ensures
        str_views(r@) == run_profraws(staging@, str_views(names@), hash@),
{
    let ghost nv = str_views(names@);
    let mut prefix = hash.to_owned();
    crate::text::push_char(&mut prefix, '.');
    let pv = chars_of(prefix.as_str());
    let sv = chars_of(".profraw");
    let mut out: Vec<String> = Vec::new();
    let mut i: usize = 0;
    while i < names.len()
        invariant
            i <= names@.len(),
            nv == str_views(names@),
            pv@ == hash@ + seq!['.'],
            sv@ == ".profraw"@,
            str_views(out@) == run_profraws(staging@, nv.take(i as int), hash@),
        decreases names@.len() - i,
    {
        assert(nv.take(i + 1).drop_last() =~= nv.take(i as int));
        assert(nv.take(i + 1).last() == names@[i as int]@);
        let n = chars_of(names[i].as_str());
        if starts_with_in(n.as_slice(), pv.as_slice()) && ends_with_in(n.as_slice(), sv.as_slice()) {
            out.push(join_path(staging, names[i].as_str()));
            assert(str_views(out@) =~= run_profraws(staging@, nv.take(i + 1), hash@));
        } else {
            assert(str_views(out@) =~= run_profraws(staging@, nv.take(i + 1), hash@));
        }
        i += 1;
    }
    assert(nv.take(names@.len() as int) =~= nv);
    out
}

/// Every `<hash>.*.profraw` in `staging` written during this run: the test
/// process itself plus any spawned children.
pub fn collect_run_profraw(staging: &str, names: &[String], hash: &str) -> (r: Vec<String>)
    ensures
        str_views(r@) == run_profraws(staging@, str_views(names@), hash@),
{
    glob_run_profraw(staging, names, hash)
}

// ---------------------------------------------------------------------------
// Arguments of the llvm tools
// ---------------------------------------------------------------------------

/// `llvm-profdata merge -sparse -o <profdata> <profraw>...`.
pub open spec fn merge_args_spec(profdata: Seq<char>, profraws: Seq<Seq<char>>) -> Seq<Seq<char>> {
    seq!["merge"@, "-sparse"@, "-o"@, profdata] + profraws
}

/// `-object <obj>` for each object but the test binary itself.
pub open spec fn object_args(objects: Seq<Seq<char>>, exe: Seq<char>) -> Seq<Seq<char>>
    decreases objects.len(),
{
    if objects.len() == 0 {
        Seq::empty()
    } else {
        let prev = object_args(objects.drop_last(), exe);
        if objects.last() != exe {
            prev + seq!["-object"@, objects.last()]
        } else {
            prev
        }
    }
}

/// `llvm-cov export -format=lcov -instr-profile <profdata> <exe> -object ...`.
pub open spec fn export_args_spec(profdata: Seq<char>, exe: Seq<char>, objects: Seq<Seq<char>>) -> Seq<
    Seq<char>,
> {
    seq!["export"@, "-format=lcov"@, "-instr-profile"@, profdata, exe] + object_args(objects, exe)
}

/// The object arguments are `-object` / object pairs, naming every object
/// but the test binary, and nothing else.
proof fn lemma_object_args(objects: Seq<Seq<char>>, exe: Seq<char>)
    ensures
        ({
            let oa = object_args(objects, exe);
            &&& oa.len() % 2 == 0
            &&& forall|i: int|
                #![trigger oa[2 * i]]
                #![trigger oa[2 * i + 1]]
                0 <= i < oa.len() / 2 ==> oa[2 * i] == "-object"@ && oa[2 * i + 1] != exe
                    && objects.contains(oa[2 * i + 1])
            &&& forall|o: Seq<char>|
                objects.contains(o) && o != exe ==> exists|i: int|
                    0 <= i < oa.len() / 2 && #[trigger] oa[2 * i + 1] == o
        }),
    decreases objects.len(),
{
    if objects.len() > 0 {
        let prev_objs = objects.drop_last();
        lemma_object_args(prev_objs, exe);
        let prev = object_args(prev_objs, exe);
        let oa = object_args(objects, exe);
        let last = objects.last();
        assert forall|i: int| 0 <= i < prev.len() / 2 implies #[trigger] objects.contains(
            prev[2 * i + 1],
        ) by {
            let j = choose|j: int| 0 <= j < prev_objs.len() && prev_objs[j] == prev[2 * i + 1];
            assert(objects[j] == prev_objs[j]);
        }
        if last != exe {
            assert(oa == prev + seq!["-object"@, last]);
            assert forall|i: int|
                #![trigger oa[2 * i]]
                #![trigger oa[2 * i + 1]]
                0 <= i < oa.len() / 2 implies oa[2 * i] == "-object"@ && oa[2 * i + 1] != exe
                && objects.contains(oa[2 * i + 1]) by {
                if i < prev.len() / 2 {
                    assert(oa[2 * i] == prev[2 * i]);
                    assert(oa[2 * i + 1] == prev[2 * i + 1]);
                    assert(objects.contains(prev[2 * i + 1]));
                } else {
                    assert(i == prev.len() / 2);
                    assert(oa[2 * i + 1] == last);
                    assert(objects[objects.len() - 1] == last);
                }
            }
            assert forall|o: Seq<char>| objects.contains(o) && o != exe implies exists|i: int|
                0 <= i < oa.len() / 2 && #[trigger] oa[2 * i + 1] == o by {
                let j = choose|j: int| 0 <= j < objects.len() && objects[j] == o;
                if j < objects.len() - 1 {
                    assert(prev_objs[j] == o);
                    assert(prev_objs.contains(o));
                    let i = choose|i: int| 0 <= i < prev.len() / 2 && #[trigger] prev[2 * i + 1] == o;
                    assert(oa[2 * i + 1] == prev[2 * i + 1]);
                } else {
                    let i: int = (prev.len() / 2) as int;
                    assert(oa[2 * i + 1] == o);
                }
            }
        } else {
            assert(oa == prev);
            assert forall|o: Seq<char>| objects.contains(o) && o != exe implies exists|i: int|
                0 <= i < oa.len() / 2 && #[trigger] oa[2 * i + 1] == o by {
                let j = choose|j: int| 0 <= j < objects.len() && objects[j] == o;
                assert(j < objects.len() - 1);
                assert(prev_objs[j] == o);
                assert(prev_objs.contains(o));
            }
        }
    }
}

/// What the llvm tools are asked: `llvm-profdata merge -sparse -o
/// <profdata>` over exactly the run's profiles, in order; and `llvm-cov
/// export -format=lcov -instr-profile <profdata> <binary>` followed by an
/// `-object` argument for every other instrumented binary, and for nothing
/// else.
pub proof fn law_llvm_tool_arguments(
    profdata: Seq<char>,
    profraws: Seq<Seq<char>>,
    exe: Seq<char>,
    objects: Seq<Seq<char>>,
)
    ensures
        ({
            let m = merge_args_spec(profdata, profraws);
            &&& m.len() == 4 + profraws.len()
            &&& m[0] == seq!['m', 'e', 'r', 'g', 'e']
            &&& m[1] == seq!['-', 's', 'p', 'a', 'r', 's', 'e']
            &&& m[2] == seq!['-', 'o']
            &&& m[3] == profdata
            &&& forall|i: int| 0 <= i < profraws.len() ==> m[4 + i] == profraws[i]
        }),
        ({
            let x = export_args_spec(profdata, exe, objects);
            let oa = x.skip(5);
            &&& x.len() >= 5
            &&& x[0] == seq!['e', 'x', 'p', 'o', 'r', 't']
            &&& x[1] == seq!['-', 'f', 'o', 'r', 'm', 'a', 't', '=', 'l', 'c', 'o', 'v']
            &&& x[2] == seq!['-', 'i', 'n', 's', 't', 'r', '-', 'p', 'r', 'o', 'f', 'i', 'l', 'e']
            &&& x[3] == profdata
            &&& x[4] == exe
            &&& oa.len() % 2 == 0
            &&& forall|i: int|
                #![trigger oa[2 * i]]
                #![trigger oa[2 * i + 1]]
                0 <= i < oa.len() / 2 ==> oa[2 * i] == seq!['-', 'o', 'b', 'j', 'e', 'c', 't']
                    && oa[2 * i + 1] != exe && objects.contains(oa[2 * i + 1])
            &&& forall|o: Seq<char>|
                objects.contains(o) && o != exe ==> exists|i: int|
                    0 <= i < oa.len() / 2 && #[trigger] oa[2 * i + 1] == o
        }),
{
    reveal_strlit("merge");
    reveal_strlit("-sparse");
    reveal_strlit("-o");
    reveal_strlit("export");
    reveal_strlit("-format=lcov");
    reveal_strlit("-instr-profile");
    reveal_strlit("-object");
    assert("merge"@ =~= seq!['m', 'e', 'r', 'g', 'e']);
    assert("-sparse"@ =~= seq!['-', 's', 'p', 'a', 'r', 's', 'e']);
    assert("-o"@ =~= seq!['-', 'o']);
    assert("export"@ =~= seq!['e', 'x', 'p', 'o', 'r', 't']);
    assert("-format=lcov"@ =~= seq!['-', 'f', 'o', 'r', 'm', 'a', 't', '=', 'l', 'c', 'o', 'v']);
    assert("-instr-profile"@ =~= seq!['-', 'i', 'n', 's', 't', 'r', '-', 'p', 'r', 'o', 'f', 'i', 'l', 'e']);
    assert("-object"@ =~= seq!['-', 'o', 'b', 'j', 'e', 'c', 't']);
    lemma_object_args(objects, exe);
    let x = export_args_spec(profdata, exe, objects);
    assert(x.skip(5) =~= object_args(objects, exe));
}

/// Arguments for merging all of a run's profiles into one profdata.
pub fn merge_args(profdata: &str, profraws: &[String]) -> (r: Vec<String>)
    ensures
        str_views(r@) == merge_args_spec(profdata@, str_views(profraws@)),
{
    let mut out: Vec<String> = Vec::new();
    out.push("merge".to_owned());
    out.push("-sparse".to_owned());
    out.push("-o".to_owned());
    out.push(profdata.to_owned());
    let ghost head = str_views(out@);
    let ghost pv = str_views(profraws@);
    let mut i: usize = 0;
    while i < profraws.len()
        invariant
            i <= profraws@.len(),
            pv == str_views(profraws@),
            head == seq!["merge"@, "-sparse"@, "-o"@, profdata@],
            str_views(out@) == head + pv.take(i as int),
        decreases profraws@.len() - i,
    {
        let ghost before = out@;
        out.push(profraws[i].as_str().to_owned());
        assert(str_views(out@) =~= str_views(before).push(pv[i as int]));
        assert(pv.take(i + 1) =~= pv.take(i as int).push(pv[i as int]));
        assert(str_views(out@) =~= head + pv.take(i + 1));
        i += 1;
    }
    assert(pv.take(profraws@.len() as int) =~= pv);
    assert(str_views(out@) =~= merge_args_spec(profdata@, pv));
    out
}

/// Arguments for exporting a run's profdata as LCOV: the test binary is the
/// primary object, every other built binary is passed with `-object`.
pub fn export_args(profdata: &str, target_exe: &str, objects: &[String]) -> (r: Vec<String>)
    ensures
        str_views(r@) == export_args_spec(profdata@, target_exe@, str_views(objects@)),
{
    let mut out: Vec<String> = Vec::new();
    out.push("export".to_owned());
    out.push("-format=lcov".to_owned());
    out.push("-instr-profile".to_owned());
    out.push(profdata.to_owned());
    out.push(target_exe.to_owned());
    let ghost head = str_views(out@);
    let ghost ov = str_views(objects@);
    let exe = chars_of(target_exe);
    let mut i: usize = 0;
    while i < objects.len()
        invariant
            i <= objects@.len(),
            ov == str_views(objects@),
            exe@ == target_exe@,
            head == seq!["export"@, "-format=lcov"@, "-instr-profile"@, profdata@, target_exe@],
            str_views(out@) == head + object_args(ov.take(i as int), target_exe@),
        decreases objects@.len() - i,
    {
        assert(ov.take(i + 1).drop_last() =~= ov.take(i as int));
        assert(ov.take(i + 1).last() == objects@[i as int]@);
        let o = chars_of(objects[i].as_str());
        if !crate::text::chars_eq(o.as_slice(), exe.as_slice()) {
            let ghost before = out@;
            out.push("-object".to_owned());
            out.push(objects[i].as_str().to_owned());
            assert(str_views(out@) =~= str_views(before) + seq!["-object"@, ov[i as int]]);
            assert(str_views(out@) =~= head + object_args(ov.take(i + 1), target_exe@));
        }
        i += 1;
    }
    assert(ov.take(objects@.len() as int) =~= ov);
    out
}

// ---------------------------------------------------------------------------
// A run's coverage
// ---------------------------------------------------------------------------

/// The covered lines of each LCOV record.
pub open spec fn covered_sets(lcov: Seq<char>) -> Seq<(Seq<char>, Set<u32>)> {
    records(lcov).map_values(|r: (Seq<char>, Set<u32>, Set<u32>)| (r.0, r.2))
}

/// The executable lines of each LCOV record.
pub open spec fn executable_sets(lcov: Seq<char>) -> Seq<(Seq<char>, Set<u32>)> {
    records(lcov).map_values(|r: (Seq<char>, Set<u32>, Set<u32>)| (r.0, r.1))
}

/// `v` lists the records `recs`, each line set as a strictly increasing
/// sequence.
pub open spec fn lists_sets(v: Seq<(Seq<char>, Seq<u32>)>, recs: Seq<(Seq<char>, Set<u32>)>) -> bool {
    &&& v.len() == recs.len()
    &&& forall|i: int|
        0 <= i < v.len() ==> {
            &&& (#[trigger] v[i]).0 == recs[i].0
            &&& strictly_sorted(v[i].1)
            &&& elems(v[i].1) == recs[i].1
        }
}

/// Dropping and relativizing paths keeps two matching record lists
/// matching.
proof fn lemma_rel_lists(
    v: Seq<(Seq<char>, Seq<u32>)>,
    recs: Seq<(Seq<char>, Set<u32>)>,
    root: Seq<char>,
)
    requires
        lists_sets(v, recs),
    ensures
        lists_sets(rel_records(v, root), rel_records(recs, root)),
    decreases v.len(),
{
    if v.len() > 0 {
        assert(lists_sets(v.drop_last(), recs.drop_last())) by {
            assert forall|i: int| 0 <= i < v.drop_last().len() implies {
                &&& (#[trigger] v.drop_last()[i]).0 == recs.drop_last()[i].0
                &&& strictly_sorted(v.drop_last()[i].1)
                &&& elems(v.drop_last()[i].1) == recs.drop_last()[i].1
            } by {
                assert(v.drop_last()[i] == v[i]);
            }
        }
        lemma_rel_lists(v.drop_last(), recs.drop_last(), root);
        assert(v.last() == v[v.len() - 1]);
    }
}

/// Splits parsed LCOV records into covered and executable line lists.
fn split_records(parsed: &Vec<(String, FileCoverage)>) -> (r: (
    Vec<(String, Vec<u32>)>,
    Vec<(String, Vec<u32>)>,
))
    ensures
        r.0@.len() == parsed@.len(),
        r.1@.len() == parsed@.len(),
        forall|i: int|
            0 <= i < parsed@.len() ==> {
                &&& (#[trigger] r.0@[i]).0@ == parsed@[i].0@
                &&& r.0@[i].1@ == parsed@[i].1.covered@
                &&& r.1@[i].0@ == parsed@[i].0@
                &&& r.1@[i].1@ == parsed@[i].1.executable@
            },
{
    let mut cov: Vec<(String, Vec<u32>)> = Vec::new();
    let mut exe: Vec<(String, Vec<u32>)> = Vec::new();
    let mut i: usize = 0;
    while i < parsed.len()
        invariant
            i <= parsed@.len(),
            cov@.len() == i,
            exe@.len() == i,
            forall|j: int|
                0 <= j < i ==> {
                    &&& (#[trigger] cov@[j]).0@ == parsed@[j].0@
                    &&& cov@[j].1@ == parsed@[j].1.covered@
                    &&& exe@[j].0@ == parsed@[j].0@
                    &&& exe@[j].1@ == parsed@[j].1.executable@
                },
        decreases parsed@.len() - i,
    {
        let (path, fc) = (&parsed[i].0, &parsed[i].1);
        cov.push((path.clone(), copy_u32s(&fc.covered)));
        exe.push((path.clone(), copy_u32s(&fc.executable)));
        i += 1;
    }
    (cov, exe)
}

/// A run's coverage: the LCOV text `lcov` that `llvm-cov export` printed,
/// its records made relative to `workspace_root` (others dropped). The run
/// failed exactly when `failure_output` is given.
pub fn test_coverage(
    failure_output: Option<String>,
    duration_ms: u64,
    lcov: &str,
    workspace_root: &str,
) -> (r: TestCoverage)
    ensures
        r.status == (if failure_output is Some {
            TestStatus::Failed
        } else {
            TestStatus::Collected
        }),
        r.duration_ms == duration_ms,
        r.failure_output == failure_output,
        lists_sets(
            rec_views(r.records@),
            rel_records(covered_sets(lcov@), workspace_root@),
        ),
        lists_sets(
            rec_views(r.executable@),
            rel_records(executable_sets(lcov@), workspace_root@),
        ),
{
    let parsed = parse(lcov);
    let (cov, exe) = split_records(&parsed);
    proof {
        let recs = records(lcov@);
        assert(lists_sets(rec_views(cov@), covered_sets(lcov@))) by {
            assert forall|i: int| 0 <= i < rec_views(cov@).len() implies {
                &&& (#[trigger] rec_views(cov@)[i]).0 == covered_sets(lcov@)[i].0
                &&& strictly_sorted(rec_views(cov@)[i].1)
                &&& elems(rec_views(cov@)[i].1) == covered_sets(lcov@)[i].1
            } by {
                assert(parsed@[i].0@ == recs[i].0);
            }
        }
        assert(lists_sets(rec_views(exe@), executable_sets(lcov@))) by {
            assert forall|i: int| 0 <= i < rec_views(exe@).len() implies {
                &&& (#[trigger] rec_views(exe@)[i]).0 == executable_sets(lcov@)[i].0
                &&& strictly_sorted(rec_views(exe@)[i].1)
                &&& elems(rec_views(exe@)[i].1) == executable_sets(lcov@)[i].1
            } by {
                assert(cov@[i].0@ == parsed@[i].0@);
                assert(parsed@[i].0@ == recs[i].0);
            }
        }
        lemma_rel_lists(rec_views(cov@), covered_sets(lcov@), workspace_root@);
        lemma_rel_lists(rec_views(exe@), executable_sets(lcov@), workspace_root@);
    }
    let records = relativize_records(cov, workspace_root);
    let executable = relativize_records(exe, workspace_root);
    let status = match &failure_output {
        Some(_) => TestStatus::Failed,
        None => TestStatus::Collected,
    };
    TestCoverage { status, duration_ms, records, executable, failure_output }
}

} // verus!
