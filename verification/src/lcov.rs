//! A minimal LCOV parser. It reports, per source file, which lines are
//! *executable* (carry a `DA` record at all) and which were *executed*
//! (count > 0).
//!
//! Relevant records:
//!   SF:/abs/path/to/file.rs
//!   DA:42,1            # line 42, count 1
//!   end_of_record

use vstd::prelude::*;
use crate::sorted::{elems, insert_sorted, strictly_sorted};
use crate::text::{
    chars_eq, chars_of, find, find_in, lines_of, parse_u32_in, parse_u64_in, parse_unsigned,
    slice_copy, split_lines, starts_with, starts_with_in, string_of, trim, trim_bounds, views,
};

verus! {

/// Per-file coverage from one LCOV report.
pub struct FileCoverage {
    /// Every line that has a `DA` record (instrumented/executable), sorted.
    pub executable: Vec<u32>,
    /// The subset of executable lines with `count > 0`, sorted.
    pub covered: Vec<u32>,
}

/// Parser state: the current `SF` file, the executable and covered lines
/// gathered since the last flush, and the records emitted so far.
pub type LcovState = (Option<Seq<char>>, Set<u32>, Set<u32>, Seq<(Seq<char>, Set<u32>, Set<u32>)>);

/// Ends the current record: it is emitted when a file is open and it has at
/// least one executable line. Either way the file is closed and the line
/// sets are emptied.
pub open spec fn flush(st: LcovState) -> LcovState {
    match st.0 {
        Some(f) => if !st.1.is_empty() {
            (None, Set::empty(), Set::empty(), st.3.push((f, st.1, st.2)))
        } else {
            (None, Set::empty(), Set::empty(), st.3)
        },
        None => (None, Set::empty(), Set::empty(), st.3),
    }
}

/// `str::trim_end_matches('\r')`.
pub open spec fn trim_end_cr(l: Seq<char>) -> Seq<char>
    decreases l.len(),
{
    if l.len() > 0 && l.last() == '\r' {
        trim_end_cr(l.drop_last())
    } else {
        l
    }
}

/// The first comma-separated field of `s`.
pub open spec fn first_field(s: Seq<char>) -> Seq<char> {
    match find(s, seq![',']) {
        Some(i) => s.take(i),
        None => s,
    }
}

/// What follows the first comma of `s`, if there is one.
pub open spec fn after_comma(s: Seq<char>) -> Option<Seq<char>> {
    match find(s, seq![',']) {
        Some(i) => Some(s.skip(i + 1)),
        None => None,
    }
}

/// The `(line, count)` of a `DA:` record body, when both parse.
pub open spec fn da_fields(rest: Seq<char>) -> Option<(nat, nat)> {
    let ln = parse_unsigned(trim(first_field(rest)), u32::MAX as nat);
    let cnt = match after_comma(rest) {
        Some(r) => parse_unsigned(trim(first_field(r)), u64::MAX as nat),
        None => None,
    };
    match (ln, cnt) {
        (Some(l), Some(c)) => Some((l, c)),
        _ => None,
    }
}

/// One line of LCOV input. A `DA:` line counts only inside a record, that
/// is after an `SF:` line and before the record ends.
pub open spec fn step(st: LcovState, line: Seq<char>) -> LcovState {
    if starts_with(line, "SF:"@) {
        let f = flush(st);
        (Some(line.skip(3)), f.1, f.2, f.3)
    } else if starts_with(line, "DA:"@) && st.0 is Some {
        match da_fields(line.skip(3)) {
            Some((l, c)) => {
                let ln = l as u32;
                (st.0, st.1.insert(ln), if c > 0 {
                    st.2.insert(ln)
                } else {
                    st.2
                }, st.3)
            },
            None => st,
        }
    } else if line == "end_of_record"@ {
        flush(st)
    } else {
        st
    }
}

/// The state after the first `n` lines.
pub open spec fn run(lines: Seq<Seq<char>>, n: int) -> LcovState
    decreases n,
{
    if n <= 0 {
        (None, Set::empty(), Set::empty(), Seq::empty())
    } else {
        step(run(lines, n - 1), trim_end_cr(lines[n - 1]))
    }
}

/// The records of an LCOV text: every line is read, then the last record
/// is flushed even without `end_of_record`.
pub open spec fn records(lcov: Seq<char>) -> Seq<(Seq<char>, Set<u32>, Set<u32>)> {
    let lines = lines_of(lcov);
    flush(run(lines, lines.len() as int)).3
}

/// Covered lines are executable lines, and every emitted record has an
/// executable line.
pub open spec fn state_ok(st: LcovState) -> bool {
    &&& st.2.subset_of(st.1)
    &&& forall|i: int|
        0 <= i < st.3.len() ==> (#[trigger] st.3[i]).2.subset_of(st.3[i].1) && !st.3[i].1.is_empty()
}

proof fn lemma_flush_ok(st: LcovState)
    requires
        state_ok(st),
    ensures
        state_ok(flush(st)),
{
    let f = flush(st);
    if st.0 is Some && !st.1.is_empty() {
        assert forall|i: int| 0 <= i < f.3.len() implies (#[trigger] f.3[i]).2.subset_of(f.3[i].1)
            && !f.3[i].1.is_empty() by {
            if i < st.3.len() {
                assert(f.3[i] == st.3[i]);
            }
        }
    }
}

proof fn lemma_run_ok(lines: Seq<Seq<char>>, n: int)
    ensures
        state_ok(run(lines, n)),
    decreases n,
{
    if n > 0 {
        lemma_run_ok(lines, n - 1);
        let st = run(lines, n - 1);
        lemma_flush_ok(st);
    }
}

/// In every record of an LCOV report, the covered lines are executable
/// lines, and there is at least one executable line.
pub proof fn law_covered_lines_are_executable(lcov: Seq<char>)
    ensures
        forall|i: int|
            0 <= i < records(lcov).len() ==> (#[trigger] records(lcov)[i]).2.subset_of(
                records(lcov)[i].1,
            ) && !records(lcov)[i].1.is_empty(),
{
    let lines = lines_of(lcov);
    lemma_run_ok(lines, lines.len() as int);
    lemma_flush_ok(run(lines, lines.len() as int));
}

/// `r` lists exactly the records `recs`, each line set as a strictly
/// increasing vector.
pub open spec fn lists_records(
    r: Seq<(String, FileCoverage)>,
    recs: Seq<(Seq<char>, Set<u32>, Set<u32>)>,
) -> bool {
    &&& r.len() == recs.len()
    &&& forall|i: int|
        0 <= i < r.len() ==> {
            &&& (#[trigger] r[i]).0@ == recs[i].0
            &&& strictly_sorted(r[i].1.executable@)
            &&& elems(r[i].1.executable@) == recs[i].1
            &&& strictly_sorted(r[i].1.covered@)
            &&& elems(r[i].1.covered@) == recs[i].2
        }
}

/// The parser's executable state matches the spec state `st`.
spec fn matches_state(
    file: Option<Vec<char>>,
    exec: Seq<u32>,
    cov: Seq<u32>,
    out: Seq<(String, FileCoverage)>,
    st: LcovState,
) -> bool {
    &&& match file {
        Some(f) => st.0 == Some(f@),
        None => st.0 is None,
    }
    &&& strictly_sorted(exec)
    &&& strictly_sorted(cov)
    &&& elems(exec) == st.1
    &&& elems(cov) == st.2
    &&& lists_records(out, st.3)
}

/// Executable `flush`.
fn flush_exec(
    out: &mut Vec<(String, FileCoverage)>,
    file: Option<Vec<char>>,
    exec: &mut Vec<u32>,
    cov: &mut Vec<u32>,
    Ghost(st): Ghost<LcovState>,
)
    requires
        matches_state(file, old(exec)@, old(cov)@, old(out)@, st),
    ensures
        matches_state(None, final(exec)@, final(cov)@, final(out)@, flush(st)),
{
    match file {
        Some(f) => {
            if exec.len() > 0 {
                assert(elems(exec@).contains(exec@[0]));
                let name = string_of(f.as_slice());
                let mut e: Vec<u32> = Vec::new();
                std::mem::swap(&mut e, exec);
                let mut c: Vec<u32> = Vec::new();
                std::mem::swap(&mut c, cov);
                let ghost before = out@;
                out.push((name, FileCoverage { executable: e, covered: c }));
                assert(elems(exec@) =~= Set::<u32>::empty());
                assert(elems(cov@) =~= Set::<u32>::empty());
                assert forall|i: int| 0 <= i < out@.len() implies {
                    &&& (#[trigger] out@[i]).0@ == flush(st).3[i].0
                    &&& strictly_sorted(out@[i].1.executable@)
                    &&& elems(out@[i].1.executable@) == flush(st).3[i].1
                    &&& strictly_sorted(out@[i].1.covered@)
                    &&& elems(out@[i].1.covered@) == flush(st).3[i].2
                } by {
                    if i < before.len() {
                        assert(out@[i] == before[i]);
                    }
                }
            } else {
                exec.clear();
                cov.clear();
                assert(elems(exec@) =~= Set::<u32>::empty());
                assert(elems(cov@) =~= Set::<u32>::empty());
            }
        },
        None => {
            exec.clear();
            cov.clear();
            assert(elems(exec@) =~= Set::<u32>::empty());
            assert(elems(cov@) =~= Set::<u32>::empty());
        },
    }
}

/// The `(line, count)` of a `DA:` record body `rest`, when both parse.
fn parse_da(rest: &Vec<char>, comma: &Vec<char>) -> (r: Option<(u32, u64)>)
    requires
        comma@ == seq![','],
    ensures
        match r {
            Some((l, c)) => da_fields(rest@) == Some((l as nat, c as nat)),
            None => da_fields(rest@) is None,
        },
{
    let n = rest.len();
    let end1 = match find_in(rest.as_slice(), comma.as_slice()) {
        Some(i) => i,
        None => n,
    };
    proof {
        assert(rest@.subrange(0, n as int) =~= rest@);
        assert(first_field(rest@) == rest@.subrange(0, end1 as int));
    }
    let (a, b) = trim_bounds(rest, 0, end1);
    let ln = parse_u32_in(rest.as_slice(), a, b);
    let cnt: Option<u64> = if end1 < n {
        let r2 = slice_copy(rest, end1 + 1, n);
        assert(r2@ == after_comma(rest@)->Some_0);
        let m = r2.len();
        let end2 = match find_in(r2.as_slice(), comma.as_slice()) {
            Some(i) => i,
            None => m,
        };
        assert(r2@.subrange(0, m as int) =~= r2@);
        assert(first_field(r2@) == r2@.subrange(0, end2 as int));
        let (c0, c1) = trim_bounds(&r2, 0, end2);
        parse_u64_in(r2.as_slice(), c0, c1)
    } else {
        None
    };
    match (ln, cnt) {
        (Some(l), Some(c)) => Some((l, c)),
        _ => None,
    }
}

/// Parses an LCOV report into `(source path, coverage)` records, in input
/// order. A record runs from an `SF:` line to `end_of_record`, the next
/// `SF:` or the end of the input; it is emitted when it has at least one
/// executable line. `DA:` lines outside a record are ignored.
pub fn parse(lcov: &str) -> (r: Vec<(String, FileCoverage)>)
    ensures
        lists_records(r@, records(lcov@)),
{
    let text = chars_of(lcov);
    let lines = split_lines(&text);
    let ghost ls = lines_of(lcov@);
    let sf = chars_of("SF:");
    let da = chars_of("DA:");
    let eor = chars_of("end_of_record");
    let comma = chars_of(",");
    proof {
        reveal_strlit(",");
        reveal_strlit("SF:");
        reveal_strlit("DA:");
    }
    let mut out: Vec<(String, FileCoverage)> = Vec::new();
    let mut file: Option<Vec<char>> = None;
    let mut exec: Vec<u32> = Vec::new();
    let mut cov: Vec<u32> = Vec::new();
    assert(elems(exec@) =~= Set::<u32>::empty());
    assert(elems(cov@) =~= Set::<u32>::empty());
    let mut i: usize = 0;
    while i < lines.len()
        invariant
            views(lines@) == ls,
            i <= lines@.len(),
            sf@ == "SF:"@,
            da@ == "DA:"@,
            sf@.len() == 3,
            da@.len() == 3,
            eor@ == "end_of_record"@,
            comma@ == seq![','],
            matches_state(file, exec@, cov@, out@, run(ls, i as int)),
        decreases lines@.len() - i,
    {
        let raw = &lines[i];
        assert(raw@ == ls[i as int]);
        let mut k = raw.len();
        assert(raw@.take(k as int) =~= raw@);
        while k > 0 && raw[k - 1] == '\r'
            invariant
                k <= raw@.len(),
                trim_end_cr(raw@) == trim_end_cr(raw@.take(k as int)),
            decreases k,
        {
            assert(raw@.take(k as int).drop_last() =~= raw@.take(k - 1));
            k -= 1;
        }
        let line = slice_copy(raw, 0, k);
        assert(raw@.subrange(0, k as int) =~= raw@.take(k as int));
        let ghost st = run(ls, i as int);
        if starts_with_in(line.as_slice(), sf.as_slice()) {
            let f = file.take();
            flush_exec(&mut out, f, &mut exec, &mut cov, Ghost(st));
            file = Some(slice_copy(&line, 3, line.len()));
            assert(line@.subrange(3, line@.len() as int) =~= line@.skip(3));
        } else if starts_with_in(line.as_slice(), da.as_slice()) && file.is_some() {
            let rest = slice_copy(&line, 3, line.len());
            assert(rest@ =~= line@.skip(3));
            match parse_da(&rest, &comma) {
                Some((l, c)) => {
                    insert_sorted(&mut exec, l);
                    if c > 0 {
                        insert_sorted(&mut cov, l);
                    }
                },
                None => {},
            }
        } else if chars_eq(line.as_slice(), eor.as_slice()) {
            let f = file.take();
            flush_exec(&mut out, f, &mut exec, &mut cov, Ghost(st));
        }
        i += 1;
    }
    let f = file.take();
    flush_exec(&mut out, f, &mut exec, &mut cov, Ghost(run(ls, lines@.len() as int)));
    out
}

} // verus!
