//! Discovering test binaries and the tests inside them.
//!
//! The caller runs `cargo test --no-run --message-format json` and each
//! binary's `--list --format terse`; this module picks the test binaries out
//! of cargo's artifact messages and the tests out of the listings.

use vstd::prelude::*;
use crate::text::{
    chars_of, lines_of, rfind, rfind_in, slice_copy, slice_string, split_lines, string_of, trim,
    trim_bounds, views,
};

verus! {

/// An instrumented test binary discovered from `cargo test --no-run`.
pub struct TestTarget {
    pub name: String,
    pub kind: String,
    pub executable: String,
    /// The package directory (parent of the owning Cargo.toml), used as the
    /// working directory when running the test binary.
    pub cwd: String,
}

/// A single test function within a test target.
pub struct TestCase {
    /// Index into the discovered targets vector.
    pub target_index: usize,
    /// Full path as reported by `--list`, e.g. `parser::tests::test_foo`.
    pub full: String,
    /// Bare test name (last `::` segment, or the whole thing if unqualified).
    pub name: String,
    /// Module path (everything before the final `::`, possibly empty).
    pub module: String,
}

/// A target as `(name, kind, executable, cwd)`.
pub open spec fn target_view(t: TestTarget) -> (Seq<char>, Seq<char>, Seq<char>, Seq<char>) {
    (t.name@, t.kind@, t.executable@, t.cwd@)
}

/// A test case as `(target_index, full, name, module)`.
pub open spec fn case_view(c: TestCase) -> (int, Seq<char>, Seq<char>, Seq<char>) {
    (c.target_index as int, c.full@, c.name@, c.module@)
}

// ---------------------------------------------------------------------------
// Test listings
// ---------------------------------------------------------------------------

/// The test named on one line of `--list --format terse` output
/// (`path::to::test_name: test`), as `(full, name, module)`.
pub open spec fn listed_test(line: Seq<char>) -> Option<(Seq<char>, Seq<char>, Seq<char>)> {
    match rfind(line, ": "@) {
        None => None,
        Some(i) => if trim(line.skip(i + 2)) != "test"@ {
            None
        } else {
            let path = trim(line.take(i));
            match rfind(path, "::"@) {
                Some(j) => Some((path, path.skip(j + 2), path.take(j))),
                None => Some((path, path, Seq::empty())),
            }
        },
    }
}

/// The tests listed on the lines `ls`, in order.
pub open spec fn listed_tests(ls: Seq<Seq<char>>) -> Seq<(Seq<char>, Seq<char>, Seq<char>)>
    decreases ls.len(),
{
    if ls.len() == 0 {
        Seq::empty()
    } else {
        let prev = listed_tests(ls.drop_last());
        match listed_test(ls.last()) {
            Some(t) => prev.push(t),
            None => prev,
        }
    }
}

/// Executable `listed_test`.
fn listed_test_exec(line: &Vec<char>) -> (r: Option<(String, String, String)>)
    ensures
        match r {
            Some(t) => listed_test(line@) == Some((t.0@, t.1@, t.2@)),
            None => listed_test(line@) is None,
        },
{
    let sep = chars_of(": ");
    let colons = chars_of("::");
    let test = chars_of("test");
    proof {
        reveal_strlit(": ");
        reveal_strlit("::");
    }
    assert(sep@ =~= seq![':', ' ']);
    assert(colons@ =~= seq![':', ':']);
    let i = match rfind_in(line.as_slice(), sep.as_slice()) {
        Some(i) => i,
        None => return None,
    };
    let n = line.len();
    let (a, b) = trim_bounds(line, i + 2, n);
    assert(line@.subrange(i + 2, line@.len() as int) =~= line@.skip(i + 2));
    let kind = slice_copy(line, a, b);
    if !crate::text::chars_eq(kind.as_slice(), test.as_slice()) {
        return None;
    }
    let (c, d) = trim_bounds(line, 0, i);
    assert(line@.subrange(0, i as int) =~= line@.take(i as int));
    let path = slice_copy(line, c, d);
    match rfind_in(path.as_slice(), colons.as_slice()) {
        Some(j) => {
            let name = slice_string(&path, j + 2, path.len());
            let module = slice_string(&path, 0, j);
            assert(path@.subrange(j + 2, path@.len() as int) =~= path@.skip(j + 2));
            assert(path@.subrange(0, j as int) =~= path@.take(j as int));
            Some((string_of(path.as_slice()), name, module))
        },
        None => Some((string_of(path.as_slice()), string_of(path.as_slice()), String::new())),
    }
}

/// The tests that a binary's `--list --format terse` output lists, in
/// order, each with target index 0 (the caller fills it in).
pub fn parse_test_list(text: &str) -> (r: Vec<TestCase>)
    ensures
        r@.len() == listed_tests(lines_of(text@)).len(),
        forall|i: int|
            0 <= i < r@.len() ==> {
                let t = listed_tests(lines_of(text@))[i];
                case_view(#[trigger] r@[i]) == (0int, t.0, t.1, t.2)
            },
{
    let cs = chars_of(text);
    let lines = split_lines(&cs);
    let ghost ls = lines_of(text@);
    let mut out: Vec<TestCase> = Vec::new();
    let mut i: usize = 0;
    while i < lines.len()
        invariant
            views(lines@) == ls,
            i <= lines@.len(),
            out@.len() == listed_tests(ls.take(i as int)).len(),
            forall|k: int|
                0 <= k < out@.len() ==> {
                    let t = listed_tests(ls.take(i as int))[k];
                    case_view(#[trigger] out@[k]) == (0int, t.0, t.1, t.2)
                },
        decreases lines@.len() - i,
    {
        assert(ls.take(i + 1).drop_last() =~= ls.take(i as int));
        assert(ls.take(i + 1).last() == lines@[i as int]@);
        match listed_test_exec(&lines[i]) {
            Some((full, name, module)) => {
                out.push(TestCase { target_index: 0, full, name, module });
            },
            None => {},
        }
        i += 1;
    }
    assert(ls.take(lines@.len() as int) =~= ls);
    out
}

// ---------------------------------------------------------------------------
// Cargo's artifact messages
// ---------------------------------------------------------------------------

/// The target of a compiler artifact message.
pub struct Target {
    pub name: String,
    pub kind: Vec<String>,
}

/// The profile of a compiler artifact message.
pub struct Profile {
    pub test: Option<bool>,
}

/// One JSON message of `cargo test --no-run --message-format json`, with
/// the fields that discovery reads.
pub struct Artifact {
    pub reason: Option<String>,
    pub target: Option<Target>,
    pub profile: Option<Profile>,
    pub executable: Option<String>,
    /// Absolute path to the owning Cargo.toml.
    pub manifest_path: Option<String>,
}

/// `s` without trailing `/`.
pub open spec fn strip_slashes(s: Seq<char>) -> Seq<char>
    decreases s.len(),
{
    if s.len() > 0 && s.last() == '/' {
        strip_slashes(s.drop_last())
    } else {
        s
    }
}

/// `Path::parent` on a `/`-separated path: `None` for an empty path or the
/// root, else everything before the last component (`""` for a single
/// relative component, `/` for one under the root).
pub open spec fn path_parent(p: Seq<char>) -> Option<Seq<char>> {
    let q = strip_slashes(p);
    if q.len() == 0 {
        None
    } else {
        match rfind(q, seq!['/']) {
            None => Some(Seq::empty()),
            Some(i) => {
                let h = strip_slashes(q.take(i));
                if h.len() == 0 {
                    Some(seq!['/'])
                } else {
                    Some(h)
                }
            },
        }
    }
}

/// Whether a message announces a test binary: a `compiler-artifact` with a
/// target, a test profile and an executable.
pub open spec fn is_test_artifact(a: Artifact) -> bool {
    &&& a.reason matches Some(r) && r@ == "compiler-artifact"@
    &&& a.target is Some
    &&& a.profile matches Some(p) && p.test == Some(true)
    &&& a.executable is Some
}

/// The last (most specific) kind of a target, or `""`.
pub open spec fn last_kind(kinds: Seq<String>) -> Seq<char> {
    if kinds.len() == 0 {
        Seq::empty()
    } else {
        kinds.last()@
    }
}

/// The directory a test binary runs in: the parent of its Cargo.toml, or
/// `dir` when cargo gave none.
pub open spec fn cwd_of(manifest: Option<String>, dir: Seq<char>) -> Seq<char> {
    match manifest {
        Some(m) => match path_parent(m@) {
            Some(p) => p,
            None => dir,
        },
        None => dir,
    }
}

/// The target that a test artifact describes.
pub open spec fn target_of(a: Artifact, dir: Seq<char>) -> (Seq<char>, Seq<char>, Seq<char>, Seq<char>) {
    (a.target->0.name@, last_kind(a.target->0.kind@), a.executable->0@, cwd_of(a.manifest_path, dir))
}

/// Whether some target of `ts` has the executable `exe`.
pub open spec fn exe_seen(ts: Seq<(Seq<char>, Seq<char>, Seq<char>, Seq<char>)>, exe: Seq<char>) -> bool {
    exists|i: int| 0 <= i < ts.len() && (#[trigger] ts[i]).2 == exe
}

/// The test binaries that the messages `arts` announce, each executable
/// once (its first announcement), in order.
pub open spec fn targets_spec(arts: Seq<Artifact>, dir: Seq<char>) -> Seq<
    (Seq<char>, Seq<char>, Seq<char>, Seq<char>),
>
    decreases arts.len(),
{
    if arts.len() == 0 {
        Seq::empty()
    } else {
        let prev = targets_spec(arts.drop_last(), dir);
        let a = arts.last();
        if is_test_artifact(a) && !exe_seen(prev, a.executable->0@) {
            prev.push(target_of(a, dir))
        } else {
            prev
        }
    }
}

/// Executable `strip_slashes` on a prefix: the end of `s[..to]` without
/// trailing `/`.
fn strip_slashes_end(s: &Vec<char>, to: usize) -> (k: usize)
    requires
        to <= s@.len(),
    ensures
        k <= to,
        strip_slashes(s@.take(to as int)) == s@.take(k as int),
{
    let mut k = to;
    while k > 0 && s[k - 1] == '/'
        invariant
            k <= to <= s@.len(),
            strip_slashes(s@.take(to as int)) == strip_slashes(s@.take(k as int)),
        decreases k,
    {
        assert(s@.take(k as int).drop_last() =~= s@.take(k - 1));
        k -= 1;
    }
    k
}

/// Executable `path_parent`.
pub fn parent_dir(p: &str) -> (r: Option<String>)
    ensures
        match r {
            Some(q) => path_parent(p@) == Some(q@),
            None => path_parent(p@) is None,
        },
{
    let s = chars_of(p);
    assert(s@.take(s@.len() as int) =~= s@);
    let n = strip_slashes_end(&s, s.len());
    if n == 0 {
        return None;
    }
    let q = slice_copy(&s, 0, n);
    assert(q@ =~= s@.take(n as int));
    let slash = chars_of("/");
    proof {
        reveal_strlit("/");
    }
    assert(slash@ =~= seq!['/']);
    match rfind_in(q.as_slice(), slash.as_slice()) {
        None => Some(String::new()),
        Some(i) => {
            let h = strip_slashes_end(&q, i);
            if h == 0 {
                Some("/".to_owned())
            } else {
                assert(q@.take(h as int) =~= q@.subrange(0, h as int));
                Some(slice_string(&q, 0, h))
            }
        },
    }
}

/// Whether `exe` is among the executables of `ts`.
fn has_exe(ts: &Vec<TestTarget>, exe: &str) -> (r: bool)
    ensures
        r == exe_seen(ts@.map_values(|t: TestTarget| target_view(t)), exe@),
{
    let ghost tv = ts@.map_values(|t: TestTarget| target_view(t));
    let e = chars_of(exe);
    let mut i: usize = 0;
    while i < ts.len()
        invariant
            i <= ts@.len(),
            tv == ts@.map_values(|t: TestTarget| target_view(t)),
            e@ == exe@,
            forall|k: int| 0 <= k < i ==> tv[k].2 != exe@,
        decreases ts@.len() - i,
    {
        let x = chars_of(ts[i].executable.as_str());
        if crate::text::chars_eq(x.as_slice(), e.as_slice()) {
            assert(tv[i as int].2 == exe@);
            return true;
        }
        i += 1;
    }
    false
}

/// The test binaries that cargo's artifact messages announce, each
/// executable once, in order. `dir` is where cargo ran.
pub fn select_targets(artifacts: &Vec<Artifact>, dir: &str) -> (r: Vec<TestTarget>)
    ensures
        r@.map_values(|t: TestTarget| target_view(t)) == targets_spec(artifacts@, dir@),
{
    let reason = "compiler-artifact";
    let rv = chars_of(reason);
    let mut out: Vec<TestTarget> = Vec::new();
    let mut i: usize = 0;
    while i < artifacts.len()
        invariant
            i <= artifacts@.len(),
            rv@ == "compiler-artifact"@,
            out@.map_values(|t: TestTarget| target_view(t)) == targets_spec(
                artifacts@.take(i as int),
                dir@,
            ),
        decreases artifacts@.len() - i,
    {
        assert(artifacts@.take(i + 1).drop_last() =~= artifacts@.take(i as int));
        assert(artifacts@.take(i + 1).last() == artifacts@[i as int]);
        let a = &artifacts[i];
        let is_art = match &a.reason {
            Some(r) => crate::text::chars_eq(chars_of(r.as_str()).as_slice(), rv.as_slice()),
            None => false,
        };
        let is_test = match &a.profile {
            Some(p) => match p.test {
                Some(t) => t,
                None => false,
            },
            None => false,
        };
        if is_art && is_test {
            match (&a.target, &a.executable) {
                (Some(t), Some(exe)) => {
                    if !has_exe(&out, exe.as_str()) {
                        let kind = if t.kind.len() == 0 {
                            String::new()
                        } else {
                            t.kind[t.kind.len() - 1].as_str().to_owned()
                        };
                        let cwd = match &a.manifest_path {
                            Some(m) => match parent_dir(m.as_str()) {
                                Some(p) => p,
                                None => dir.to_owned(),
                            },
                            None => dir.to_owned(),
                        };
                        let ghost before = out@;
                        out.push(
                            TestTarget {
                                name: t.name.as_str().to_owned(),
                                kind,
                                executable: exe.as_str().to_owned(),
                                cwd,
                            },
                        );
                        assert(out@.map_values(|t: TestTarget| target_view(t)) =~= before.map_values(
                            |t: TestTarget| target_view(t),
                        ).push(target_of(artifacts@[i as int], dir@)));
                    }
                },
                _ => {},
            }
        }
        i += 1;
    }
    assert(artifacts@.take(artifacts@.len() as int) =~= artifacts@);
    out
}

/// Why no targets could be discovered.
pub enum DiscoveryError {
    /// The build announced no test binary.
    NoTestBinaries,
}

/// The test binaries of a build, from cargo's artifact messages; an error
/// when there are none.
pub fn build_targets(artifacts: &Vec<Artifact>, dir: &str) -> (r: Result<Vec<TestTarget>, DiscoveryError>)
    ensures
        match r {
            Ok(ts) => targets_spec(artifacts@, dir@).len() > 0 && ts@.map_values(
                |t: TestTarget| target_view(t),
            ) == targets_spec(artifacts@, dir@),
            Err(_) => targets_spec(artifacts@, dir@).len() == 0,
        },
{
    let ts = select_targets(artifacts, dir);
    if ts.len() == 0 {
        Err(DiscoveryError::NoTestBinaries)
    } else {
        Ok(ts)
    }
}

} // verus!
