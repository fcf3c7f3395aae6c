//! Locating the LLVM tools of the active toolchain and reading the
//! coverage environment that `cargo llvm-cov show-env` prints.
//!
//! The processes themselves are started by the caller; this module works
//! on what they printed.

use vstd::prelude::*;
use crate::lcov::trim_end_cr;
use crate::strmap::{last_value, StrMap};
use crate::text::{
    chars_of, find, find_in, lines_of, slice_copy, slice_string, split_lines, starts_with,
    starts_with_in, string_of, trim, trim_bounds, views,
};
use crate::util::{join_path, join_path_spec};

verus! {

/// Paths to the llvm tools bundled with the active Rust toolchain.
pub struct LlvmTools {
    pub profdata: String,
    pub cov: String,
}

/// The `bin` directory of the toolchain's llvm tools for `host`.
pub open spec fn tools_bin(sysroot: Seq<char>, host: Seq<char>) -> Seq<char> {
    join_path_spec(
        join_path_spec(join_path_spec(join_path_spec(sysroot, "lib"@), "rustlib"@), host),
        "bin"@,
    )
}

/// The host triple named on the first `host:` line of `rustc -vV`, trimmed.
pub open spec fn host_of_lines(ls: Seq<Seq<char>>) -> Option<Seq<char>>
    decreases ls.len(),
{
    if ls.len() == 0 {
        None
    } else if starts_with(ls[0], "host:"@) {
        Some(trim(ls[0].skip(5)))
    } else {
        host_of_lines(ls.drop_first())
    }
}

/// The host triple that `rustc -vV` printed in `text`, if any.
pub open spec fn host_spec(text: Seq<char>) -> Option<Seq<char>> {
    host_of_lines(lines_of(text))
}

/// Parses the host triple out of the output of `rustc -vV`.
pub fn rustc_host(text: &str) -> (r: Option<String>)
    ensures
        match r {
            Some(h) => host_spec(text@) == Some(h@),
            None => host_spec(text@) is None,
        },
{
    let cs = chars_of(text);
    let lines = split_lines(&cs);
    let ghost ls = lines_of(text@);
    let prefix = chars_of("host:");
    proof {
        reveal_strlit("host:");
    }
    let mut i: usize = 0;
    assert(ls.skip(0) =~= ls);
    while i < lines.len()
        invariant
            views(lines@) == ls,
            i <= lines@.len(),
            prefix@ == "host:"@,
            prefix@.len() == 5,
            host_spec(text@) == host_of_lines(ls.skip(i as int)),
        decreases lines@.len() - i,
    {
        assert(ls.skip(i as int)[0] == lines@[i as int]@);
        assert(ls.skip(i as int).drop_first() =~= ls.skip(i + 1));
        let l = &lines[i];
        if starts_with_in(l.as_slice(), prefix.as_slice()) {
            let (a, b) = trim_bounds(l, 5, l.len());
            assert(l@.subrange(5, l@.len() as int) =~= l@.skip(5));
            return Some(slice_string(l, a, b));
        }
        i += 1;
    }
    assert(ls.skip(i as int).len() == 0);
    None
}

/// Why the llvm tools could not be located.
pub enum LlvmError {
    /// `rustc -vV` named no host triple.
    NoHost,
}

impl LlvmTools {
    /// Locates `llvm-profdata` and `llvm-cov` under
    /// `<sysroot>/lib/rustlib/<host>/bin`, from what `rustc --print sysroot`
    /// (`sysroot_out`) and `rustc -vV` (`rustc_vv_out`) printed. Whether the
    /// two files exist is for the caller to check.
    pub fn discover(sysroot_out: &str, rustc_vv_out: &str) -> (r: Result<LlvmTools, LlvmError>)
        ensures
            match host_spec(rustc_vv_out@) {
                None => r is Err,
                Some(host) => r is Ok && {
                    let bin = tools_bin(trim(sysroot_out@), host);
                    &&& r->Ok_0.profdata@ == join_path_spec(bin, "llvm-profdata"@)
                    &&& r->Ok_0.cov@ == join_path_spec(bin, "llvm-cov"@)
                },
            },
    {
        let host = match rustc_host(rustc_vv_out) {
            Some(h) => h,
            None => return Err(LlvmError::NoHost),
        };
        let sysroot = crate::text::trim_string(sysroot_out);
        let lib = join_path(sysroot.as_str(), "lib");
        let rustlib = join_path(lib.as_str(), "rustlib");
        let hostdir = join_path(rustlib.as_str(), host.as_str());
        let bin = join_path(hostdir.as_str(), "bin");
        let profdata = join_path(bin.as_str(), "llvm-profdata");
        let cov = join_path(bin.as_str(), "llvm-cov");
        Ok(LlvmTools { profdata, cov })
    }
}

// ---------------------------------------------------------------------------
// The coverage environment
// ---------------------------------------------------------------------------

/// A value with one pair of surrounding single quotes removed.
pub open spec fn unquote(v: Seq<char>) -> Seq<char> {
    if v.len() >= 2 && v[0] == '\'' && v.last() == '\'' {
        v.subrange(1, v.len() - 1)
    } else {
        v
    }
}

/// The `KEY=value` pair of one line of `show-env` output: `None` for an
/// empty line, an `info:` line, or a line without `=`.
pub open spec fn env_entry(raw: Seq<char>) -> Option<(Seq<char>, Seq<char>)> {
    let line = trim_end_cr(raw);
    if line.len() == 0 || starts_with(line, "info:"@) {
        None
    } else {
        match find(line, seq!['=']) {
            Some(i) => Some((line.take(i), unquote(line.skip(i + 1)))),
            None => None,
        }
    }
}

/// The pairs of `ls`, in order.
pub open spec fn env_pairs_of(ls: Seq<Seq<char>>) -> Seq<(Seq<char>, Seq<char>)>
    decreases ls.len(),
{
    if ls.len() == 0 {
        Seq::empty()
    } else {
        let prev = env_pairs_of(ls.drop_last());
        match env_entry(ls.last()) {
            Some(p) => prev.push(p),
            None => prev,
        }
    }
}

/// The pairs that the output `text` of `show-env` lists.
pub open spec fn env_pairs(text: Seq<char>) -> Seq<(Seq<char>, Seq<char>)> {
    env_pairs_of(lines_of(text))
}

/// Executable `trim_end_cr`.
fn strip_trailing_cr(raw: &Vec<char>) -> (r: Vec<char>)
    ensures
        r@ == trim_end_cr(raw@),
{
    let mut k = raw.len();
    assert(raw@.take(k as int) =~= raw@);
    while k > 0 && raw[k - 1] == '\r'
        invariant
            k <= raw@.len(),
            trim_end_cr(raw@) == trim_end_cr(raw@.take(k as int)),
        decreases k,
    {
        assert(raw@.take(k as int).drop_last() =~= raw@.take(k - 1));
        k -= 1;
    }
    assert(raw@.subrange(0, k as int) =~= raw@.take(k as int));
    slice_copy(raw, 0, k)
}

/// Executable `env_entry`.
fn env_entry_exec(raw: &Vec<char>) -> (r: Option<(String, String)>)
    ensures
        match r {
            Some(p) => env_entry(raw@) == Some((p.0@, p.1@)),
            None => env_entry(raw@) is None,
        },
{
    let line = strip_trailing_cr(raw);
    let info = chars_of("info:");
    let eq = chars_of("=");
    proof {
        reveal_strlit("=");
    }
    assert(eq@ =~= seq!['=']);
    if line.len() == 0 || starts_with_in(line.as_slice(), info.as_slice()) {
        return None;
    }
    match find_in(line.as_slice(), eq.as_slice()) {
        None => None,
        Some(i) => {
            let n = line.len();
            assert(line@.subrange(0, i as int) =~= line@.take(i as int));
            let k = string_of(slice_copy(&line, 0, i).as_slice());
            assert(k@ =~= line@.take(i as int));
            let v = if n - (i + 1) >= 2 && line[i + 1] == '\'' && line[n - 1] == '\'' {
                let s = slice_string(&line, i + 2, n - 1);
                assert(s@ =~= unquote(line@.skip(i + 1)));
                s
            } else {
                let s = slice_string(&line, i + 1, n);
                assert(s@ =~= unquote(line@.skip(i + 1)));
                s
            };
            Some((k, v))
        },
    }
}

/// The value that the last pair with key `k` gives, through views.
proof fn lemma_last_value_views(s: Seq<(String, String)>, k: Seq<char>)
    ensures
        ({
            let ps = s.map_values(|p: (String, String)| (p.0@, p.1));
            let vs = s.map_values(|p: (String, String)| (p.0@, p.1@));
            match last_value(ps, k) {
                Some(v) => last_value(vs, k) == Some(v@),
                None => last_value(vs, k) is None,
            }
        }),
    decreases s.len(),
{
    let ps = s.map_values(|p: (String, String)| (p.0@, p.1));
    let vs = s.map_values(|p: (String, String)| (p.0@, p.1@));
    if s.len() > 0 {
        lemma_last_value_views(s.drop_last(), k);
        assert(ps.drop_last() =~= s.drop_last().map_values(|p: (String, String)| (p.0@, p.1)));
        assert(vs.drop_last() =~= s.drop_last().map_values(|p: (String, String)| (p.0@, p.1@)));
    }
}

/// Parses the `KEY=value` lines that `cargo llvm-cov show-env` printed into
/// a map (a later line with the same key wins). `None` when the output
/// names no `LLVM_PROFILE_FILE`.
pub fn parse_show_env(text: &str) -> (r: Option<StrMap<String>>)
    ensures
        match r {
            Some(m) => {
                &&& last_value(env_pairs(text@), "LLVM_PROFILE_FILE"@) is Some
                &&& forall|k: Seq<char>|
                    #![trigger m.get_spec(k)]
                    match m.get_spec(k) {
                        Some(v) => last_value(env_pairs(text@), k) == Some(v@),
                        None => last_value(env_pairs(text@), k) is None,
                    }
            },
            None => last_value(env_pairs(text@), "LLVM_PROFILE_FILE"@) is None,
        },
{
    let cs = chars_of(text);
    let lines = split_lines(&cs);
    let ghost ls = lines_of(text@);
    let mut pairs: Vec<(String, String)> = Vec::new();
    let mut i: usize = 0;
    while i < lines.len()
        invariant
            views(lines@) == ls,
            i <= lines@.len(),
            pairs@.map_values(|p: (String, String)| (p.0@, p.1@)) == env_pairs_of(
                ls.take(i as int),
            ),
        decreases lines@.len() - i,
    {
        assert(ls.take(i + 1).drop_last() =~= ls.take(i as int));
        assert(ls.take(i + 1).last() == lines@[i as int]@);
        match env_entry_exec(&lines[i]) {
            Some(p) => {
                pairs.push(p);
                assert(pairs@.map_values(|p: (String, String)| (p.0@, p.1@)) =~= env_pairs_of(
                    ls.take(i + 1),
                ));
            },
            None => {},
        }
        i += 1;
    }
    assert(ls.take(lines@.len() as int) =~= ls);
    let ghost vs = pairs@.map_values(|p: (String, String)| (p.0@, p.1@));
    let ghost ps0 = pairs@;
    let m = StrMap::from_pairs(pairs);
    let key = "LLVM_PROFILE_FILE";
    proof {
        assert forall|k: Seq<char>| #![trigger m.get_spec(k)]
            match m.get_spec(k) {
                Some(v) => last_value(vs, k) == Some(v@),
                None => last_value(vs, k) is None,
            } by {
            lemma_last_value_views(ps0, k);
        }
    }
    match m.get(key) {
        Some(_) => Some(m),
        None => None,
    }
}

// ---------------------------------------------------------------------------
// The workspace root
// ---------------------------------------------------------------------------

/// What `serde_json::from_slice::<serde_json::Value>(bytes)` followed by
/// reading the string field `workspace_root` gives: `None` when the bytes
/// are not JSON, `Some(None)` when they hold no such string field.
pub uninterp spec fn metadata_workspace_root(bytes: Seq<u8>) -> Option<Option<Seq<char>>>;

/// Calls `serde_json::from_slice::<serde_json::Value>` on the output of
/// `cargo metadata`, then `Value::get("workspace_root")` and
/// `Value::as_str`. The contract claims only that the outcome is a function
/// of the bytes (`metadata_workspace_root`), an error exactly when they are
/// not JSON.
#[verifier::external_body]
fn parse_metadata_root(metadata: &[u8]) -> (r: Result<Option<String>, serde_json::Error>)
    ensures
        match r {
            Ok(Some(s)) => metadata_workspace_root(metadata@) == Some(Some(s@)),
            Ok(None) => metadata_workspace_root(metadata@) == Some(None::<Seq<char>>),
            Err(_) => metadata_workspace_root(metadata@) is None,
        },
{
    match serde_json::from_slice::<serde_json::Value>(metadata) {
        Ok(v) => Ok(v.get("workspace_root").and_then(|s| s.as_str()).map(|s| s.to_string())),
        Err(e) => Err(e),
    }
}

/// Why `cargo metadata` named no workspace root.
pub enum MetadataError {
    /// The output is not JSON.
    NotJson(serde_json::Error),
    /// The JSON has no string field `workspace_root`.
    NoWorkspaceRoot,
}

/// The workspace root that the output of
/// `cargo metadata --no-deps --format-version 1` names.
pub fn workspace_root(metadata: &[u8]) -> (r: Result<String, MetadataError>)
    ensures
        match r {
            Ok(s) => metadata_workspace_root(metadata@) == Some(Some(s@)),
            Err(MetadataError::NotJson(_)) => metadata_workspace_root(metadata@) is None,
            Err(MetadataError::NoWorkspaceRoot) => metadata_workspace_root(metadata@) == Some(
                None::<Seq<char>>,
            ),
        },
{
    match parse_metadata_root(metadata) {
        Ok(Some(s)) => Ok(s),
        Ok(None) => Err(MetadataError::NoWorkspaceRoot),
        Err(e) => Err(MetadataError::NotJson(e)),
    }
}

} // verus!
