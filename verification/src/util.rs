//! Path helpers, timestamps and hashing.

use vstd::prelude::*;
use crate::text::{chars_of, dec, push_char, push_dec, slice_copy, views};
use vstd::string::StringSliceAdditionalSpecFns;

verus! {

// ---------------------------------------------------------------------------
// FNV-1a
// ---------------------------------------------------------------------------

/// The FNV-1a 64-bit hash of the first `n` bytes.
pub open spec fn fnv_prefix(bytes: Seq<u8>, n: int) -> u64
    decreases n,
{
    if n <= 0 {
        0xcbf29ce484222325u64
    } else {
        let h = fnv_prefix(bytes, n - 1) ^ (bytes[n - 1] as u64);
        ((h as nat * 0x100000001b3nat) % 0x1_0000_0000_0000_0000nat) as u64
    }
}

/// The FNV-1a 64-bit hash of `bytes`.
pub open spec fn fnv_spec(bytes: Seq<u8>) -> u64 {
    fnv_prefix(bytes, bytes.len() as int)
}

/// A lowercase hexadecimal digit.
pub open spec fn hex_digit(d: nat) -> char {
    if d < 10 {
        (('0' as u32) + d) as char
    } else {
        (('a' as u32) + d - 10) as char
    }
}

/// The last `w` hexadecimal digits of `n`, zero-padded.
pub open spec fn hex_pad(n: nat, w: nat) -> Seq<char>
    decreases w,
{
    if w == 0 {
        Seq::empty()
    } else {
        hex_pad(n / 16, (w - 1) as nat).push(hex_digit(n % 16))
    }
}

/// `hex_pad(n, w)` has `w` characters, each a lowercase hex digit.
proof fn lemma_hex_pad_shape(n: nat, w: nat)
    ensures
        hex_pad(n, w).len() == w,
        forall|i: int|
            0 <= i < w ==> {
                let c = #[trigger] hex_pad(n, w)[i];
                ('0' <= c <= '9') || ('a' <= c <= 'f')
            },
    decreases w,
{
    if w > 0 {
        lemma_hex_pad_shape(n / 16, (w - 1) as nat);
        let d = n % 16;
        assert(d < 16);
        assert forall|i: int| 0 <= i < w implies {
            let c = #[trigger] hex_pad(n, w)[i];
            ('0' <= c <= '9') || ('a' <= c <= 'f')
        } by {
            if i == w - 1 {
                assert(hex_pad(n, w)[i] == hex_digit(d));
            } else {
                assert(hex_pad(n, w)[i] == hex_pad(n / 16, (w - 1) as nat)[i]);
            }
        }
    }
}

/// A staging file name is exactly 16 lowercase hexadecimal digits.
pub proof fn law_fnv1a_name_is_16_hex_digits(bytes: Seq<u8>)
    ensures
        hex_pad(fnv_spec(bytes) as nat, 16).len() == 16,
        forall|i: int|
            0 <= i < 16 ==> {
                let c = #[trigger] hex_pad(fnv_spec(bytes) as nat, 16)[i];
                ('0' <= c <= '9') || ('a' <= c <= 'f')
            },
{
    lemma_hex_pad_shape(fnv_spec(bytes) as nat, 16);
}

fn hex_digit_char(d: u64) -> (c: char)
    requires
        d < 16,
    ensures
        c == hex_digit(d as nat),
{
    if d < 10 {
        ((48u8 + d as u8) as char)
    } else {
        ((87u8 + d as u8) as char)
    }
}

/// Appends the last `w` hexadecimal digits of `n`, zero-padded.
pub fn push_hex(out: &mut String, n: u64, w: u64)
    ensures
        final(out)@ == old(out)@ + hex_pad(n as nat, w as nat),
    decreases w,
{
    if w > 0 {
        push_hex(out, n / 16, w - 1);
        push_char(out, hex_digit_char(n % 16));
        assert(old(out)@ + hex_pad((n / 16) as nat, (w - 1) as nat) + seq![hex_digit((n % 16) as nat)]
            =~= old(out)@ + hex_pad(n as nat, w as nat));
    } else {
        assert(old(out)@ + hex_pad(n as nat, w as nat) =~= old(out)@);
    }
}

/// The FNV-1a 64-bit hash of the UTF-8 bytes of `s`.
pub fn fnv1a_u64(s: &str) -> (h: u64)
    ensures
        h == fnv_spec(s.spec_bytes()),
{
    let bytes = s.as_bytes();
    let mut h: u64 = 0xcbf29ce484222325;
    let mut i: usize = 0;
    while i < bytes.len()
        invariant
            i <= bytes@.len(),
            bytes@ == s.spec_bytes(),
            h == fnv_prefix(bytes@, i as int),
        decreases bytes@.len() - i,
    {
        h ^= bytes[i] as u64;
        h = h.wrapping_mul(0x100000001b3);
        i += 1;
    }
    h
}

/// A tiny FNV-1a hash for deterministic staging filenames: 16 lowercase hex
/// digits.
pub fn fnv1a(s: &str) -> (r: String)
    ensures
        r@ == hex_pad(fnv_spec(s.spec_bytes()) as nat, 16),
{
    let h = fnv1a_u64(s);
    let mut r = String::new();
    push_hex(&mut r, h, 16);
    assert(Seq::<char>::empty() + hex_pad(h as nat, 16) =~= hex_pad(h as nat, 16));
    r
}


// ---------------------------------------------------------------------------
// Calendar dates
// ---------------------------------------------------------------------------

/// The proleptic Gregorian `(year, month, day)` of `z` days after
/// 1970-01-01 (Howard Hinnant's `civil_from_days`).
pub open spec fn civil_spec(z: int) -> (int, int, int) {
    let z1 = z + 719468;
    let era = z1 / 146097;
    let doe = z1 - era * 146097;
    let yoe = (doe - doe / 1460 + doe / 36524 - doe / 146096) / 365;
    let y = yoe + era * 400;
    let doy = doe - (365 * yoe + yoe / 4 - yoe / 100);
    let mp = (5 * doy + 2) / 153;
    let d = doy - (153 * mp + 2) / 5 + 1;
    let m = if mp < 10 {
        mp + 3
    } else {
        mp - 9
    };
    (if m <= 2 {
        y + 1
    } else {
        y
    }, m, d)
}

/// Every day number gives a real calendar date: a month from 1 to 12 and
/// a day from 1 to 31.
pub proof fn law_civil_date_in_range(z: int)
    ensures
        1 <= civil_spec(z).1 <= 12,
        1 <= civil_spec(z).2 <= 31,
{
    let z1 = z + 719468;
    let era = z1 / 146097;
    let doe = z1 - era * 146097;
    assert(0 <= doe < 146097) by (nonlinear_arith)
        requires
            era == z1 / 146097,
            doe == z1 - era * 146097,
    ;
    let yoe = (doe - doe / 1460 + doe / 36524 - doe / 146096) / 365;
    assert(0 <= yoe <= 399) by (nonlinear_arith)
        requires
            0 <= doe < 146097,
            yoe == (doe - doe / 1460 + doe / 36524 - doe / 146096) / 365,
    ;
    let doy = doe - (365 * yoe + yoe / 4 - yoe / 100);
    assert(0 <= doy <= 365) by (nonlinear_arith)
        requires
            0 <= doe < 146097,
            yoe == (doe - doe / 1460 + doe / 36524 - doe / 146096) / 365,
            doy == doe - (365 * yoe + yoe / 4 - yoe / 100),
    ;
    let mp = (5 * doy + 2) / 153;
    assert(0 <= mp <= 11);
    let d = doy - (153 * mp + 2) / 5 + 1;
    assert(1 <= d <= 31) by (nonlinear_arith)
        requires
            0 <= doy <= 365,
            mp == (5 * doy + 2) / 153,
            d == doy - (153 * mp + 2) / 5 + 1,
    ;
}

/// Convert days since the Unix epoch (1970-01-01) to a (year, month, day)
/// triple.
#[verifier::spinoff_prover]
pub fn civil_from_days(z: i64) -> (r: (i64, u32, u32))
    requires
        z + 719468 <= i64::MAX,
    ensures
        r.0 == civil_spec(z as int).0,
        r.1 == civil_spec(z as int).1,
        r.2 == civil_spec(z as int).2,
{
    let z = z + 719_468;
    let num = if z >= 0 {
        z
    } else {
        z - 146_096
    };
    let era = num / 146_097;
    assert(era == (z as int) / 146097);
    let doe = z - era * 146_097;
    assert(0 <= doe < 146097);
    let yoe = (doe - doe / 1460 + doe / 36_524 - doe / 146_096) / 365;
    assert(0 <= yoe <= 400);
    let y = yoe + era * 400;
    let doy = doe - (365 * yoe + yoe / 4 - yoe / 100);
    assert(0 <= doy);
    let mp = (5 * doy + 2) / 153;
    assert(0 <= mp);
    let dd = doy - (153 * mp + 2) / 5 + 1;
    assert(1 <= dd);
    let d = dd as u32;
    let mm = if mp < 10 {
        mp + 3
    } else {
        mp - 9
    };
    let m = mm as u32;
    (if m <= 2 {
        y + 1
    } else {
        y
    }, m, d)
}


/// `s` left-padded with zeros to width `w` (`format!("{:0w$}")`).
pub open spec fn pad0(s: Seq<char>, w: nat) -> Seq<char> {
    if s.len() >= w {
        s
    } else {
        Seq::new((w - s.len()) as nat, |i: int| '0') + s
    }
}

/// Appends `n` in decimal, zero-padded to width `w`.
pub fn push_dec_padded(out: &mut String, n: u64, w: usize)
    ensures
        final(out)@ == old(out)@ + pad0(dec(n as nat), w as nat),
{
    let mut digits = String::new();
    push_dec(&mut digits, n);
    assert(Seq::<char>::empty() + dec(n as nat) =~= dec(n as nat));
    let dc = chars_of(digits.as_str());
    let mut k: usize = dc.len();
    let ghost start = out@;
    while k < w
        invariant
            dc.len() <= k <= (if w > dc.len() { w } else { dc.len() }),
            out@ == start + Seq::new((k - dc.len()) as nat, |i: int| '0'),
        decreases w - k,
    {
        push_char(out, '0');
        assert(start + Seq::new((k - dc.len()) as nat, |i: int| '0').push('0') =~= start + Seq::new(
            (k + 1 - dc.len()) as nat,
            |i: int| '0',
        ));
        k += 1;
    }
    let ghost before = out@;
    crate::text::push_chars(out, dc.as_slice());
    proof {
        if dc@.len() >= w {
            assert(Seq::new(0nat, |i: int| '0') =~= Seq::<char>::empty());
            assert(out@ =~= start + pad0(dec(n as nat), w as nat));
        } else {
            assert(out@ =~= start + pad0(dec(n as nat), w as nat));
        }
    }
}

/// An RFC 3339 UTC timestamp (`2026-06-30T22:00:00Z`) of `secs` seconds
/// after the Unix epoch.
pub open spec fn rfc3339_spec(secs: nat) -> Seq<char> {
    let days = secs / 86400;
    let sod = secs % 86400;
    let date = civil_spec(days as int);
    pad0(dec(date.0 as nat), 4) + seq!['-'] + pad0(dec(date.1 as nat), 2) + seq!['-'] + pad0(
        dec(date.2 as nat),
        2,
    ) + seq!['T'] + pad0(dec(sod / 3600), 2) + seq![':'] + pad0(dec((sod % 3600) / 60), 2)
        + seq![':'] + pad0(dec(sod % 60), 2) + seq!['Z']
}

/// Format `secs` seconds after the Unix epoch as an RFC 3339 UTC string.
pub fn rfc3339_from_secs(secs: u64) -> (r: String)
    ensures
        r@ == rfc3339_spec(secs as nat),
{
    let days = (secs / 86_400) as i64;
    let sod = (secs % 86_400) as u32;
    let h = sod / 3600;
    let m = (sod % 3600) / 60;
    let s = sod % 60;
    let (y, mo, d) = civil_from_days(days);
    proof {
        lemma_civil_year_nonneg(days as int);
    }
    let mut out = String::new();
    push_dec_padded(&mut out, y as u64, 4);
    push_char(&mut out, '-');
    push_dec_padded(&mut out, mo as u64, 2);
    push_char(&mut out, '-');
    push_dec_padded(&mut out, d as u64, 2);
    push_char(&mut out, 'T');
    push_dec_padded(&mut out, h as u64, 2);
    push_char(&mut out, ':');
    push_dec_padded(&mut out, m as u64, 2);
    push_char(&mut out, ':');
    push_dec_padded(&mut out, s as u64, 2);
    push_char(&mut out, 'Z');
    assert(out@ =~= rfc3339_spec(secs as nat));
    out
}

/// Days on or after the epoch fall in a year that is not negative.
proof fn lemma_civil_year_nonneg(z: int)
    requires
        z >= 0,
    ensures
        civil_spec(z).0 >= 0,
        civil_spec(z).1 >= 0,
        civil_spec(z).2 >= 0,
{
}

/// Seconds since the Unix epoch, from `std::time::SystemTime::now()`;
/// 0 when the clock reads before the epoch. Nothing is claimed of the value:
/// it is the clock's.
#[verifier::external_body]
pub(crate) fn unix_secs_now() -> u64 {
    match std::time::SystemTime::now().duration_since(std::time::UNIX_EPOCH) {
        Ok(d) => d.as_secs(),
        Err(_) => 0,
    }
}

/// The current time as an RFC 3339 UTC string (e.g. 2026-06-30T22:00:00Z).
pub fn now_rfc3339() -> (r: String)
    ensures
        exists|secs: u64| r@ == rfc3339_spec(secs as nat),
{
    let secs = unix_secs_now();
    rfc3339_from_secs(secs)
}


// ---------------------------------------------------------------------------
// Paths
// ---------------------------------------------------------------------------

/// `s` split at every `'/'`, read from the left: the finished pieces and the
/// piece in progress.
pub open spec fn slash_state(s: Seq<char>) -> (Seq<Seq<char>>, Seq<char>)
    decreases s.len(),
{
    if s.len() == 0 {
        (Seq::empty(), Seq::empty())
    } else {
        let st = slash_state(s.drop_last());
        if s.last() == '/' {
            (st.0.push(st.1), Seq::empty())
        } else {
            (st.0, st.1.push(s.last()))
        }
    }
}

/// The pieces of `s` between slashes (empty pieces included).
pub open spec fn slash_pieces(s: Seq<char>) -> Seq<Seq<char>> {
    slash_state(s).0.push(slash_state(s).1)
}

/// The normal components after reading the first `n` pieces: empty pieces
/// and `.` are dropped, `..` removes the last normal component (if any).
pub open spec fn normal_from(pieces: Seq<Seq<char>>, n: int) -> Seq<Seq<char>>
    decreases n,
{
    if n <= 0 {
        Seq::empty()
    } else {
        let acc = normal_from(pieces, n - 1);
        let p = pieces[n - 1];
        if p.len() == 0 || p == seq!['.'] {
            acc
        } else if p == seq!['.', '.'] {
            if acc.len() > 0 {
                acc.drop_last()
            } else {
                acc
            }
        } else {
            acc.push(p)
        }
    }
}

/// The components of a path with `.` and `..` resolved lexically: a root
/// component `"/"` for an absolute path, then the normal components.
pub open spec fn path_comps(s: Seq<char>) -> Seq<Seq<char>> {
    let root: Seq<Seq<char>> = if s.len() > 0 && s[0] == '/' {
        seq![seq!['/']]
    } else {
        Seq::empty()
    };
    root + normal_from(slash_pieces(s), slash_pieces(s).len() as int)
}

/// The components joined with `'/'`.
pub open spec fn join_slash(c: Seq<Seq<char>>) -> Seq<char>
    decreases c.len(),
{
    if c.len() == 0 {
        Seq::empty()
    } else if c.len() == 1 {
        c[0]
    } else {
        join_slash(c.drop_last()) + seq!['/'] + c.last()
    }
}

/// The path with the given components.
pub open spec fn path_of(c: Seq<Seq<char>>) -> Seq<char> {
    if c.len() > 0 && c[0] == seq!['/'] {
        seq!['/'] + join_slash(c.drop_first())
    } else {
        join_slash(c)
    }
}

/// The pieces of `s` between slashes.
fn pieces_of(s: &Vec<char>) -> (r: Vec<Vec<char>>)
    ensures
        views(r@) == slash_pieces(s@),
{
    let mut r: Vec<Vec<char>> = Vec::new();
    let mut start: usize = 0;
    let mut i: usize = 0;
    while i < s.len()
        invariant
            start <= i <= s@.len(),
            slash_state(s@.take(i as int)).0 == views(r@),
            slash_state(s@.take(i as int)).1 == s@.subrange(start as int, i as int),
        decreases s@.len() - i,
    {
        assert(s@.take(i + 1).drop_last() =~= s@.take(i as int));
        if s[i] == '/' {
            let piece = slice_copy(s, start, i);
            r.push(piece);
            assert(views(r@) =~= slash_state(s@.take(i + 1)).0);
            start = i + 1;
            assert(s@.subrange(start as int, i + 1) =~= Seq::<char>::empty());
        } else {
            assert(s@.subrange(start as int, i as int).push(s@[i as int]) =~= s@.subrange(
                start as int,
                i + 1,
            ));
        }
        i += 1;
    }
    assert(s@.take(s@.len() as int) =~= s@);
    let last = slice_copy(s, start, s.len());
    r.push(last);
    assert(views(r@) =~= slash_pieces(s@));
    r
}

/// The components of `p` (see `path_comps`).
fn comps_of(p: &str) -> (r: Vec<Vec<char>>)
    ensures
        views(r@) == path_comps(p@),
{
    let cs = chars_of(p);
    let pieces = pieces_of(&cs);
    let ghost ps = slash_pieces(p@);
    let mut normals: Vec<Vec<char>> = Vec::new();
    let mut i: usize = 0;
    while i < pieces.len()
        invariant
            views(pieces@) == ps,
            i <= pieces@.len(),
            views(normals@) == normal_from(ps, i as int),
        decreases pieces@.len() - i,
    {
        let piece = &pieces[i];
        assert(piece@ == ps[i as int]);
        let len = piece.len();
        let is_dot = len == 1 && piece[0] == '.';
        let is_dotdot = len == 2 && piece[0] == '.' && piece[1] == '.';
        proof {
            if is_dot {
                assert(piece@ =~= seq!['.']);
            }
            if is_dotdot {
                assert(piece@ =~= seq!['.', '.']);
            }
            if piece@ == seq!['.'] {
                assert(is_dot);
            }
            if piece@ == seq!['.', '.'] {
                assert(is_dotdot);
            }
        }
        if len == 0 || is_dot {
        } else if is_dotdot {
            if normals.len() > 0 {
                normals.pop();
                assert(views(normals@) =~= normal_from(ps, i + 1));
            }
        } else {
            normals.push(slice_copy(piece, 0, len));
            assert(piece@.subrange(0, len as int) =~= piece@);
            assert(views(normals@) =~= normal_from(ps, i + 1));
        }
        i += 1;
    }
    let mut r: Vec<Vec<char>> = Vec::new();
    if cs.len() > 0 && cs[0] == '/' {
        let mut root: Vec<char> = Vec::new();
        root.push('/');
        r.push(root);
    }
    let ghost head = views(r@);
    r.append(&mut normals);
    assert(views(r@) =~= head + normal_from(ps, ps.len() as int));
    proof {
        if cs@.len() > 0 && cs@[0] == '/' {
            assert(head =~= seq![seq!['/']]);
        } else {
            assert(head =~= Seq::<Seq<char>>::empty());
        }
    }
    r
}

/// The path made of `c[from..]` (see `path_of`).
fn path_string(c: &Vec<Vec<char>>, from: usize) -> (r: String)
    requires
        from <= c@.len(),
    ensures
        r@ == path_of(views(c@).skip(from as int)),
{
    let ghost cs = views(c@).skip(from as int);
    let mut out = String::new();
    let mut i = from;
    let rooted = i < c.len() && c[i].len() == 1 && c[i][0] == '/';
    proof {
        if i < c@.len() {
            if rooted {
                assert(c@[i as int]@ =~= seq!['/']);
            }
            if cs[0] == seq!['/'] {
                assert(c@[i as int]@ == cs[0]);
                assert(c@[i as int]@.len() == 1);
            }
        }
    }
    if rooted {
        push_char(&mut out, '/');
        i += 1;
    }
    let ghost rest = views(c@).skip(i as int);
    let ghost prefix = out@;
    let first = i;
    while i < c.len()
        invariant
            first <= i <= c@.len(),
            rest == views(c@).skip(first as int),
            out@ == prefix + join_slash(rest.take(i - first)),
        decreases c@.len() - i,
    {
        assert(rest.take(i + 1 - first).drop_last() =~= rest.take(i - first));
        assert(rest[i - first] == c@[i as int]@);
        if i > first {
            push_char(&mut out, '/');
        }
        crate::text::push_chars(&mut out, c[i].as_slice());
        proof {
            if i == first {
                assert(rest.take(1) =~= seq![c@[i as int]@]);
            }
        }
        assert(out@ =~= prefix + join_slash(rest.take(i + 1 - first)));
        i += 1;
    }
    assert(rest.take(i - first) =~= rest);
    proof {
        if rooted {
            assert(cs.drop_first() =~= rest);
        } else {
            assert(rest =~= cs);
            assert(prefix =~= Seq::<char>::empty());
        }
    }
    out
}

/// `Path::join` on strings: `b` itself when it is absolute, else `a` and
/// `b` with one `/` between them (none after an empty `a` or one that
/// already ends in `/`).
pub open spec fn join_path_spec(a: Seq<char>, b: Seq<char>) -> Seq<char> {
    if b.len() > 0 && b[0] == '/' {
        b
    } else if a.len() == 0 || a.last() == '/' {
        a + b
    } else {
        a + seq!['/'] + b
    }
}

/// Executable `join_path_spec`.
pub fn join_path(a: &str, b: &str) -> (r: String)
    ensures
        r@ == join_path_spec(a@, b@),
{
    let av = chars_of(a);
    let bv = chars_of(b);
    if bv.len() > 0 && bv[0] == '/' {
        return b.to_owned();
    }
    let mut out = a.to_owned();
    if av.len() > 0 && av[av.len() - 1] != '/' {
        push_char(&mut out, '/');
    }
    out.append(b);
    out
}

/// `p` with `.` and `..` resolved lexically (see `path_comps`), without
/// touching the file system.
pub fn dunce(p: &str) -> (r: String)
    ensures
        r@ == path_of(path_comps(p@)),
{
    let c = comps_of(p);
    assert(views(c@).skip(0) =~= views(c@));
    path_string(&c, 0)
}

/// What `relativize` gives: the components of `path` after those of `root`,
/// when `root`'s components begin `path`'s.
pub open spec fn relativize_spec(path: Seq<char>, root: Seq<char>) -> Option<Seq<char>> {
    let p = path_comps(path);
    let r = path_comps(root);
    if r.len() <= p.len() && p.take(r.len() as int) == r {
        Some(path_of(p.skip(r.len() as int)))
    } else {
        None
    }
}

/// A path relative to itself is the empty path.
pub proof fn law_relativize_self(p: Seq<char>)
    ensures
        relativize_spec(p, p) == Some(Seq::<char>::empty()),
{
    let c = path_comps(p);
    assert(c.take(c.len() as int) =~= c);
    assert(c.skip(c.len() as int) =~= Seq::<Seq<char>>::empty());
}

/// No `'/'` in `x`.
pub open spec fn slash_free(x: Seq<char>) -> bool {
    forall|i: int| 0 <= i < x.len() ==> #[trigger] x[i] != '/'
}

/// A normal path component: not empty, not `.` or `..`, without `'/'`.
pub open spec fn normal_comp(x: Seq<char>) -> bool {
    &&& x.len() > 0
    &&& x != seq!['.']
    &&& x != seq!['.', '.']
    &&& slash_free(x)
}

/// Every component is normal.
pub open spec fn all_normal(c: Seq<Seq<char>>) -> bool {
    forall|i: int| 0 <= i < c.len() ==> normal_comp(#[trigger] c[i])
}

/// Components as `path_comps` gives them: a root component `"/"` first or
/// none, then normal components.
pub open spec fn comps_wf(c: Seq<Seq<char>>) -> bool {
    forall|i: int| 0 <= i < c.len() ==> (i == 0 && c[i] == seq!['/']) || normal_comp(#[trigger] c[i])
}

/// Appending text without `'/'` extends the piece in progress.
proof fn lemma_slash_word(p: Seq<char>, w: Seq<char>)
    requires
        slash_free(w),
    ensures
        slash_state(p + w) == (slash_state(p).0, slash_state(p).1 + w),
    decreases w.len(),
{
    if w.len() == 0 {
        assert(p + w =~= p);
        assert(slash_state(p).1 + w =~= slash_state(p).1);
    } else {
        lemma_slash_word(p, w.drop_last());
        assert((p + w).drop_last() =~= p + w.drop_last());
        assert((p + w).last() == w.last());
        assert(w[w.len() - 1] != '/');
        assert(slash_state(p).1 + w.drop_last() + seq![w.last()] =~= slash_state(p).1 + w);
        assert((slash_state(p).1 + w.drop_last()).push(w.last()) =~= slash_state(p).1 + w);
    }
}

/// Splitting a text whose last piece is closed, followed by more text.
proof fn lemma_slash_concat(z: Seq<char>, y: Seq<char>)
    requires
        slash_state(z).1.len() == 0,
    ensures
        slash_state(z + y) == (slash_state(z).0 + slash_state(y).0, slash_state(y).1),
    decreases y.len(),
{
    if y.len() == 0 {
        assert(z + y =~= z);
        assert(slash_state(z).0 + slash_state(y).0 =~= slash_state(z).0);
        assert(slash_state(z).1 =~= slash_state(y).1);
    } else {
        let y1 = y.drop_last();
        lemma_slash_concat(z, y1);
        assert((z + y).drop_last() =~= z + y1);
        assert((z + y).last() == y.last());
        let a = slash_state(z).0;
        let t = slash_state(y1);
        if y.last() == '/' {
            assert((a + t.0).push(t.1) =~= a + t.0.push(t.1));
        }
    }
}

/// The pieces of a split hold no `'/'`.
proof fn lemma_slash_pieces_free(s: Seq<char>)
    ensures
        forall|i: int| 0 <= i < slash_state(s).0.len() ==> slash_free(#[trigger] slash_state(s).0[i]),
        slash_free(slash_state(s).1),
    decreases s.len(),
{
    if s.len() > 0 {
        lemma_slash_pieces_free(s.drop_last());
        let st = slash_state(s.drop_last());
        if s.last() != '/' {
            assert forall|i: int| 0 <= i < st.1.push(s.last()).len() implies #[trigger] st.1.push(
                s.last(),
            )[i] != '/' by {
                if i < st.1.len() {
                    assert(st.1.push(s.last())[i] == st.1[i]);
                }
            }
        }
    }
}

/// `normal_from` reads only the first `n` pieces.
proof fn lemma_normal_prefix(a: Seq<Seq<char>>, b: Seq<Seq<char>>, n: int)
    requires
        0 <= n <= a.len(),
        n <= b.len(),
        forall|k: int| 0 <= k < n ==> a[k] == b[k],
    ensures
        normal_from(a, n) == normal_from(b, n),
    decreases n,
{
    if n > 0 {
        lemma_normal_prefix(a, b, n - 1);
    }
}

/// Normal pieces after others are kept as they are.
proof fn lemma_normal_append(a: Seq<Seq<char>>, b: Seq<Seq<char>>)
    requires
        all_normal(b),
    ensures
        normal_from(a + b, (a.len() + b.len()) as int) == normal_from(a, a.len() as int) + b,
    decreases b.len(),
{
    if b.len() == 0 {
        assert(a + b =~= a);
        assert(normal_from(a, a.len() as int) + b =~= normal_from(a, a.len() as int));
    } else {
        let b1 = b.drop_last();
        assert(all_normal(b1)) by {
            assert forall|i: int| 0 <= i < b1.len() implies normal_comp(#[trigger] b1[i]) by {
                assert(b1[i] == b[i]);
            }
        }
        lemma_normal_append(a, b1);
        let n = a.len() + b.len();
        lemma_normal_prefix(a + b, a + b1, n - 1);
        assert((a + b)[n - 1] == b.last());
        assert(normal_comp(b[b.len() - 1]));
        assert((normal_from(a, a.len() as int) + b1).push(b.last()) =~= normal_from(a, a.len() as int)
            + b);
    }
}

/// A trailing empty piece changes nothing.
proof fn lemma_normal_trailing_empty(a: Seq<Seq<char>>)
    ensures
        normal_from(a.push(Seq::empty()), a.len() + 1int) == normal_from(a, a.len() as int),
{
    lemma_normal_prefix(a.push(Seq::empty()), a, a.len() as int);
    assert(a.push(Seq::empty())[a.len() as int].len() == 0);
}

/// Pieces without `'/'` resolve to normal components.
proof fn lemma_normal_out(pieces: Seq<Seq<char>>, n: int)
    requires
        0 <= n <= pieces.len(),
        forall|k: int| 0 <= k < pieces.len() ==> slash_free(#[trigger] pieces[k]),
    ensures
        all_normal(normal_from(pieces, n)),
    decreases n,
{
    if n > 0 {
        lemma_normal_out(pieces, n - 1);
        let acc = normal_from(pieces, n - 1);
        let p = pieces[n - 1];
        if !(p.len() == 0 || p == seq!['.']) {
            if p == seq!['.', '.'] {
                if acc.len() > 0 {
                    assert forall|i: int| 0 <= i < acc.drop_last().len() implies normal_comp(
                        #[trigger] acc.drop_last()[i],
                    ) by {
                        assert(acc.drop_last()[i] == acc[i]);
                    }
                }
            } else {
                assert forall|i: int| 0 <= i < acc.push(p).len() implies normal_comp(
                    #[trigger] acc.push(p)[i],
                ) by {
                    if i < acc.len() {
                        assert(acc.push(p)[i] == acc[i]);
                    }
                }
            }
        }
    }
}

/// What `path_comps` gives is well formed.
proof fn lemma_comps_wf(s: Seq<char>)
    ensures
        comps_wf(path_comps(s)),
{
    lemma_slash_pieces_free(s);
    let pieces = slash_pieces(s);
    let st = slash_state(s);
    assert forall|k: int| 0 <= k < pieces.len() implies slash_free(#[trigger] pieces[k]) by {
        if k < st.0.len() {
            assert(pieces[k] == st.0[k]);
        }
    }
    lemma_normal_out(pieces, pieces.len() as int);
    let nf = normal_from(pieces, pieces.len() as int);
    let c = path_comps(s);
    if s.len() > 0 && s[0] == '/' {
        assert forall|i: int| 0 <= i < c.len() implies (i == 0 && c[i] == seq!['/']) || normal_comp(
            #[trigger] c[i],
        ) by {
            if i > 0 {
                assert(c[i] == nf[i - 1]);
            }
        }
    } else {
        assert(c =~= nf);
    }
}

/// Joined normal components split back into themselves; the text starts
/// with the first component's first character.
proof fn lemma_join_state(c: Seq<Seq<char>>)
    requires
        c.len() >= 1,
        all_normal(c),
    ensures
        slash_state(join_slash(c)) == (c.drop_last(), c.last()),
        join_slash(c).len() > 0,
        join_slash(c)[0] == c[0][0],
    decreases c.len(),
{
    assert(normal_comp(c[0]));
    if c.len() == 1 {
        let e: Seq<char> = Seq::empty();
        lemma_slash_word(e, c[0]);
        assert(e + c[0] =~= c[0]);
        assert(slash_state(e).1 + c[0] =~= c[0]);
        assert(c.drop_last() =~= Seq::<Seq<char>>::empty());
    } else {
        let c1 = c.drop_last();
        assert(all_normal(c1)) by {
            assert forall|i: int| 0 <= i < c1.len() implies normal_comp(#[trigger] c1[i]) by {
                assert(c1[i] == c[i]);
            }
        }
        lemma_join_state(c1);
        let j1 = join_slash(c1);
        let z = j1 + seq!['/'];
        assert(z.drop_last() =~= j1);
        assert(slash_state(z) == (c1.drop_last().push(c1.last()), Seq::<char>::empty()));
        assert(c1.drop_last().push(c1.last()) =~= c1);
        assert(normal_comp(c[c.len() - 1]));
        lemma_slash_word(z, c.last());
        assert(Seq::<char>::empty() + c.last() =~= c.last());
        assert(join_slash(c) == z + c.last());
        assert((z + c.last())[0] == j1[0]);
    }
}

/// Normal components joined with `'/'` read back as themselves.
proof fn lemma_relative_round(c: Seq<Seq<char>>)
    requires
        all_normal(c),
    ensures
        path_comps(join_slash(c)) == c,
        c.len() > 0 ==> join_slash(c).len() > 0 && join_slash(c)[0] != '/',
        c.len() == 0 ==> join_slash(c).len() == 0,
{
    let s = join_slash(c);
    if c.len() == 0 {
        let e: Seq<Seq<char>> = Seq::empty();
        assert(slash_pieces(s) =~= seq![Seq::<char>::empty()]);
        assert(slash_pieces(s)[0].len() == 0);
        assert(normal_from(slash_pieces(s), 0) =~= e);
        assert(normal_from(slash_pieces(s), 1) =~= e);
        assert(path_comps(s) =~= c);
    } else {
        lemma_join_state(c);
        assert(normal_comp(c[0]));
        assert(c[0][0] != '/');
        assert(slash_pieces(s) =~= c);
        let e: Seq<Seq<char>> = Seq::empty();
        lemma_normal_append(e, c);
        assert(e + c =~= c);
        assert(path_comps(s) =~= normal_from(c, c.len() as int));
    }
}

/// An absolute path of normal components reads back as its components.
proof fn lemma_absolute_round(rest: Seq<Seq<char>>)
    requires
        all_normal(rest),
    ensures
        path_comps(seq!['/'] + join_slash(rest)) == seq![seq!['/']] + rest,
{
    let s = seq!['/'] + join_slash(rest);
    let sl = seq!['/'];
    let e: Seq<char> = Seq::empty();
    assert(sl.drop_last() =~= e);
    assert(sl.last() == '/');
    assert(slash_state(e) == (Seq::<Seq<char>>::empty(), e));
    assert(Seq::<Seq<char>>::empty().push(e) =~= seq![e]);
    assert(slash_state(sl) == (seq![e], e));
    lemma_slash_concat(sl, join_slash(rest));
    let ee: Seq<Seq<char>> = seq![e];
    assert(ee[0].len() == 0);
    assert(normal_from(ee, 0) =~= Seq::<Seq<char>>::empty());
    assert(normal_from(ee, 1) =~= Seq::<Seq<char>>::empty());
    if rest.len() == 0 {
        assert(join_slash(rest) =~= e);
        assert(slash_pieces(s) =~= ee.push(e));
        lemma_normal_trailing_empty(ee);
        assert(path_comps(s) =~= seq![seq!['/']] + rest);
    } else {
        lemma_join_state(rest);
        assert(slash_pieces(s) =~= ee + rest);
        lemma_normal_append(ee, rest);
        assert(Seq::<Seq<char>>::empty() + rest =~= rest);
    }
}

/// Well-formed components read back as themselves.
proof fn lemma_path_round(c: Seq<Seq<char>>)
    requires
        comps_wf(c),
    ensures
        path_comps(path_of(c)) == c,
{
    if c.len() > 0 && c[0] == seq!['/'] {
        let rest = c.drop_first();
        assert(all_normal(rest)) by {
            assert forall|i: int| 0 <= i < rest.len() implies normal_comp(#[trigger] rest[i]) by {
                assert(rest[i] == c[i + 1]);
            }
        }
        lemma_absolute_round(rest);
        assert(seq![seq!['/']] + rest =~= c);
    } else {
        assert(all_normal(c)) by {
            assert forall|i: int| 0 <= i < c.len() implies normal_comp(#[trigger] c[i]) by {
                if i == 0 {
                    assert(c[i] != seq!['/']);
                }
            }
        }
        lemma_relative_round(c);
    }
}

/// Relativizing undoes joining: `relativize` succeeds exactly when the
/// components of `root` begin those of `path` (both with `.` and `..`
/// resolved), and then `root` joined with its result has the components of
/// `path`. The result is a relative path whenever `root` has a component
/// (an absolute `root` always does); a `root` without any, such as `""` or
/// `"."`, gives `path` back resolved, absolute if `path` is.
pub proof fn law_relativize_joins_back(path: Seq<char>, root: Seq<char>)
    ensures
        (relativize_spec(path, root) is Some) <==> path_comps(root).is_prefix_of(path_comps(path)),
        relativize_spec(path, root) matches Some(q) ==> path_comps(join_path_spec(root, q))
            == path_comps(path),
        relativize_spec(path, root) matches Some(q) ==> (path_comps(root).len() > 0 ==> !(q.len()
            > 0 && q[0] == '/')),
        relativize_spec(path, root) matches Some(q) ==> (path_comps(root).len() == 0 ==> q
            == path_of(path_comps(path))),
        root.len() > 0 && root[0] == '/' ==> path_comps(root).len() > 0,
{
    let p = path_comps(path);
    let r = path_comps(root);
    let n = r.len() as int;
    if r.len() <= p.len() {
        assert(p.take(n) =~= p.subrange(0, n));
    }
    if relativize_spec(path, root) is Some {
        let rel = p.skip(n);
        let q = path_of(rel);
        lemma_comps_wf(path);
        lemma_comps_wf(root);
        assert(comps_wf(rel)) by {
            assert forall|i: int| 0 <= i < rel.len() implies (i == 0 && rel[i] == seq!['/'])
                || normal_comp(#[trigger] rel[i]) by {
                assert(rel[i] == p[i + n]);
            }
        }
        lemma_path_round(rel);
        assert(r + rel =~= p);
        if q.len() > 0 && q[0] == '/' {
            if n > 0 {
                assert(all_normal(rel)) by {
                    assert forall|i: int| 0 <= i < rel.len() implies normal_comp(#[trigger] rel[i]) by {
                        assert(rel[i] == p[i + n]);
                    }
                }
                if rel.len() > 0 {
                    assert(seq!['/'][0] == '/');
                    assert(!slash_free(seq!['/']));
                    assert(rel[0] != seq!['/']);
                }
                lemma_relative_round(rel);
                assert(false);
            }
            assert(rel =~= p);
            assert(join_path_spec(root, q) == q);
        } else {
            assert(all_normal(rel)) by {
                assert forall|i: int| 0 <= i < rel.len() implies normal_comp(#[trigger] rel[i]) by {
                    assert(rel[i] == p[i + n]);
                    if i == 0 && rel[i] == seq!['/'] {
                        assert(q == seq!['/'] + join_slash(rel.drop_first()));
                        assert(q[0] == '/');
                    }
                }
            }
            if rel.len() > 0 {
                assert(seq!['/'][0] == '/');
                    assert(!slash_free(seq!['/']));
                assert(rel[0] != seq!['/']);
            }
            assert(q == join_slash(rel));
            lemma_relative_round(rel);
            if root.len() == 0 {
                let none: Seq<Seq<char>> = Seq::empty();
                lemma_relative_round(none);
                assert(join_slash(none) =~= root);
                assert(r =~= none);
                assert(rel =~= p);
                assert(join_path_spec(root, q) == q);
            } else {
                let e: Seq<char> = Seq::empty();
                let st = slash_state(root);
                let z = if root.last() == '/' {
                    root
                } else {
                    root + seq!['/']
                };
                assert(join_path_spec(root, q) == z + q);
                let a = slash_state(z).0;
                if root.last() == '/' {
                    assert(slash_state(z).1.len() == 0);
                    assert(slash_pieces(root) == a.push(e));
                    lemma_normal_trailing_empty(a);
                } else {
                    assert(z.drop_last() =~= root);
                    assert(z.last() == '/');
                    assert(a == slash_pieces(root));
                }
                assert(normal_from(a, a.len() as int) == normal_from(
                    slash_pieces(root),
                    slash_pieces(root).len() as int,
                ));
                lemma_slash_concat(z, q);
                let w = z + q;
                if rel.len() == 0 {
                    assert(q.len() == 0);
                    assert(slash_state(q) == (Seq::<Seq<char>>::empty(), e));
                    assert(slash_pieces(w) =~= a.push(e));
                    lemma_normal_trailing_empty(a);
                    assert(normal_from(a, a.len() as int) + rel =~= normal_from(a, a.len() as int));
                } else {
                    lemma_join_state(rel);
                    assert(slash_pieces(w) =~= a + rel);
                    lemma_normal_append(a, rel);
                }
                assert(normal_from(slash_pieces(w), slash_pieces(w).len() as int) == normal_from(
                    a,
                    a.len() as int,
                ) + rel);
                assert(w[0] == root[0]);
                assert(path_comps(w) =~= r + rel);
            }
        }
    }
}

/// Strip `root` from `path`, returning a relative path; `None` if `path` is
/// not under `root`. Both are compared component by component after `.`
/// and `..` are resolved lexically.
pub fn relativize(path: &str, root: &str) -> (r: Option<String>)
    ensures
        match r {
            Some(s) => relativize_spec(path@, root@) == Some(s@),
            None => relativize_spec(path@, root@) is None,
        },
{
    let p = comps_of(path);
    let r = comps_of(root);
    let ghost pv = views(p@);
    let ghost rv = views(r@);
    if r.len() > p.len() {
        return None;
    }
    let mut i: usize = 0;
    while i < r.len()
        invariant
            r@.len() <= p@.len(),
            i <= r@.len(),
            pv == views(p@),
            rv == views(r@),
            pv == path_comps(path@),
            rv == path_comps(root@),
            forall|k: int| 0 <= k < i ==> pv[k] == rv[k],
        decreases r@.len() - i,
    {
        if !crate::text::chars_eq(p[i].as_slice(), r[i].as_slice()) {
            assert(pv[i as int] == p@[i as int]@);
            assert(rv[i as int] == r@[i as int]@);
            assert(pv.take(rv.len() as int)[i as int] != rv[i as int]);
            assert(pv.take(rv.len() as int) != rv);
            return None;
        }
        i += 1;
    }
    assert(pv.take(rv.len() as int) =~= rv);
    Some(path_string(&p, r.len()))
}

// ---------------------------------------------------------------------------
// Content fingerprints
// ---------------------------------------------------------------------------

/// What `blake3::hash(data).to_hex()` gives.
pub uninterp spec fn blake3_hex(data: Seq<u8>) -> Seq<char>;

/// Calls `blake3::hash` and renders the digest in hex. The contract claims
/// only that the result is a function of `data` (`blake3_hex`).
#[verifier::external_body]
fn blake3_digest_hex(data: &[u8]) -> (r: String)
    ensures
        r@ == blake3_hex(data@),
{
    blake3::hash(data).to_hex().to_string()
}

/// Content fingerprint of a file's bytes (blake3, hex): any change to a
/// built test binary gives it a different fingerprint.
pub fn fingerprint_bytes(data: &[u8]) -> (r: String)
    ensures
        r@ == blake3_hex(data@),
{
    blake3_digest_hex(data)
}

} // verus!
