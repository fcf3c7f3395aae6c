//! Character-level text helpers shared by the parsers and renderers.
//!
//! Strings are modelled by their view, a `Seq<char>`. The spec functions here
//! state what the standard library's string operations used by this crate
//! compute (`lines`, `trim`, `split_once`, integer `parse`, decimal
//! formatting), and the executable functions are proved against them.

use vstd::prelude::*;
use vstd::std_specs::iter::IteratorSpec;

verus! {

/// `String::push`: appends one character.
#[verifier::external_body]
pub(crate) fn push_char(s: &mut String, c: char)
    ensures
        final(s)@ == old(s)@.push(c),
{
    s.push(c);
}

/// The characters of `s`, in order.
pub fn chars_of(s: &str) -> (v: Vec<char>)
    ensures
        v@ == s@,
{
    let mut v: Vec<char> = Vec::new();
    for c in it: s.chars()
        invariant
            v@ == it.seq().take(it.index()),
    {
        v.push(c);
    }
    v
}


/// The characters of `v`, as a `String`.
pub fn string_of(v: &[char]) -> (s: String)
    ensures
        s@ == v@,
{
    let mut s = String::new();
    let mut i: usize = 0;
    while i < v.len()
        invariant
            i <= v@.len(),
            s@ == v@.take(i as int),
        decreases v@.len() - i,
    {
        push_char(&mut s, v[i]);
        assert(v@.take(i as int).push(v@[i as int]) =~= v@.take(i + 1));
        i += 1;
    }
    assert(v@.take(v@.len() as int) =~= v@);
    s
}

/// Appends every character of `v` to `s`.
pub fn push_chars(s: &mut String, v: &[char])
    ensures
        final(s)@ == old(s)@ + v@,
{
    let mut i: usize = 0;
    while i < v.len()
        invariant
            i <= v@.len(),
            s@ == old(s)@ + v@.take(i as int),
        decreases v@.len() - i,
    {
        push_char(s, v[i]);
        assert(old(s)@ + v@.take(i as int).push(v@[i as int]) =~= old(s)@ + v@.take(i + 1));
        i += 1;
    }
    assert(v@.take(v@.len() as int) =~= v@);
}

// ---------------------------------------------------------------------------
// Whitespace and trimming
// ---------------------------------------------------------------------------

/// The characters `char::is_whitespace` accepts: Unicode `White_Space`.
pub open spec fn is_ws(c: char) -> bool {
    let u = c as u32;
    ||| 0x09 <= u <= 0x0D
    ||| u == 0x20
    ||| u == 0x85
    ||| u == 0xA0
    ||| u == 0x1680
    ||| 0x2000 <= u <= 0x200A
    ||| u == 0x2028
    ||| u == 0x2029
    ||| u == 0x202F
    ||| u == 0x205F
    ||| u == 0x3000
}

/// Executable `is_ws`.
pub fn char_is_ws(c: char) -> (r: bool)
    ensures
        r == is_ws(c),
{
    let u = c as u32;
    (0x09 <= u && u <= 0x0D) || u == 0x20 || u == 0x85 || u == 0xA0 || u == 0x1680 || (0x2000
        <= u && u <= 0x200A) || u == 0x2028 || u == 0x2029 || u == 0x202F || u == 0x205F || u
        == 0x3000
}

/// `str::trim_start`: drops leading whitespace.
pub open spec fn trim_start(s: Seq<char>) -> Seq<char>
    decreases s.len(),
{
    if s.len() > 0 && is_ws(s[0]) {
        trim_start(s.drop_first())
    } else {
        s
    }
}

/// `str::trim_end`: drops trailing whitespace.
pub open spec fn trim_end(s: Seq<char>) -> Seq<char>
    decreases s.len(),
{
    if s.len() > 0 && is_ws(s.last()) {
        trim_end(s.drop_last())
    } else {
        s
    }
}

/// `str::trim`: drops leading and trailing whitespace.
pub open spec fn trim(s: Seq<char>) -> Seq<char> {
    trim_end(trim_start(s))
}

/// Index where `trim_start(s.skip(from))` begins.
fn trim_start_index(s: &Vec<char>, from: usize) -> (k: usize)
    requires
        from <= s@.len(),
    ensures
        from <= k <= s@.len(),
        trim_start(s@.skip(from as int)) == s@.skip(k as int),
{
    let mut k = from;
    while k < s.len() && char_is_ws(s[k])
        invariant
            from <= k <= s@.len(),
            trim_start(s@.skip(from as int)) == trim_start(s@.skip(k as int)),
        decreases s@.len() - k,
    {
        assert(s@.skip(k as int).drop_first() =~= s@.skip(k + 1));
        k += 1;
    }
    k
}

/// Index where `trim_end(s.subrange(from, to))` ends.
fn trim_end_index(s: &Vec<char>, from: usize, to: usize) -> (k: usize)
    requires
        from <= to <= s@.len(),
    ensures
        from <= k <= to,
        trim_end(s@.subrange(from as int, to as int)) == s@.subrange(from as int, k as int),
{
    let mut k = to;
    while k > from && char_is_ws(s[k - 1])
        invariant
            from <= k <= to,
            to <= s@.len(),
            trim_end(s@.subrange(from as int, to as int)) == trim_end(
                s@.subrange(from as int, k as int),
            ),
        decreases k,
    {
        assert(s@.subrange(from as int, k as int).drop_last() =~= s@.subrange(
            from as int,
            k - 1,
        ));
        k -= 1;
    }
    k
}

/// `s.trim()` as an owned string.
pub fn trim_string(s: &str) -> (r: String)
    ensures
        r@ == trim(s@),
{
    let v = chars_of(s);
    let (a, b) = trim_bounds(&v, 0, v.len());
    assert(v@.subrange(0, v@.len() as int) =~= v@);
    slice_string(&v, a, b)
}

/// Bounds of `trim(s.subrange(from, to))` inside `s`.
pub fn trim_bounds(s: &Vec<char>, from: usize, to: usize) -> (r: (usize, usize))
    requires
        from <= to <= s@.len(),
    ensures
        from <= r.0 <= r.1 <= to,
        trim(s@.subrange(from as int, to as int)) == s@.subrange(r.0 as int, r.1 as int),
{
    let a = trim_start_index(s, from);
    proof {
        lemma_trim_start_subrange(s@, from as int, to as int);
    }
    let a2 = if a > to { to } else { a };
    let b = trim_end_index(s, a2, to);
    (a2, b)
}

proof fn lemma_trim_start_subrange(s: Seq<char>, from: int, to: int)
    requires
        0 <= from <= to <= s.len(),
    ensures
        ({
            let k = s.len() - trim_start(s.skip(from)).len();
            &&& from <= k <= s.len()
            &&& trim_start(s.subrange(from, to)) == if k <= to {
                s.subrange(k, to)
            } else {
                s.subrange(to, to)
            }
        }),
    decreases to - from,
{
    lemma_trim_start_suffix(s.skip(from));
    if from < to && is_ws(s[from]) {
        assert(s.subrange(from, to).drop_first() =~= s.subrange(from + 1, to));
        assert(s.skip(from).drop_first() =~= s.skip(from + 1));
        lemma_trim_start_subrange(s, from + 1, to);
    } else if from == to {
        lemma_trim_start_suffix(s.skip(from));
        let k = s.len() - trim_start(s.skip(from)).len();
        assert(s.subrange(from, to) =~= s.subrange(to, to));
        if k <= to {
            assert(s.subrange(k, to) =~= s.subrange(to, to));
        }
    } else {
        assert(trim_start(s.skip(from)) == s.skip(from));
    }
}

/// `trim_start(s)` is a suffix of `s`.
pub proof fn lemma_trim_start_suffix(s: Seq<char>)
    ensures
        trim_start(s).len() <= s.len(),
        trim_start(s) == s.skip(s.len() - trim_start(s).len()),
    decreases s.len(),
{
    if s.len() > 0 && is_ws(s[0]) {
        lemma_trim_start_suffix(s.drop_first());
        assert(s.drop_first().skip(s.drop_first().len() - trim_start(s.drop_first()).len())
            =~= s.skip(s.len() - trim_start(s).len()));
    } else {
        assert(s.skip(0) =~= s);
    }
}


// ---------------------------------------------------------------------------
// Slices of a character vector
// ---------------------------------------------------------------------------

/// A copy of `s[from..to]`.
pub fn slice_copy(s: &Vec<char>, from: usize, to: usize) -> (v: Vec<char>)
    requires
        from <= to <= s@.len(),
    ensures
        v@ == s@.subrange(from as int, to as int),
{
    let mut v: Vec<char> = Vec::new();
    let mut i = from;
    while i < to
        invariant
            from <= i <= to <= s@.len(),
            v@ == s@.subrange(from as int, i as int),
        decreases to - i,
    {
        v.push(s[i]);
        assert(s@.subrange(from as int, i as int).push(s@[i as int]) =~= s@.subrange(
            from as int,
            i + 1,
        ));
        i += 1;
    }
    v
}

/// The string `s[from..to]`.
pub fn slice_string(s: &Vec<char>, from: usize, to: usize) -> (r: String)
    requires
        from <= to <= s@.len(),
    ensures
        r@ == s@.subrange(from as int, to as int),
{
    let v = slice_copy(s, from, to);
    string_of(v.as_slice())
}

/// Whether `s` holds `pat` starting at index `i`.
pub open spec fn has_at(s: Seq<char>, i: int, pat: Seq<char>) -> bool {
    0 <= i && i + pat.len() <= s.len() && s.subrange(i, i + pat.len()) == pat
}

/// `str::starts_with` for a literal prefix.
pub open spec fn starts_with(s: Seq<char>, pat: Seq<char>) -> bool {
    has_at(s, 0, pat)
}

/// `str::ends_with` for a literal suffix.
pub open spec fn ends_with(s: Seq<char>, pat: Seq<char>) -> bool {
    has_at(s, s.len() - pat.len(), pat)
}

/// The first index at or after `i` where `pat` occurs in `s`.
pub open spec fn find_from(s: Seq<char>, pat: Seq<char>, i: int) -> Option<int>
    decreases s.len() + 1 - i,
{
    if i < 0 || i + pat.len() > s.len() {
        None
    } else if has_at(s, i, pat) {
        Some(i)
    } else {
        find_from(s, pat, i + 1)
    }
}

/// `str::find`: the first index where `pat` occurs in `s`.
pub open spec fn find(s: Seq<char>, pat: Seq<char>) -> Option<int> {
    find_from(s, pat, 0)
}

/// `str::contains`.
pub open spec fn contains(s: Seq<char>, pat: Seq<char>) -> bool {
    find(s, pat) is Some
}

/// The last index below `k` where `pat` occurs in `s`.
pub open spec fn rfind_below(s: Seq<char>, pat: Seq<char>, k: int) -> Option<int>
    decreases k,
{
    if k <= 0 {
        None
    } else if has_at(s, k - 1, pat) {
        Some(k - 1)
    } else {
        rfind_below(s, pat, k - 1)
    }
}

/// `str::rfind`: the last index where `pat` occurs in `s`.
pub open spec fn rfind(s: Seq<char>, pat: Seq<char>) -> Option<int> {
    rfind_below(s, pat, s.len() - pat.len() + 1)
}

/// A match found by `find_from` is a match, and the first one from `i`.
pub proof fn lemma_find_from(s: Seq<char>, pat: Seq<char>, i: int)
    requires
        0 <= i,
    ensures
        match find_from(s, pat, i) {
            Some(k) => i <= k && has_at(s, k, pat) && forall|j: int|
                i <= j < k ==> !has_at(s, j, pat),
            None => forall|j: int| i <= j ==> !has_at(s, j, pat),
        },
    decreases s.len() + 1 - i,
{
    if i + pat.len() > s.len() {
    } else if has_at(s, i, pat) {
    } else {
        lemma_find_from(s, pat, i + 1);
    }
}

/// A match found by `rfind_below` is a match, and the last one below `k`.
pub proof fn lemma_rfind_below(s: Seq<char>, pat: Seq<char>, k: int)
    ensures
        match rfind_below(s, pat, k) {
            Some(i) => i < k && has_at(s, i, pat) && forall|j: int|
                i < j < k ==> !has_at(s, j, pat),
            None => forall|j: int| 0 <= j < k ==> !has_at(s, j, pat),
        },
    decreases k,
{
    if k > 0 && !has_at(s, k - 1, pat) {
        lemma_rfind_below(s, pat, k - 1);
    }
}

/// Whether `s` holds `pat` at `i`.
pub fn matches_at(s: &[char], i: usize, pat: &[char]) -> (r: bool)
    ensures
        r == has_at(s@, i as int, pat@),
{
    if i > s.len() || pat.len() > s.len() - i {
        return false;
    }
    let n = s.len();
    let mut j: usize = 0;
    while j < pat.len()
        invariant
            n == s@.len(),
            i + pat@.len() <= s@.len(),
            j <= pat@.len(),
            i + j <= s@.len(),
            forall|k: int| 0 <= k < j ==> s@[i + k] == pat@[k],
        decreases pat@.len() - j,
    {
        if s[i + j] != pat[j] {
            assert(s@.subrange(i as int, i + pat@.len())[j as int] != pat@[j as int]);
            return false;
        }
        j += 1;
    }
    assert(s@.subrange(i as int, i + pat@.len()) =~= pat@);
    true
}

/// `str::find` on a character slice.
pub fn find_in(s: &[char], pat: &[char]) -> (r: Option<usize>)
    ensures
        match r {
            Some(i) => find(s@, pat@) == Some(i as int) && has_at(s@, i as int, pat@),
            None => find(s@, pat@) is None,
        },
{
    proof {
        lemma_find_from(s@, pat@, 0);
    }
    if pat.len() == 0 {
        assert(s@.subrange(0, 0) =~= pat@);
        return Some(0);
    }
    let mut i: usize = 0;
    while pat.len() <= s.len() - i
        invariant
            i <= s@.len(),
            pat@.len() > 0,
            find(s@, pat@) == find_from(s@, pat@, i as int),
        decreases s@.len() + 1 - i,
    {
        if matches_at(s, i, pat) {
            return Some(i);
        }
        i += 1;
    }
    None
}

/// `str::rfind` on a character slice.
pub fn rfind_in(s: &[char], pat: &[char]) -> (r: Option<usize>)
    ensures
        match r {
            Some(i) => rfind(s@, pat@) == Some(i as int) && has_at(s@, i as int, pat@),
            None => rfind(s@, pat@) is None,
        },
{
    proof {
        lemma_rfind_below(s@, pat@, s@.len() - pat@.len() + 1);
    }
    if pat.len() > s.len() {
        return None;
    }
    if pat.len() == 0 {
        assert(s@.subrange(s@.len() as int, s@.len() as int) =~= pat@);
        return Some(s.len());
    }
    let mut k: usize = s.len() - pat.len() + 1;
    while k > 0
        invariant
            k <= s@.len() - pat@.len() + 1,
            rfind(s@, pat@) == rfind_below(s@, pat@, k as int),
        decreases k,
    {
        if matches_at(s, k - 1, pat) {
            return Some(k - 1);
        }
        k -= 1;
    }
    None
}

/// `str::contains` on a character slice.
pub fn contains_in(s: &[char], pat: &[char]) -> (r: bool)
    ensures
        r == contains(s@, pat@),
{
    find_in(s, pat).is_some()
}

/// `str::starts_with` on a character slice.
pub fn starts_with_in(s: &[char], pat: &[char]) -> (r: bool)
    ensures
        r == starts_with(s@, pat@),
{
    matches_at(s, 0, pat)
}

/// `str::ends_with` on a character slice.
pub fn ends_with_in(s: &[char], pat: &[char]) -> (r: bool)
    ensures
        r == ends_with(s@, pat@),
{
    if pat.len() > s.len() {
        false
    } else {
        matches_at(s, s.len() - pat.len(), pat)
    }
}

/// Whether two character slices are equal.
pub fn chars_eq(a: &[char], b: &[char]) -> (r: bool)
    ensures
        r == (a@ == b@),
{
    if a.len() != b.len() {
        return false;
    }
    let r = matches_at(a, 0, b);
    assert(a@.subrange(0, b@.len() as int) =~= a@);
    r
}

// ---------------------------------------------------------------------------
// Lines
// ---------------------------------------------------------------------------

/// Drops one trailing carriage return.
pub open spec fn strip_cr(l: Seq<char>) -> Seq<char> {
    if l.len() > 0 && l.last() == '\r' {
        l.drop_last()
    } else {
        l
    }
}

/// The lines finished so far and the line in progress, reading `s` from the
/// left: a `'\n'` ends the current line (and a `'\r'` just before it).
pub open spec fn lines_state(s: Seq<char>) -> (Seq<Seq<char>>, Seq<char>)
    decreases s.len(),
{
    if s.len() == 0 {
        (Seq::empty(), Seq::empty())
    } else {
        let st = lines_state(s.drop_last());
        if s.last() == '\n' {
            (st.0.push(strip_cr(st.1)), Seq::empty())
        } else {
            (st.0, st.1.push(s.last()))
        }
    }
}

/// `str::lines`: lines end at `'\n'` or `"\r\n"`; a last line without a line
/// ending counts when it is not empty.
pub open spec fn lines_of(s: Seq<char>) -> Seq<Seq<char>> {
    let st = lines_state(s);
    if st.1.len() > 0 {
        st.0.push(st.1)
    } else {
        st.0
    }
}

/// The views of a sequence of character vectors.
pub open spec fn views(v: Seq<Vec<char>>) -> Seq<Seq<char>> {
    v.map_values(|x: Vec<char>| x@)
}

/// The lines of `s` (see `lines_of`), each as its own vector.
pub fn split_lines(s: &Vec<char>) -> (r: Vec<Vec<char>>)
    ensures
        views(r@) == lines_of(s@),
{
    let mut r: Vec<Vec<char>> = Vec::new();
    let mut start: usize = 0;
    let mut i: usize = 0;
    while i < s.len()
        invariant
            start <= i <= s@.len(),
            lines_state(s@.take(i as int)).0 == views(r@),
            lines_state(s@.take(i as int)).1 == s@.subrange(start as int, i as int),
        decreases s@.len() - i,
    {
        assert(s@.take(i + 1).drop_last() =~= s@.take(i as int));
        if s[i] == '\n' {
            let end = if i > start && s[i - 1] == '\r' {
                i - 1
            } else {
                i
            };
            let line = slice_copy(s, start, end);
            proof {
                let cur = s@.subrange(start as int, i as int);
                if i > start && s@[i - 1] == '\r' {
                    assert(cur.drop_last() =~= s@.subrange(start as int, end as int));
                } else {
                    assert(cur =~= s@.subrange(start as int, end as int));
                }
            }
            r.push(line);
            assert(views(r@) =~= lines_state(s@.take(i + 1)).0);
            start = i + 1;
            assert(s@.subrange(start as int, i + 1) =~= Seq::<char>::empty());
        } else {
            assert(s@.subrange(start as int, i as int).push(s@[i as int]) =~= s@.subrange(
                start as int,
                i + 1,
            ));
        }
        i += 1;
    }
    assert(s@.take(s@.len() as int) =~= s@);
    if start < s.len() {
        let line = slice_copy(s, start, s.len());
        r.push(line);
        assert(views(r@) =~= lines_of(s@));
    }
    r
}

// ---------------------------------------------------------------------------
// Integers: `str::parse` and decimal formatting
// ---------------------------------------------------------------------------

/// An ASCII decimal digit.
pub open spec fn is_digit(c: char) -> bool {
    '0' as u32 <= c as u32 <= '9' as u32
}

/// The value of a digit character.
pub open spec fn digit_val(c: char) -> nat {
    (c as u32 - '0' as u32) as nat
}

/// Every character is an ASCII digit.
pub open spec fn all_digits(s: Seq<char>) -> bool {
    forall|i: int| 0 <= i < s.len() ==> is_digit(#[trigger] s[i])
}

/// The number a digit string denotes.
pub open spec fn digits_value(s: Seq<char>) -> nat
    decreases s.len(),
{
    if s.len() == 0 {
        0
    } else {
        digits_value(s.drop_last()) * 10 + digit_val(s.last())
    }
}

/// What an unsigned `from_str` reads: a non-empty string that is not a lone
/// sign, with an optional leading `'+'`, then only digits.
pub open spec fn unsigned_digits(s: Seq<char>) -> Option<Seq<char>> {
    if s.len() == 0 || (s.len() == 1 && (s[0] == '+' || s[0] == '-')) {
        None
    } else {
        let d = if s[0] == '+' {
            s.drop_first()
        } else {
            s
        };
        if all_digits(d) {
            Some(d)
        } else {
            None
        }
    }
}

/// `str::parse` for an unsigned integer type whose largest value is `max`.
pub open spec fn parse_unsigned(s: Seq<char>, max: nat) -> Option<nat> {
    match unsigned_digits(s) {
        Some(d) => if digits_value(d) <= max {
            Some(digits_value(d))
        } else {
            None
        },
        None => None,
    }
}

/// `str::parse::<i64>`: an optional sign, then at least one digit, in range.
pub open spec fn parse_i64_spec(s: Seq<char>) -> Option<int> {
    if s.len() == 0 || (s.len() == 1 && (s[0] == '+' || s[0] == '-')) {
        None
    } else if s[0] == '-' {
        let d = s.drop_first();
        if all_digits(d) && digits_value(d) <= 0x8000_0000_0000_0000 {
            Some(-digits_value(d))
        } else {
            None
        }
    } else {
        let d = if s[0] == '+' {
            s.drop_first()
        } else {
            s
        };
        if all_digits(d) && digits_value(d) <= 0x7FFF_FFFF_FFFF_FFFF {
            Some(digits_value(d) as int)
        } else {
            None
        }
    }
}

/// A longer digit string never denotes a smaller number.
proof fn lemma_digits_value_grows(s: Seq<char>, k: int)
    requires
        0 <= k <= s.len(),
        all_digits(s),
    ensures
        digits_value(s.take(k)) <= digits_value(s),
    decreases s.len() - k,
{
    if k < s.len() {
        lemma_digits_value_grows(s, k + 1);
        assert(s.take(k + 1).drop_last() =~= s.take(k));
    } else {
        assert(s.take(k) =~= s);
    }
}

/// The value of the digits `s[from..to]` when they are all digits and the
/// value is at most `max`; `None` otherwise.
pub fn parse_digits(s: &[char], from: usize, to: usize, max: u64) -> (r: Option<u64>)
    requires
        from <= to <= s@.len(),
        max >= 9,
    ensures
        ({
            let d = s@.subrange(from as int, to as int);
            match r {
                Some(v) => all_digits(d) && digits_value(d) <= max && v == digits_value(d),
                None => !(all_digits(d) && digits_value(d) <= max),
            }
        }),
{
    let ghost d = s@.subrange(from as int, to as int);
    let mut v: u64 = 0;
    let mut i = from;
    while i < to
        invariant
            from <= i <= to <= s@.len(),
            d == s@.subrange(from as int, to as int),
            all_digits(d.take(i - from)),
            v == digits_value(d.take(i - from)),
            v <= max,
            max >= 9,
        decreases to - i,
    {
        let c = s[i];
        assert(d[i - from] == c);
        let u = c as u32;
        if !(48 <= u && u <= 57) {
            assert(!is_digit(d[i - from]));
            return None;
        }
        let dv = (u - 48) as u64;
        assert(d.take(i - from + 1).drop_last() =~= d.take(i - from));
        if v > (max - dv) / 10 {
            proof {
                if all_digits(d) {
                    lemma_digits_value_grows(d, i - from + 1);
                }
            }
            return None;
        }
        v = v * 10 + dv;
        i += 1;
    }
    assert(d.take(to - from) =~= d);
    Some(v)
}

/// `str::parse::<u32>` on `s[from..to]`.
pub fn parse_u32_in(s: &[char], from: usize, to: usize) -> (r: Option<u32>)
    requires
        from <= to <= s@.len(),
    ensures
        match r {
            Some(v) => parse_unsigned(s@.subrange(from as int, to as int), u32::MAX as nat) == Some(
                v as nat,
            ),
            None => parse_unsigned(s@.subrange(from as int, to as int), u32::MAX as nat) is None,
        },
{
    match parse_unsigned_in(s, from, to, u32::MAX as u64) {
        Some(v) => Some(v as u32),
        None => None,
    }
}

/// `str::parse::<u64>` on `s[from..to]`.
pub fn parse_u64_in(s: &[char], from: usize, to: usize) -> (r: Option<u64>)
    requires
        from <= to <= s@.len(),
    ensures
        match r {
            Some(v) => parse_unsigned(s@.subrange(from as int, to as int), u64::MAX as nat) == Some(
                v as nat,
            ),
            None => parse_unsigned(s@.subrange(from as int, to as int), u64::MAX as nat) is None,
        },
{
    parse_unsigned_in(s, from, to, u64::MAX)
}

/// `parse_unsigned` with largest value `max`, on `s[from..to]`.
fn parse_unsigned_in(s: &[char], from: usize, to: usize, max: u64) -> (r: Option<u64>)
    requires
        from <= to <= s@.len(),
        max >= 9,
    ensures
        match r {
            Some(v) => v <= max && parse_unsigned(s@.subrange(from as int, to as int), max as nat)
                == Some(v as nat),
            None => parse_unsigned(s@.subrange(from as int, to as int), max as nat) is None,
        },
{
    let ghost t = s@.subrange(from as int, to as int);
    if from == to {
        return None;
    }
    if to - from == 1 && (s[from] == '+' || s[from] == '-') {
        return None;
    }
    let start = if s[from] == '+' {
        from + 1
    } else {
        from
    };
    proof {
        if s@[from as int] == '+' {
            assert(t.drop_first() =~= s@.subrange(start as int, to as int));
        } else {
            assert(t =~= s@.subrange(start as int, to as int));
        }
    }
    parse_digits(s, start, to, max)
}

/// `str::parse::<i64>` on `s[from..to]`.
pub fn parse_i64_in(s: &[char], from: usize, to: usize) -> (r: Option<i64>)
    requires
        from <= to <= s@.len(),
    ensures
        match r {
            Some(v) => parse_i64_spec(s@.subrange(from as int, to as int)) == Some(v as int),
            None => parse_i64_spec(s@.subrange(from as int, to as int)) is None,
        },
{
    let ghost t = s@.subrange(from as int, to as int);
    if from == to {
        return None;
    }
    if to - from == 1 && (s[from] == '+' || s[from] == '-') {
        return None;
    }
    if s[from] == '-' {
        assert(t.drop_first() =~= s@.subrange(from + 1, to as int));
        match parse_digits(s, from + 1, to, 0x8000_0000_0000_0000u64) {
            Some(v) => {
                if v == 0x8000_0000_0000_0000u64 {
                    Some(i64::MIN)
                } else {
                    Some(-(v as i64))
                }
            },
            None => None,
        }
    } else {
        let start = if s[from] == '+' {
            from + 1
        } else {
            from
        };
        proof {
            if s@[from as int] == '+' {
                assert(t.drop_first() =~= s@.subrange(start as int, to as int));
            } else {
                assert(t =~= s@.subrange(start as int, to as int));
            }
        }
        match parse_digits(s, start, to, 0x7FFF_FFFF_FFFF_FFFFu64) {
            Some(v) => Some(v as i64),
            None => None,
        }
    }
}

/// The character of a decimal digit.
pub open spec fn digit_char(d: nat) -> char {
    (('0' as u32) + d) as char
}

/// The decimal digits of `n`, without leading zeros (`"0"` for zero).
pub open spec fn dec(n: nat) -> Seq<char>
    decreases n,
{
    if n < 10 {
        seq![digit_char(n)]
    } else {
        dec(n / 10).push(digit_char(n % 10))
    }
}


/// The decimal text of a number is not empty, and its last digit is the
/// number's last digit.
pub proof fn lemma_dec_shape(n: nat)
    ensures
        dec(n).len() >= 1,
        dec(n).last() == digit_char(n % 10),
        n >= 10 ==> dec(n).len() >= 2 && dec(n).drop_last() == dec(n / 10),
        n < 10 ==> dec(n).len() == 1,
    decreases n,
{
    if n >= 10 {
        lemma_dec_shape(n / 10);
    }
}

/// Different numbers have different decimal texts.
pub proof fn lemma_dec_injective(a: nat, b: nat)
    ensures
        dec(a) == dec(b) ==> a == b,
    decreases a + b,
{
    lemma_dec_shape(a);
    lemma_dec_shape(b);
    if dec(a) == dec(b) {
        assert(digit_char(a % 10) == digit_char(b % 10));
        assert((a % 10) == (b % 10));
        if a >= 10 && b >= 10 {
            lemma_dec_injective(a / 10, b / 10);
        } else if a >= 10 {
            assert(dec(a).len() >= 2);
        } else if b >= 10 {
            assert(dec(b).len() >= 2);
        }
    }
}

fn digit_to_char(d: u64) -> (c: char)
    requires
        d < 10,
    ensures
        c == digit_char(d as nat),
{
    let b: u8 = 48u8 + d as u8;
    b as char
}

/// Appends the decimal digits of `n`.
pub fn push_dec(out: &mut String, n: u64)
    ensures
        final(out)@ == old(out)@ + dec(n as nat),
    decreases n,
{
    if n >= 10 {
        push_dec(out, n / 10);
    }
    push_char(out, digit_to_char(n % 10));
    proof {
        if n >= 10 {
            assert(old(out)@ + dec((n / 10) as nat) + seq![digit_char((n % 10) as nat)]
                =~= old(out)@ + dec(n as nat));
        } else {
            assert(old(out)@.push(digit_char((n % 10) as nat)) =~= old(out)@ + dec(n as nat));
        }
    }
}

/// `n.to_string()`.
pub fn dec_string(n: u64) -> (r: String)
    ensures
        r@ == dec(n as nat),
{
    let mut r = String::new();
    push_dec(&mut r, n);
    assert(Seq::<char>::empty() + dec(n as nat) =~= dec(n as nat));
    r
}


// ---------------------------------------------------------------------------
// String order
// ---------------------------------------------------------------------------

/// The order of `String`: lexicographic by character (UTF-8 keeps the code
/// point order, so this is also the byte order).
pub open spec fn lex_lt(a: Seq<char>, b: Seq<char>) -> bool
    decreases a.len(),
{
    if a.len() == 0 {
        b.len() > 0
    } else if b.len() == 0 {
        false
    } else if a[0] != b[0] {
        a[0] < b[0]
    } else {
        lex_lt(a.drop_first(), b.drop_first())
    }
}

/// `lex_lt` is irreflexive.
pub proof fn lemma_lex_irrefl(a: Seq<char>)
    ensures
        !lex_lt(a, a),
    decreases a.len(),
{
    if a.len() > 0 {
        lemma_lex_irrefl(a.drop_first());
    }
}

/// `lex_lt` is asymmetric and total on distinct sequences.
pub proof fn lemma_lex_total(a: Seq<char>, b: Seq<char>)
    ensures
        lex_lt(a, b) ==> !lex_lt(b, a),
        a != b ==> lex_lt(a, b) || lex_lt(b, a),
    decreases a.len(),
{
    if a.len() > 0 && b.len() > 0 {
        lemma_lex_total(a.drop_first(), b.drop_first());
        if a[0] == b[0] && a.drop_first() == b.drop_first() {
            assert forall|i: int| 0 <= i < a.len() implies a[i] == b[i] by {
                if i > 0 {
                    assert(a[i] == a.drop_first()[i - 1]);
                    assert(b[i] == b.drop_first()[i - 1]);
                }
            }
            assert(a =~= b);
        }
    } else if a.len() == 0 && b.len() == 0 {
        assert(a =~= b);
    }
}

/// `lex_lt` is transitive.
pub proof fn lemma_lex_trans(a: Seq<char>, b: Seq<char>, c: Seq<char>)
    requires
        lex_lt(a, b),
        lex_lt(b, c),
    ensures
        lex_lt(a, c),
    decreases a.len(),
{
    if a.len() > 0 && b.len() > 0 && c.len() > 0 && a[0] == b[0] && b[0] == c[0] {
        lemma_lex_trans(a.drop_first(), b.drop_first(), c.drop_first());
    }
}

/// `a < b` in the order of `String`.
pub fn str_lt(a: &str, b: &str) -> (r: bool)
    ensures
        r == lex_lt(a@, b@),
{
    let x = chars_of(a);
    let y = chars_of(b);
    let mut i: usize = 0;
    assert(x@.skip(0) =~= x@);
    assert(y@.skip(0) =~= y@);
    while i < x.len() && i < y.len() && x[i] == y[i]
        invariant
            i <= x@.len(),
            i <= y@.len(),
            lex_lt(x@, y@) == lex_lt(x@.skip(i as int), y@.skip(i as int)),
        decreases x@.len() - i,
    {
        assert(x@.skip(i as int).drop_first() =~= x@.skip(i + 1));
        assert(y@.skip(i as int).drop_first() =~= y@.skip(i + 1));
        i += 1;
    }
    if i == x.len() {
        assert(x@.skip(i as int).len() == 0);
        i < y.len()
    } else if i == y.len() {
        assert(y@.skip(i as int).len() == 0);
        false
    } else {
        assert(x@.skip(i as int)[0] == x@[i as int]);
        assert(y@.skip(i as int)[0] == y@[i as int]);
        x[i] < y[i]
    }
}

} // verus!
