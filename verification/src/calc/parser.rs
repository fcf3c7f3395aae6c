//! A tiny tokenizer for `"a OP b"` expressions. Only the four basic
//! operators are supported; everything else parses to `None`.

use vstd::prelude::*;
use crate::text::{
    all_digits, char_is_ws, chars_of, dec, digit_char, digit_val, digits_value, is_digit, is_ws,
    lemma_dec_shape, parse_i64_in,
    parse_i64_spec, slice_copy, views,
};

verus! {

/// An arithmetic operator.
#[derive(Debug, Clone, Copy, PartialEq, Eq, Structural)]
pub enum Op {
    Add,
    Sub,
    Mul,
    Div,
}

/// `str::split_whitespace`, read from the left: the tokens finished so far
/// and the token in progress.
pub open spec fn tokens_state(s: Seq<char>) -> (Seq<Seq<char>>, Seq<char>)
    decreases s.len(),
{
    if s.len() == 0 {
        (Seq::empty(), Seq::empty())
    } else {
        let st = tokens_state(s.drop_last());
        if is_ws(s.last()) {
            if st.1.len() > 0 {
                (st.0.push(st.1), Seq::empty())
            } else {
                (st.0, Seq::empty())
            }
        } else {
            (st.0, st.1.push(s.last()))
        }
    }
}

/// `str::split_whitespace`: the maximal runs of non-whitespace characters.
pub open spec fn tokens(s: Seq<char>) -> Seq<Seq<char>> {
    let st = tokens_state(s);
    if st.1.len() > 0 {
        st.0.push(st.1)
    } else {
        st.0
    }
}

/// The operator a token names.
pub open spec fn op_of(t: Seq<char>) -> Option<Op> {
    if t == seq!['+'] {
        Some(Op::Add)
    } else if t == seq!['-'] {
        Some(Op::Sub)
    } else if t == seq!['*'] {
        Some(Op::Mul)
    } else if t == seq!['/'] {
        Some(Op::Div)
    } else {
        None
    }
}

/// What `parse` returns: exactly three tokens, an integer, an operator and
/// an integer.
pub open spec fn parse_spec(input: Seq<char>) -> Option<(i64, Op, i64)> {
    let t = tokens(input);
    if t.len() != 3 {
        None
    } else {
        match (parse_i64_spec(t[0]), op_of(t[1]), parse_i64_spec(t[2])) {
            (Some(a), Some(op), Some(b)) => Some((a as i64, op, b as i64)),
            _ => None,
        }
    }
}

/// The whitespace-separated tokens of `s`.
pub fn split_whitespace(s: &Vec<char>) -> (r: Vec<Vec<char>>)
    ensures
        views(r@) == tokens(s@),
{
    let mut r: Vec<Vec<char>> = Vec::new();
    let mut start: usize = 0;
    let mut i: usize = 0;
    while i < s.len()
        invariant
            start <= i <= s@.len(),
            tokens_state(s@.take(i as int)).0 == views(r@),
            tokens_state(s@.take(i as int)).1 == s@.subrange(start as int, i as int),
        decreases s@.len() - i,
    {
        assert(s@.take(i + 1).drop_last() =~= s@.take(i as int));
        if char_is_ws(s[i]) {
            if start < i {
                let t = slice_copy(s, start, i);
                r.push(t);
                assert(views(r@) =~= tokens_state(s@.take(i + 1)).0);
            }
            start = i + 1;
            assert(s@.subrange(start as int, i + 1) =~= Seq::<char>::empty());
        } else {
            assert(s@.subrange(start as int, i as int).push(s@[i as int]) =~= s@.subrange(
                start as int,
                i + 1,
            ));
        }
        i += 1;
    }
    assert(s@.take(s@.len() as int) =~= s@);
    if start < s.len() {
        let t = slice_copy(s, start, s.len());
        r.push(t);
        assert(views(r@) =~= tokens(s@));
    }
    r
}

/// Parse `"  12  +  30 "` style input into `(lhs, Op, rhs)` (see
/// `parse_spec`).
pub fn parse(input: &str) -> (r: Option<(i64, Op, i64)>)
    ensures
        r == parse_spec(input@),
{
    let cs = chars_of(input);
    let toks = split_whitespace(&cs);
    let ghost t = tokens(input@);
    if toks.len() != 3 {
        return None;
    }
    assert(toks@[0]@ == t[0] && toks@[1]@ == t[1] && toks@[2]@ == t[2]);
    let lhs = match parse_i64_in(toks[0].as_slice(), 0, toks[0].len()) {
        Some(v) => v,
        None => {
            assert(toks@[0]@.subrange(0, toks@[0]@.len() as int) =~= t[0]);
            return None;
        },
    };
    assert(toks@[0]@.subrange(0, toks@[0]@.len() as int) =~= t[0]);
    let o = &toks[1];
    let op = if o.len() != 1 {
        assert(op_of(t[1]) is None);
        return None;
    } else if o[0] == '+' {
        assert(o@ =~= seq!['+']);
        Op::Add
    } else if o[0] == '-' {
        assert(o@ =~= seq!['-']);
        Op::Sub
    } else if o[0] == '*' {
        assert(o@ =~= seq!['*']);
        Op::Mul
    } else if o[0] == '/' {
        assert(o@ =~= seq!['/']);
        Op::Div
    } else {
        assert(op_of(t[1]) is None);
        return None;
    };
    let rhs = match parse_i64_in(toks[2].as_slice(), 0, toks[2].len()) {
        Some(v) => v,
        None => {
            assert(toks@[2]@.subrange(0, toks@[2]@.len() as int) =~= t[2]);
            return None;
        },
    };
    assert(toks@[2]@.subrange(0, toks@[2]@.len() as int) =~= t[2]);
    Some((lhs, op, rhs))
}

// ---------------------------------------------------------------------------
// Reading back a rendered expression
// ---------------------------------------------------------------------------

/// The decimal text of `n`, with a `'-'` when it is negative: what
/// `format!("{n}")` writes for an `i64`.
pub open spec fn dec_signed(n: int) -> Seq<char> {
    if n < 0 {
        seq!['-'] + dec((-n) as nat)
    } else {
        dec(n as nat)
    }
}

/// The symbol of an operator.
pub open spec fn op_symbol(op: Op) -> Seq<char> {
    match op {
        Op::Add => seq!['+'],
        Op::Sub => seq!['-'],
        Op::Mul => seq!['*'],
        Op::Div => seq!['/'],
    }
}

/// A run of characters without whitespace.
pub open spec fn no_ws(w: Seq<char>) -> bool {
    forall|i: int| 0 <= i < w.len() ==> !is_ws(#[trigger] w[i])
}

proof fn lemma_dec_digits(n: nat)
    ensures
        dec(n).len() >= 1,
        all_digits(dec(n)),
        digits_value(dec(n)) == n,
        no_ws(dec(n)),
    decreases n,
{
    let d = n % 10;
    let s = dec(n);
    lemma_dec_shape(n);
    assert(digit_char(d) as u32 == '0' as u32 + d);
    assert(digit_val(digit_char(d)) == d);
    if n >= 10 {
        lemma_dec_digits(n / 10);
        assert(s.drop_last() =~= dec(n / 10));
        assert(forall|i: int| 0 <= i < s.len() - 1 ==> s[i] == dec(n / 10)[i]);
        assert(digits_value(s) == digits_value(dec(n / 10)) * 10 + digit_val(s.last()));
        assert((n / 10) * 10 + n % 10 == n);
    } else {
        assert(s.drop_last().len() == 0);
        assert(digits_value(s) == digits_value(s.drop_last()) * 10 + digit_val(s.last()));
    }
}

proof fn lemma_parse_dec_signed(n: int)
    requires
        i64::MIN <= n <= i64::MAX,
    ensures
        parse_i64_spec(dec_signed(n)) == Some(n),
        dec_signed(n).len() >= 1,
        no_ws(dec_signed(n)),
{
    if n < 0 {
        let m = (-n) as nat;
        lemma_dec_digits(m);
        let s = dec_signed(n);
        assert(s.drop_first() =~= dec(m));
        assert(s[0] == '-');
        assert forall|i: int| 0 <= i < s.len() implies !is_ws(#[trigger] s[i]) by {
            if i > 0 {
                assert(s[i] == dec(m)[i - 1]);
            }
        }
    } else {
        lemma_dec_digits(n as nat);
        let s = dec(n as nat);
        assert(is_digit(s[0]));
    }
}

/// Appending a word without whitespace extends the token in progress.
proof fn lemma_tokens_word(p: Seq<char>, w: Seq<char>)
    requires
        no_ws(w),
    ensures
        tokens_state(p + w) == (tokens_state(p).0, tokens_state(p).1 + w),
    decreases w.len(),
{
    if w.len() == 0 {
        assert(p + w =~= p);
        assert(tokens_state(p).1 + w =~= tokens_state(p).1);
    } else {
        lemma_tokens_word(p, w.drop_last());
        assert((p + w).drop_last() =~= p + w.drop_last());
        assert((p + w).last() == w.last());
        assert(tokens_state(p).1 + w.drop_last() + seq![w.last()] =~= tokens_state(p).1 + w);
        assert(!is_ws(w[w.len() - 1]));
    }
}

/// Appending a space ends the token in progress.
proof fn lemma_tokens_space(p: Seq<char>)
    ensures
        tokens_state(p + seq![' ']) == if tokens_state(p).1.len() > 0 {
            (tokens_state(p).0.push(tokens_state(p).1), Seq::<char>::empty())
        } else {
            (tokens_state(p).0, Seq::<char>::empty())
        },
{
    assert((p + seq![' ']).drop_last() =~= p);
    assert((p + seq![' ']).last() == ' ');
    assert(is_ws(' '));
}

/// A run of `k` spaces.
pub open spec fn spaces(k: nat) -> Seq<char> {
    Seq::new(k, |i: int| ' ')
}

/// The tokenizer state once the token in progress, if any, has been closed.
pub open spec fn closed_state(st: (Seq<Seq<char>>, Seq<char>)) -> (Seq<Seq<char>>, Seq<char>) {
    if st.1.len() > 0 {
        (st.0.push(st.1), Seq::empty())
    } else {
        (st.0, Seq::empty())
    }
}

/// A run of one or more spaces closes the token in progress; no spaces change nothing.
proof fn lemma_tokens_spaces(p: Seq<char>, k: nat)
    ensures
        k >= 1 ==> tokens_state(p + spaces(k)) == closed_state(tokens_state(p)),
        k == 0 ==> p + spaces(k) == p,
    decreases k,
{
    if k == 0 {
        assert(p + spaces(k) =~= p);
    } else {
        lemma_tokens_spaces(p, (k - 1) as nat);
        let q = p + spaces((k - 1) as nat);
        assert(p + spaces(k) =~= q + seq![' ']);
        lemma_tokens_space(q);
    }
}

/// An expression rendered as `"{a} {op} {b}"` parses back to `(a, op, b)`:
/// `parse` (whose result is `parse_spec` of its input) returns
/// `Some((a, op, b))` for every `a`, `b` and operator.
pub proof fn law_parse_reads_back(a: i64, op: Op, b: i64)
    ensures
        parse_spec(dec_signed(a as int) + seq![' '] + op_symbol(op) + seq![' '] + dec_signed(b as int))
            == Some((a, op, b)),
{
    let x = dec_signed(a as int);
    let y = op_symbol(op);
    let z = dec_signed(b as int);
    lemma_parse_dec_signed(a as int);
    lemma_parse_dec_signed(b as int);
    assert(no_ws(y)) by {
        assert(!is_ws(y[0]));
    }
    let e: Seq<char> = Seq::empty();
    assert(tokens_state(e) == (Seq::<Seq<char>>::empty(), e));
    lemma_tokens_word(e, x);
    assert(e + x =~= x);
    lemma_tokens_space(x);
    let p2 = x + seq![' '];
    lemma_tokens_word(p2, y);
    let p3 = p2 + y;
    lemma_tokens_space(p3);
    let p4 = p3 + seq![' '];
    lemma_tokens_word(p4, z);
    let p5 = p4 + z;
    assert(Seq::<char>::empty() + y =~= y);
    assert(Seq::<char>::empty() + z =~= z);
    let t = tokens(p5);
    assert(t =~= seq![x, y, z]);
    assert(op_of(y) == Some(op));
}

/// The same holds with any whitespace layout: leading and trailing runs of
/// spaces, and runs of one or more spaces between the three parts.
pub proof fn law_parse_reads_back_spaced(
    a: i64,
    op: Op,
    b: i64,
    lead: nat,
    gap1: nat,
    gap2: nat,
    trail: nat,
)
    requires
        gap1 >= 1,
        gap2 >= 1,
    ensures
        parse_spec(
            spaces(lead) + dec_signed(a as int) + spaces(gap1) + op_symbol(op) + spaces(gap2)
                + dec_signed(b as int) + spaces(trail),
        ) == Some((a, op, b)),
{
    let x = dec_signed(a as int);
    let y = op_symbol(op);
    let z = dec_signed(b as int);
    lemma_parse_dec_signed(a as int);
    lemma_parse_dec_signed(b as int);
    assert(no_ws(y)) by {
        assert(!is_ws(y[0]));
    }
    let e: Seq<char> = Seq::empty();
    assert(tokens_state(e) == (Seq::<Seq<char>>::empty(), e));
    lemma_tokens_spaces(e, lead);
    let p0 = e + spaces(lead);
    assert(p0 =~= spaces(lead));
    assert(tokens_state(p0) == (Seq::<Seq<char>>::empty(), e));
    lemma_tokens_word(p0, x);
    assert(e + x =~= x);
    let p1 = p0 + x;
    lemma_tokens_spaces(p1, gap1);
    let p2 = p1 + spaces(gap1);
    lemma_tokens_word(p2, y);
    assert(e + y =~= y);
    let p3 = p2 + y;
    lemma_tokens_spaces(p3, gap2);
    let p4 = p3 + spaces(gap2);
    lemma_tokens_word(p4, z);
    assert(e + z =~= z);
    let p5 = p4 + z;
    lemma_tokens_spaces(p5, trail);
    let p6 = p5 + spaces(trail);
    assert(p6 =~= spaces(lead) + x + spaces(gap1) + y + spaces(gap2) + z + spaces(trail));
    let t = tokens(p6);
    assert(t =~= seq![x, y, z]);
    assert(op_of(y) == Some(op));
}

} // verus!
