//! Source text prepared for the report: one HTML fragment per line.
//!
//! Syntax highlighting itself is done by `syntect` outside this library;
//! here are the line splitting it relies on and the plain-text fallback.

use vstd::prelude::*;
use crate::text::{chars_of, push_char, slice_copy, string_of};
use vstd::string::StringExecFns;

verus! {

/// The HTML escape of one character.
pub open spec fn escape_char(c: char) -> Seq<char> {
    if c == '&' {
        "&amp;"@
    } else if c == '<' {
        "&lt;"@
    } else if c == '>' {
        "&gt;"@
    } else {
        seq![c]
    }
}

/// `s` with `&`, `<` and `>` escaped for HTML.
pub open spec fn escape_spec(s: Seq<char>) -> Seq<char>
    decreases s.len(),
{
    if s.len() == 0 {
        Seq::empty()
    } else {
        escape_spec(s.drop_last()) + escape_char(s.last())
    }
}

/// Escaped text holds no `<` and no `>`: it cannot open or close a tag.
pub proof fn law_escaped_text_has_no_tags(s: Seq<char>)
    ensures
        forall|i: int|
            0 <= i < escape_spec(s).len() ==> #[trigger] escape_spec(s)[i] != '<' && escape_spec(s)[i]
                != '>',
    decreases s.len(),
{
    reveal_strlit("&amp;");
    reveal_strlit("&lt;");
    reveal_strlit("&gt;");
    if s.len() > 0 {
        law_escaped_text_has_no_tags(s.drop_last());
        let a = escape_spec(s.drop_last());
        let b = escape_char(s.last());
        assert forall|i: int| 0 <= i < escape_spec(s).len() implies #[trigger] escape_spec(s)[i]
            != '<' && escape_spec(s)[i] != '>' by {
            if i >= a.len() {
                assert(escape_spec(s)[i] == b[i - a.len()]);
            } else {
                assert(escape_spec(s)[i] == a[i]);
            }
        }
    }
}

/// `s` read back from HTML: `&amp;`, `&lt;` and `&gt;` become `&`, `<`
/// and `>` again, in one pass from the left; every other character stays.
pub open spec fn unescape_spec(s: Seq<char>) -> Seq<char>
    decreases s.len(),
{
    if s.len() == 0 {
        Seq::empty()
    } else if s.len() >= 5 && s.take(5) == seq!['&', 'a', 'm', 'p', ';'] {
        seq!['&'] + unescape_spec(s.skip(5))
    } else if s.len() >= 4 && s.take(4) == seq!['&', 'l', 't', ';'] {
        seq!['<'] + unescape_spec(s.skip(4))
    } else if s.len() >= 4 && s.take(4) == seq!['&', 'g', 't', ';'] {
        seq!['>'] + unescape_spec(s.skip(4))
    } else {
        seq![s[0]] + unescape_spec(s.skip(1))
    }
}

/// No character of `s` needs escaping.
pub open spec fn free_of_markup(s: Seq<char>) -> bool {
    forall|i: int| 0 <= i < s.len() ==> #[trigger] s[i] != '&' && s[i] != '<' && s[i] != '>'
}

/// Escaping a text works character by character from the front too.
proof fn lemma_escape_front(c: char, t: Seq<char>)
    ensures
        escape_spec(seq![c] + t) == escape_char(c) + escape_spec(t),
    decreases t.len(),
{
    let w = seq![c] + t;
    if t.len() == 0 {
        assert(w.drop_last() =~= Seq::<char>::empty());
        assert(w.last() == c);
        assert(escape_spec(w) == escape_spec(w.drop_last()) + escape_char(w.last()));
        assert(escape_spec(w) =~= escape_char(c));
        assert(escape_char(c) + escape_spec(t) =~= escape_char(c));
    } else {
        lemma_escape_front(c, t.drop_last());
        assert(w.drop_last() =~= seq![c] + t.drop_last());
        assert(w.last() == t.last());
        assert(escape_spec(w) == escape_spec(w.drop_last()) + escape_char(w.last()));
        assert(escape_spec(t) == escape_spec(t.drop_last()) + escape_char(t.last()));
        assert(escape_char(c) + escape_spec(t.drop_last()) + escape_char(t.last()) =~= escape_char(c)
            + escape_spec(t));
    }
}

/// Reading back the escape of one character, followed by anything.
proof fn lemma_unescape_char(c: char, r: Seq<char>)
    ensures
        unescape_spec(escape_char(c) + r) == seq![c] + unescape_spec(r),
{
    reveal_strlit("&amp;");
    reveal_strlit("&lt;");
    reveal_strlit("&gt;");
    let w = escape_char(c) + r;
    let amp = seq!['&', 'a', 'm', 'p', ';'];
    let lt = seq!['&', 'l', 't', ';'];
    let gt = seq!['&', 'g', 't', ';'];
    if c == '&' {
        assert(escape_char(c) =~= amp);
        assert(w.take(5) =~= amp);
        assert(w.skip(5) =~= r);
    } else if c == '<' {
        assert(escape_char(c) =~= lt);
        if w.len() >= 5 {
            assert(w.take(5)[1] != amp[1]);
        }
        assert(w.take(4) =~= lt);
        assert(w.skip(4) =~= r);
    } else if c == '>' {
        assert(escape_char(c) =~= gt);
        if w.len() >= 5 {
            assert(w.take(5)[1] != amp[1]);
        }
        assert(w.take(4)[1] != lt[1]);
        assert(w.take(4) =~= gt);
        assert(w.skip(4) =~= r);
    } else {
        assert(escape_char(c) =~= seq![c]);
        assert(w[0] == c);
        if w.len() >= 5 {
            assert(w.take(5)[0] != amp[0]);
        }
        if w.len() >= 4 {
            assert(w.take(4)[0] != lt[0]);
            assert(w.take(4)[0] != gt[0]);
        }
        assert(w.skip(1) =~= r);
    }
}

/// Escaping never shortens a text, and lengthens it exactly when some
/// character needs escaping; text that needs none is left as it is.
proof fn lemma_escape_length(s: Seq<char>)
    ensures
        escape_spec(s).len() >= s.len(),
        free_of_markup(s) ==> escape_spec(s) == s,
        !free_of_markup(s) ==> escape_spec(s).len() > s.len(),
    decreases s.len(),
{
    reveal_strlit("&amp;");
    reveal_strlit("&lt;");
    reveal_strlit("&gt;");
    if s.len() > 0 {
        let p = s.drop_last();
        let c = s.last();
        lemma_escape_length(p);
        if free_of_markup(s) {
            assert(free_of_markup(p)) by {
                assert forall|i: int| 0 <= i < p.len() implies #[trigger] p[i] != '&' && p[i] != '<'
                    && p[i] != '>' by {
                    assert(p[i] == s[i]);
                }
            }
            assert(s[s.len() - 1] != '&' && s[s.len() - 1] != '<' && s[s.len() - 1] != '>');
            assert(escape_char(c) =~= seq![c]);
            assert(p + seq![c] =~= s);
        }
        if !free_of_markup(s) {
            let i = choose|i: int|
                0 <= i < s.len() && !(#[trigger] s[i] != '&' && s[i] != '<' && s[i] != '>');
            if i == s.len() - 1 {
                assert(escape_char(c).len() >= 4);
            } else {
                assert(p[i] == s[i]);
                assert(!free_of_markup(p));
            }
        }
    }
}

/// Escaping for HTML can be undone: reading `&amp;`, `&lt;` and `&gt;` back
/// gives the text again. And escaping leaves a text unchanged exactly when
/// it holds no `&`, `<` or `>`.
pub proof fn law_escape_round_trips(s: Seq<char>)
    ensures
        unescape_spec(escape_spec(s)) == s,
        escape_spec(s) == s <==> free_of_markup(s),
    decreases s.len(),
{
    lemma_escape_length(s);
    if s.len() > 0 {
        let t = s.skip(1);
        law_escape_round_trips(t);
        assert(seq![s[0]] + t =~= s);
        lemma_escape_front(s[0], t);
        lemma_unescape_char(s[0], escape_spec(t));
    } else {
        assert(escape_spec(s) =~= s);
    }
}

/// Appends the HTML escape of `s`.
pub fn push_escaped(out: &mut String, s: &str)
    ensures
        final(out)@ == old(out)@ + escape_spec(s@),
{
    let cs = chars_of(s);
    let mut i: usize = 0;
    while i < cs.len()
        invariant
            i <= cs@.len(),
            cs@ == s@,
            out@ == old(out)@ + escape_spec(cs@.take(i as int)),
        decreases cs@.len() - i,
    {
        assert(cs@.take(i + 1).drop_last() =~= cs@.take(i as int));
        let c = cs[i];
        if c == '&' {
            out.append("&amp;");
        } else if c == '<' {
            out.append("&lt;");
        } else if c == '>' {
            out.append("&gt;");
        } else {
            push_char(out, c);
        }
        assert(out@ =~= old(out)@ + escape_spec(cs@.take(i + 1)));
        i += 1;
    }
    assert(cs@.take(cs@.len() as int) =~= s@);
}

/// Escape text for HTML (used for plain-text / fallback rendering).
pub fn escape_html(s: &str) -> (r: String)
    ensures
        r@ == escape_spec(s@),
{
    let mut out = String::new();
    push_escaped(&mut out, s);
    assert(Seq::<char>::empty() + escape_spec(s@) =~= escape_spec(s@));
    out
}

/// `str::split_inclusive('\n')`, read from the left: the pieces finished so
/// far (each ending in its `'\n'`) and the piece in progress.
pub open spec fn inclusive_state(s: Seq<char>) -> (Seq<Seq<char>>, Seq<char>)
    decreases s.len(),
{
    if s.len() == 0 {
        (Seq::empty(), Seq::empty())
    } else {
        let st = inclusive_state(s.drop_last());
        if s.last() == '\n' {
            (st.0.push(st.1.push('\n')), Seq::empty())
        } else {
            (st.0, st.1.push(s.last()))
        }
    }
}

/// `str::split_inclusive('\n')`: the lines of `s`, each with its line
/// ending; a last piece without one counts when it is not empty.
pub open spec fn inclusive_lines(s: Seq<char>) -> Seq<Seq<char>> {
    let st = inclusive_state(s);
    if st.1.len() > 0 {
        st.0.push(st.1)
    } else {
        st.0
    }
}

/// The lines of `content`, each with its line ending (see
/// `inclusive_lines`).
pub fn split_inclusive_lines(content: &str) -> (r: Vec<String>)
    ensures
        r@.len() == inclusive_lines(content@).len(),
        forall|i: int| 0 <= i < r@.len() ==> (#[trigger] r@[i])@ == inclusive_lines(content@)[i],
{
    let s = chars_of(content);
    let mut r: Vec<String> = Vec::new();
    let mut start: usize = 0;
    let mut i: usize = 0;
    while i < s.len()
        invariant
            s@ == content@,
            start <= i <= s@.len(),
            r@.len() == inclusive_state(s@.take(i as int)).0.len(),
            forall|k: int|
                0 <= k < r@.len() ==> (#[trigger] r@[k])@ == inclusive_state(s@.take(i as int)).0[k],
            inclusive_state(s@.take(i as int)).1 == s@.subrange(start as int, i as int),
        decreases s@.len() - i,
    {
        assert(s@.take(i + 1).drop_last() =~= s@.take(i as int));
        if s[i] == '\n' {
            let piece = slice_copy(&s, start, i + 1);
            assert(s@.subrange(start as int, i + 1) =~= s@.subrange(start as int, i as int).push(
                '\n',
            ));
            r.push(string_of(piece.as_slice()));
            start = i + 1;
            assert(s@.subrange(start as int, i + 1) =~= Seq::<char>::empty());
        } else {
            assert(s@.subrange(start as int, i as int).push(s@[i as int]) =~= s@.subrange(
                start as int,
                i + 1,
            ));
        }
        i += 1;
    }
    assert(s@.take(s@.len() as int) =~= s@);
    if start < s.len() {
        let piece = slice_copy(&s, start, s.len());
        r.push(string_of(piece.as_slice()));
    }
    r
}

/// `l` without its trailing `'\n'`, if it has one.
pub open spec fn strip_newline_spec(l: Seq<char>) -> Seq<char> {
    if l.len() > 0 && l.last() == '\n' {
        l.drop_last()
    } else {
        l
    }
}

/// A line fragment without its trailing newline.
pub fn strip_newline(s: &str) -> (r: String)
    ensures
        r@ == strip_newline_spec(s@),
{
    let v = chars_of(s);
    let n = v.len();
    if n > 0 && v[n - 1] == '\n' {
        let r = slice_copy(&v, 0, n - 1);
        assert(r@ =~= s@.drop_last());
        string_of(r.as_slice())
    } else {
        s.to_owned()
    }
}

/// Plain text: one HTML-escaped fragment per line, each with its trailing
/// newline stripped.
pub fn plain_lines(content: &str) -> (r: Vec<String>)
    ensures
        r@.len() == inclusive_lines(content@).len(),
        forall|i: int|
            0 <= i < r@.len() ==> (#[trigger] r@[i])@ == escape_spec(
                strip_newline_spec(inclusive_lines(content@)[i]),
            ),
{
    let pieces = split_inclusive_lines(content);
    let mut r: Vec<String> = Vec::new();
    let mut i: usize = 0;
    while i < pieces.len()
        invariant
            i <= pieces@.len(),
            pieces@.len() == inclusive_lines(content@).len(),
            forall|k: int|
                0 <= k < pieces@.len() ==> (#[trigger] pieces@[k])@ == inclusive_lines(
                    content@,
                )[k],
            r@.len() == i,
            forall|k: int|
                0 <= k < i ==> (#[trigger] r@[k])@ == escape_spec(
                    strip_newline_spec(inclusive_lines(content@)[k]),
                ),
        decreases pieces@.len() - i,
    {
        let line = strip_newline(pieces[i].as_str());
        r.push(escape_html(line.as_str()));
        i += 1;
    }
    r
}

/// The extension of the last component of `path`, as `Path::extension`
/// reads it: the text after the last `.` of the file name, unless the name
/// has no `.`, or it is `..`, or its only `.` leads it.
pub open spec fn extension_spec(path: Seq<char>) -> Option<Seq<char>> {
    let name = match crate::text::rfind(path, seq!['/']) {
        Some(i) => path.skip(i + 1),
        None => path,
    };
    if name == seq!['.', '.'] {
        None
    } else {
        match crate::text::rfind(name, seq!['.']) {
            Some(j) => if j == 0 {
                None
            } else {
                Some(name.skip(j + 1))
            },
            None => None,
        }
    }
}

/// The file extension of `path` (see `extension_spec`).
pub fn path_extension(path: &str) -> (r: Option<String>)
    ensures
        match r {
            Some(e) => extension_spec(path@) == Some(e@),
            None => extension_spec(path@) is None,
        },
{
    let cs = chars_of(path);
    let mut slash: Vec<char> = Vec::new();
    slash.push('/');
    let mut dot: Vec<char> = Vec::new();
    dot.push('.');
    assert(slash@ =~= seq!['/']);
    assert(dot@ =~= seq!['.']);
    let n = cs.len();
    let start = match crate::text::rfind_in(cs.as_slice(), slash.as_slice()) {
        Some(i) => {
            assert(i + 1 <= n);
            i + 1
        },
        None => 0,
    };
    let name = slice_copy(&cs, start, cs.len());
    proof {
        if start == 0 {
            assert(name@ =~= path@);
        } else {
            assert(name@ =~= path@.skip(start as int));
        }
    }
    if name.len() == 2 && name[0] == '.' && name[1] == '.' {
        assert(name@ =~= seq!['.', '.']);
        return None;
    }
    assert(name@ != seq!['.', '.']) by {
        if name@ == seq!['.', '.'] {
            assert(name@.len() == 2 && name@[0] == '.' && name@[1] == '.');
        }
    }
    match crate::text::rfind_in(name.as_slice(), dot.as_slice()) {
        Some(j) => {
            if j == 0 {
                None
            } else {
                let e = slice_copy(&name, j + 1, name.len());
                assert(e@ =~= name@.skip(j + 1));
                Some(string_of(e.as_slice()))
            }
        },
        None => None,
    }
}

} // verus!
