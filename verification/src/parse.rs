//! Laying out the debug text of a value over indented lines.

use vstd::prelude::*;

verus! {

broadcast use vstd::group_vstd_default;

/// Whether `c` is white space, as `char::is_whitespace` tells.
pub uninterp spec fn is_whitespace_char(c: char) -> bool;

/// Whether `c` is one of the ASCII characters with the Unicode property
/// `White_Space`: the space, and the controls from the tab to the
/// carriage return.
pub open spec fn ascii_whitespace(c: char) -> bool {
    c == ' ' || ('\u{9}' <= c && c <= '\u{d}')
}

/// Calls `char::is_whitespace`, which tells whether a character has the
/// Unicode property `White_Space`. The result is given a name; of an
/// ASCII character it is claimed that the result is true for the space
/// and for the controls from the tab to the carriage return, and for no
/// other.
#[verifier::external_body]
fn char_is_whitespace(c: char) -> (res: bool)
    ensures
        res == is_whitespace_char(c),
        c <= '\u{7f}' ==> res == ascii_whitespace(c),
{
    c.is_whitespace()
}

/// Collects characters into a `String` with `Iterator::collect`: the text
/// holds the characters of `v`, in order.
#[verifier::external_body]
fn chars_to_string(v: &Vec<char>) -> (res: String)
    ensures
        res@ == v@,
{
    v.iter().collect()
}

/// The first index from `i` on at which `s` holds a character that is not
/// white space; the length of `s` where there is none.
pub open spec fn skip_whitespace(s: Seq<char>, i: int) -> int
    decreases s.len() - i,
{
    if 0 <= i < s.len() && is_whitespace_char(s[i]) {
        skip_whitespace(s, i + 1)
    } else {
        i
    }
}

/// The white space that begins a line at depth `d`: four spaces for each
/// level.
pub open spec fn indent(d: nat) -> Seq<char>
    decreases d,
{
    if d == 0 {
        Seq::empty()
    } else {
        indent((d - 1) as nat) + seq![' ', ' ', ' ', ' ']
    }
}

/// What closes a bracket in the layout: the bracket, and, where `)`
/// follows it, that too, and, where `,` follows that, the comma and a new
/// line at depth `d` in place of the white space after it. Gives the text
/// and the index at which the input goes on.
pub open spec fn pretty_close(s: Seq<char>, i: int, d: nat) -> (Seq<char>, int) {
    if i < s.len() && s[i] == ')' {
        if i + 1 < s.len() && s[i + 1] == ',' {
            (seq![']', ')', ',', '\n'] + indent(d), skip_whitespace(s, i + 2))
        } else {
            (seq![']', ')'], i + 1)
        }
    } else {
        (seq![']'], i)
    }
}

/// Whether the text `s` can be laid out from index `i` on at depth `d`:
/// no bracket closes at depth zero, and the white space after an opening
/// bracket, and after `),` behind a closing one, is followed by something.
pub open spec fn pretty_fits(s: Seq<char>, i: int, d: nat) -> bool
    decreases s.len() - i,
{
    if i < 0 || i >= s.len() {
        true
    } else if s[i] == '[' {
        let j = skip_whitespace(s, i + 1);
        i < j < s.len() && if s[j] == ']' {
            let c = pretty_close(s, j + 1, d);
            j < c.1 <= s.len() && (c.0.len() > 2 ==> c.1 < s.len()) && pretty_fits(s, c.1, d)
        } else {
            pretty_fits(s, j, d + 1)
        }
    } else if s[i] == ']' {
        d > 0 && {
            let c = pretty_close(s, i + 1, (d - 1) as nat);
            i < c.1 <= s.len() && (c.0.len() > 2 ==> c.1 < s.len()) && pretty_fits(
                s,
                c.1,
                (d - 1) as nat,
            )
        }
    } else {
        pretty_fits(s, i + 1, d)
    }
}

/// The layout of the text `s` from index `i` on at depth `d`. An opening
/// bracket begins an indented line, unless it is closed at once; a closing
/// bracket stands on a line of its own, one level less deep; a new line
/// is indented to the current depth.
pub open spec fn pretty_from(s: Seq<char>, i: int, d: nat) -> Seq<char>
    decreases s.len() - i,
{
    if i < 0 || i >= s.len() {
        Seq::empty()
    } else if s[i] == '[' {
        let j = skip_whitespace(s, i + 1);
        if i < j < s.len() && s[j] == ']' {
            let c = pretty_close(s, j + 1, d);
            if j < c.1 <= s.len() {
                let tail = pretty_from(s, c.1, d);
                seq!['['] + c.0 + tail
            } else {
                Seq::empty()
            }
        } else if i < j <= s.len() {
            let tail = pretty_from(s, j, d + 1);
            seq!['[', '\n'] + indent(d + 1) + tail
        } else {
            Seq::empty()
        }
    } else if s[i] == ']' {
        let e = if d > 0 {
            (d - 1) as nat
        } else {
            0
        };
        let c = pretty_close(s, i + 1, e);
        if i < c.1 <= s.len() {
            let tail = pretty_from(s, c.1, e);
            seq!['\n'] + indent(e) + c.0 + tail
        } else {
            Seq::empty()
        }
    } else if s[i] == '\n' {
        let tail = pretty_from(s, i + 1, d);
        seq!['\n'] + indent(d) + tail
    } else {
        let tail = pretty_from(s, i + 1, d);
        seq![s[i]] + tail
    }
}

/// Skipping white space moves forward, and not beyond the end.
pub proof fn lemma_skip_whitespace(s: Seq<char>, i: int)
    requires
        0 <= i <= s.len(),
    ensures
        i <= skip_whitespace(s, i) <= s.len(),
        skip_whitespace(s, i) < s.len() ==> !is_whitespace_char(s[skip_whitespace(s, i)]),
        forall|k: int| i <= k < skip_whitespace(s, i) ==> is_whitespace_char(#[trigger] s[k]),
    decreases s.len() - i,
{
    if i < s.len() && is_whitespace_char(s[i]) {
        lemma_skip_whitespace(s, i + 1);
    }
}

/// The characters of `s` as a vector.
fn str_chars(s: &str) -> (res: Vec<char>)
    ensures
        res@ == s@,
{
    let n = s.unicode_len();
    let mut res: Vec<char> = Vec::new();
    let mut i: usize = 0;
    while i < n
        invariant
            i <= n,
            n == s@.len(),
            res@ == s@.take(i as int),
        decreases n - i,
    {
        res.push(s.get_char(i));
        proof {
            assert(s@.take(i + 1) =~= s@.take(i as int).push(s@[i as int]));
        }
        i = i + 1;
    }
    assert(s@.take(n as int) =~= s@);
    res
}

/// Appends the white space that begins a line at depth `d`.
fn push_indent(out: &mut Vec<char>, d: usize)
    ensures
        final(out)@ == old(out)@ + indent(d as nat),
{
    let mut k: usize = 0;
    assert(old(out)@ + indent(0) =~= old(out)@);
    while k < d
        invariant
            k <= d,
            out@ == old(out)@ + indent(k as nat),
        decreases d - k,
    {
        out.push(' ');
        out.push(' ');
        out.push(' ');
        out.push(' ');
        proof {
            assert(out@ =~= old(out)@ + indent((k + 1) as nat));
        }
        k = k + 1;
    }
}

/// Moves `i` past white space; gives the first index from `i` on that
/// holds something else.
fn skip_ws(s: &Vec<char>, i: usize) -> (res: usize)
    requires
        i <= s.len(),
    ensures
        res == skip_whitespace(s@, i as int),
        i <= res <= s.len(),
{
    let mut j = i;
    proof {
        lemma_skip_whitespace(s@, i as int);
    }
    while j < s.len() && char_is_whitespace(s[j])
        invariant
            i <= j <= s.len(),
            skip_whitespace(s@, j as int) == skip_whitespace(s@, i as int),
        decreases s.len() - j,
    {
        j = j + 1;
    }
    j
}

/// Whether what closes a bracket before index `i` takes a comma with it,
/// and with the comma the white space behind it.
pub open spec fn close_takes_comma(s: Seq<char>, i: int) -> bool {
    i < s.len() && s[i] == ')' && i + 1 < s.len() && s[i + 1] == ','
}

/// The index at which the input goes on behind a closing bracket that
/// stands before index `i`, and whether a comma was taken with it.
fn close_end(s: &Vec<char>, i: usize) -> (res: (usize, bool))
    requires
        i <= s.len(),
    ensures
        forall|d: nat| res.0 == (#[trigger] pretty_close(s@, i as int, d)).1,
        forall|d: nat| res.1 == ((#[trigger] pretty_close(s@, i as int, d)).0.len() > 2),
        res.1 == close_takes_comma(s@, i as int),
        i <= res.0 <= s.len(),
{
    if i < s.len() && s[i] == ')' {
        if i + 1 < s.len() && s[i + 1] == ',' {
            let j = skip_ws(s, i + 2);
            (j, true)
        } else {
            (i + 1, false)
        }
    } else {
        (i, false)
    }
}

/// Whether debug text can be laid out: no bracket closes that was not
/// opened, and the white space after an opening bracket, and after `),`
/// behind a closing one, is followed by something.
pub fn can_debug_pretty(input: &str) -> (res: bool)
    ensures
        res == pretty_fits(input@, 0, 0),
{
    let s = str_chars(input);
    let n = s.len();
    let mut depth: usize = 0;
    let mut i: usize = 0;
    let ghost goal = pretty_fits(s@, 0, 0);
    while i < n
        invariant
            n == s.len(),
            s@ == input@,
            i <= n,
            depth <= i,
            goal == pretty_fits(s@, 0, 0),
            pretty_fits(s@, i as int, depth as nat) == goal,
        decreases n - i,
    {
        let c = s[i];
        if c == '[' {
            let j = skip_ws(&s, i + 1);
            if j >= n {
                return false;
            }
            if s[j] == ']' {
                let (next, comma) = close_end(&s, j + 1);
                if comma && next >= n {
                    return false;
                }
                i = next;
            } else {
                depth = depth + 1;
                i = j;
            }
        } else if c == ']' {
            if depth == 0 {
                return false;
            }
            depth = depth - 1;
            let (next, comma) = close_end(&s, i + 1);
            if comma && next >= n {
                return false;
            }
            i = next;
        } else {
            i = i + 1;
        }
    }
    true
}

/// Lays out debug text over indented lines where it can be laid out, and
/// gives nothing where it cannot.
pub fn debug_pretty_checked(input: &str) -> (res: Option<String>)
    ensures
        match res {
            Some(text) => pretty_fits(input@, 0, 0) && text@ == pretty_from(input@, 0, 0),
            None => !pretty_fits(input@, 0, 0),
        },
{
    if can_debug_pretty(input) {
        Some(debug_pretty(input))
    } else {
        None
    }
}

/// Lays out debug text over indented lines: what stands between brackets
/// goes on lines of its own, four spaces deeper for each bracket that is
/// open.
#[verifier::rlimit(50)]
pub fn debug_pretty(input: &str) -> (res: String)
    requires
        pretty_fits(input@, 0, 0),
    ensures
        res@ == pretty_from(input@, 0, 0),
{
    let s = str_chars(input);
    let n = s.len();
    let mut out: Vec<char> = Vec::new();
    let mut depth: usize = 0;
    let mut i: usize = 0;
    let ghost goal = pretty_from(s@, 0, 0);
    proof {
        assert(out@ + goal =~= goal);
    }
    while i < n
        invariant
            n == s.len(),
            s@ == input@,
            i <= n,
            depth <= i,
            pretty_fits(s@, i as int, depth as nat),
            out@ + pretty_from(s@, i as int, depth as nat) == goal,
        decreases n - i,
    {
        let ghost out0 = out@;
        let ghost i0 = i;
        let ghost d0 = depth;
        let mut c = s[i];
        i = i + 1;
        if c == '[' {
            out.push(c);
            let j = skip_ws(&s, i);
            i = j;
            if s[i] == ']' {
                c = s[i];
                i = i + 1;
            } else {
                out.push('\n');
                depth = depth + 1;
                push_indent(&mut out, depth);
                proof {
                    assert(out@ =~= out0 + (seq!['[', '\n'] + indent(depth as nat)));
                    assert(out@ + pretty_from(s@, i as int, depth as nat) =~= goal);
                }
            }
        } else if c == ']' {
            depth = depth - 1;
            out.push('\n');
            push_indent(&mut out, depth);
        } else if c == '\n' {
            out.push(c);
            push_indent(&mut out, depth);
            proof {
                assert(out@ =~= out0 + (seq!['\n'] + indent(depth as nat)));
                assert(out@ + pretty_from(s@, i as int, depth as nat) =~= goal);
            }
        } else {
            out.push(c);
            proof {
                assert(out@ =~= out0 + seq![c]);
                assert(out@ + pretty_from(s@, i as int, depth as nat) =~= goal);
            }
        }
        if c == ']' {
            let ghost mid = out@;
            let ghost at = i;
            out.push(c);
            if i < n && s[i] == ')' {
                out.push(s[i]);
                i = i + 1;
                if i < n && s[i] == ',' {
                    out.push(s[i]);
                    i = i + 1;
                    let j = skip_ws(&s, i);
                    i = j;
                    out.push('\n');
                    push_indent(&mut out, depth);
                }
            }
            proof {
                let cl = pretty_close(s@, at as int, depth as nat);
                assert(i == cl.1);
                assert(out@ =~= mid + cl.0);
                assert(out@ + pretty_from(s@, i as int, depth as nat) =~= goal);
            }
        }
    }
    proof {
        assert(out@ =~= goal);
    }
    chars_to_string(&out)
}

} // verus!
