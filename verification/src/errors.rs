//! Error values surfaced by the scope stack, and source spans for
//! location-based error reports.
//!
//! A merge conflict is the one failure meant to reach the user: it reports
//! that the simulated program raced on a state element.  Everything else a
//! stack operation could reject is a caller-side contract violation and is
//! excluded by the operations' preconditions instead.

use vstd::prelude::*;
use vstd::string::StrSliceExecFns;

use pest::Span as ParserSpan;

verus! {

/// Why two forked stacks could not be reconciled.
#[derive(Debug, PartialEq, Eq)]
pub enum StackError {
    /// Two parallel branches wrote different values to the named state
    /// element; a semantic defect in the simulated program.
    MergeConflict(String),
    /// The two stacks share no common ancestor scope, so they were never
    /// forked from one stack; a defect in the calling driver.
    IncompatibleFork,
}

/// The character for one decimal digit.
pub open spec fn dec_digit(d: int) -> char {
    if d == 0 {
        '0'
    } else if d == 1 {
        '1'
    } else if d == 2 {
        '2'
    } else if d == 3 {
        '3'
    } else if d == 4 {
        '4'
    } else if d == 5 {
        '5'
    } else if d == 6 {
        '6'
    } else if d == 7 {
        '7'
    } else if d == 8 {
        '8'
    } else {
        '9'
    }
}

/// The decimal rendering of a non-negative number, most significant digit
/// first.
pub open spec fn dec_rep(n: int) -> Seq<char>
    decreases n,
{
    if n < 10 {
        seq![dec_digit(n)]
    } else {
        dec_rep(n / 10).push(dec_digit(n % 10))
    }
}

/// `n` copies of one character.
pub open spec fn char_repeat(c: char, n: int) -> Seq<char> {
    Seq::new(n as nat, |x: int| c)
}

/// How many characters precede the first newline of `s` (all of `s` if it
/// holds none).
pub open spec fn first_newline(s: Seq<char>) -> nat
    decreases s.len(),
{
    if s.len() == 0 {
        0
    } else if s.first() == '\n' {
        0
    } else {
        (1 + first_newline(s.drop_first())) as nat
    }
}

/// How many newlines precede position `i` of `s`; the line holding `i` is
/// line `nl_count(s, i) + 1`, counting from one.
pub open spec fn nl_count(s: Seq<char>, i: int) -> int
    decreases i,
{
    if i <= 0 {
        0
    } else {
        nl_count(s, i - 1) + (if s[i - 1] == '\n' {
            1int
        } else {
            0int
        })
    }
}

/// The rendered report for a span falling inside the line `[i, j)` of `s`:
/// the numbered source line, and under it a caret mark spanning the
/// offending characters followed by the message.
pub open spec fn header(
    s: Seq<char>,
    i: int,
    j: int,
    start: int,
    end: int,
    msg: Seq<char>,
) -> Seq<char> {
    let num = dec_rep(nl_count(s, i) + 1);
    seq!['\n'] + num + seq![' ', '|'] + s.subrange(i, j) + seq!['\n'] + char_repeat(
        ' ',
        (num.len() + 1) as int,
    ) + seq!['|'] + char_repeat(' ', start - i) + char_repeat('^', end - start) + seq![' '] + msg
}

/// Walks the lines of `s` from the line starting at `i`; renders the report
/// for the first line that strictly contains the span `[start, end)`, and
/// nothing when no line does.
pub open spec fn render(s: Seq<char>, i: int, start: int, end: int, msg: Seq<char>) -> Seq<char>
    decreases s.len() - i,
{
    if i < 0 || i > s.len() {
        Seq::empty()
    } else {
        let j = i + first_newline(s.skip(i));
        if start > i && end < j {
            header(s, i, j, start, end, msg)
        } else if j >= s.len() {
            Seq::empty()
        } else {
            render(s, j + 1, start, end, msg)
        }
    }
}

/// What formatting a span with a message produces.
pub open spec fn span_render(input: Seq<char>, start: int, end: int, msg: Seq<char>) -> Seq<char> {
    render(input, 0, start, end, msg)
}

/// Relies on `String::push`: appends exactly the given character.
#[verifier::external_body]
fn push_char(s: &mut String, c: char)
    ensures
        final(s)@ == old(s)@.push(c),
{
    s.push(c);
}

/// The characters of a string slice.
fn str_chars(s: &str) -> (r: Vec<char>)
    ensures
        r@ == s@,
{
    let n = s.unicode_len();
    let mut r: Vec<char> = Vec::new();
    let mut i: usize = 0;
    while i < n
        invariant
            n == s@.len(),
            i <= n,
            r@ == s@.subrange(0, i as int),
        decreases n - i,
    {
        r.push(s.get_char(i));
        proof {
            assert(r@ =~= s@.subrange(0, i + 1));
        }
        i = i + 1;
    }
    proof {
        assert(s@.subrange(0, n as int) =~= s@);
    }
    r
}

/// A string holding the given characters.
fn chars_to_string(v: &Vec<char>) -> (r: String)
    ensures
        r@ == v@,
{
    let n = v.len();
    let mut r = String::new();
    let mut i: usize = 0;
    while i < n
        invariant
            n == v@.len(),
            i <= n,
            r@ == v@.subrange(0, i as int),
        decreases n - i,
    {
        push_char(&mut r, v[i]);
        proof {
            assert(r@ =~= v@.subrange(0, i + 1));
        }
        i = i + 1;
    }
    proof {
        assert(v@.subrange(0, n as int) =~= v@);
    }
    r
}

/// Appends `n` copies of `c`.
fn push_repeat(out: &mut Vec<char>, c: char, n: usize)
    ensures
        final(out)@ == old(out)@ + char_repeat(c, n as int),
{
    let mut i: usize = 0;
    while i < n
        invariant
            i <= n,
            out@ == old(out)@ + char_repeat(c, i as int),
        decreases n - i,
    {
        out.push(c);
        proof {
            assert(out@ =~= old(out)@ + char_repeat(c, i + 1));
        }
        i = i + 1;
    }
    proof {
        assert(out@ =~= old(out)@ + char_repeat(c, n as int));
    }
}

/// Appends the characters `[from, to)` of `s`.
fn push_range(out: &mut Vec<char>, s: &Vec<char>, from: usize, to: usize)
    requires
        from <= to <= s@.len(),
    ensures
        final(out)@ == old(out)@ + s@.subrange(from as int, to as int),
{
    let mut i: usize = from;
    while i < to
        invariant
            from <= i <= to <= s@.len(),
            out@ == old(out)@ + s@.subrange(from as int, i as int),
        decreases to - i,
    {
        out.push(s[i]);
        proof {
            assert(out@ =~= old(out)@ + s@.subrange(from as int, i + 1));
        }
        i = i + 1;
    }
}

/// The decimal digit character for `d`.
fn dec_digit_char(d: u64) -> (c: char)
    requires
        d < 10,
    ensures
        c == dec_digit(d as int),
{
    if d == 0 {
        '0'
    } else if d == 1 {
        '1'
    } else if d == 2 {
        '2'
    } else if d == 3 {
        '3'
    } else if d == 4 {
        '4'
    } else if d == 5 {
        '5'
    } else if d == 6 {
        '6'
    } else if d == 7 {
        '7'
    } else if d == 8 {
        '8'
    } else {
        '9'
    }
}

/// Appends the decimal rendering of `n`.
fn push_dec(out: &mut Vec<char>, n: usize) -> (count: usize)
    ensures
        final(out)@ == old(out)@ + dec_rep(n as int),
        count == dec_rep(n as int).len(),
{
    if n == 0 {
        out.push('0');
        proof {
            assert(dec_rep(0) =~= seq![dec_digit(0)]);
            assert(out@ =~= old(out)@ + dec_rep(0));
        }
        return 1;
    }
    let mut digits: Vec<char> = Vec::new();
    let mut m: u64 = n as u64;
    proof {
        assert(digits@.reverse() =~= Seq::<char>::empty());
        assert(dec_rep(m as int) + digits@.reverse() =~= dec_rep(n as int));
    }
    while m > 0
        invariant
            m > 0 ==> dec_rep(n as int) == dec_rep(m as int) + digits@.reverse(),
            m == 0 ==> dec_rep(n as int) == digits@.reverse(),
        decreases m,
    {
        let d = dec_digit_char(m % 10);
        digits.push(d);
        proof {
            assert(digits@.reverse() =~= seq![d] + digits@.drop_last().reverse());
            if m >= 10 {
                assert(dec_rep(m as int) == dec_rep(m as int / 10).push(dec_digit(m as int % 10)));
                assert(dec_rep(m as int / 10) == dec_rep((m / 10) as int));
                assert(dec_rep(m as int) + digits@.drop_last().reverse() =~= dec_rep(
                    (m / 10) as int,
                ) + digits@.reverse());
            } else {
                assert(dec_rep(m as int) =~= seq![dec_digit(m as int)]);
                assert(dec_rep(m as int) + digits@.drop_last().reverse() =~= digits@.reverse());
            }
        }
        m = m / 10;
    }
    let k = digits.len();
    let mut i: usize = k;
    let ghost out0 = out@;
    while i > 0
        invariant
            i <= k,
            k == digits@.len(),
            out@ == out0 + digits@.reverse().subrange(0, (k - i) as int),
        decreases i,
    {
        i = i - 1;
        out.push(digits[i]);
        proof {
            assert(digits@.reverse()[(k - i - 1) as int] == digits@[i as int]);
            assert(out@ =~= out0 + digits@.reverse().subrange(0, (k - i) as int));
        }
    }
    proof {
        assert(digits@.reverse().subrange(0, k as int) =~= digits@.reverse());
        assert(out@ =~= old(out)@ + dec_rep(n as int));
    }
    k
}

/// The first `[i, j)` with `j` at a newline or the text's end describes the
/// line starting at `i`; its length is what `first_newline` computes.
proof fn lemma_first_newline_at(s: Seq<char>, i: int, j: int)
    requires
        0 <= i <= j <= s.len(),
        forall|p: int| i <= p < j ==> s[p] != '\n',
        j == s.len() || s[j] == '\n',
    ensures
        first_newline(s.skip(i)) == j - i,
    decreases j - i,
{
    if i < j {
        lemma_first_newline_at(s, i + 1, j);
        assert(s.skip(i).first() == s[i]);
        assert(s.skip(i).drop_first() =~= s.skip(i + 1));
        assert(s[i] != '\n');
    } else {
        if i < s.len() {
            assert(s.skip(i).first() == s[i]);
        }
    }
}

/// A span of the input program, used for reporting location-based errors.
/// Offsets count characters; the parser reports byte offsets, and the two
/// agree on the ASCII program text the language's grammar accepts.
#[derive(Clone, Debug, Hash, PartialEq, Eq, PartialOrd, Ord)]
pub struct Span {
    /// The input program's text.
    pub input: String,
    /// The character offset where the span starts.
    pub start: usize,
    /// The character offset just past the span's end.
    pub end: usize,
}

#[verifier::external_type_specification]
#[verifier::external_body]
pub struct ExPestSpan<'i>(ParserSpan<'i>);

/// Relies on `pest::Span::start`: reads the span's start offset.
#[verifier::external_body]
fn pest_span_start(sp: &ParserSpan<'_>) -> usize {
    sp.start()
}

/// Relies on `pest::Span::end`: reads the span's end offset.
#[verifier::external_body]
fn pest_span_end(sp: &ParserSpan<'_>) -> usize {
    sp.end()
}

impl Span {
    /// A span never ends before it starts.
    pub open spec fn wf(&self) -> bool {
        self.start <= self.end
    }

    /// Builds a span from a parser span and the input program's text.  A
    /// parser span's end never precedes its start; the constructor enforces
    /// the same invariant on the stored offsets, collapsing a malformed pair
    /// to an empty span.
    pub fn new(span: ParserSpan<'_>, input: String) -> (r: Span)
        ensures
            r.wf(),
            r.input@ == input@,
    {
        let s = pest_span_start(&span);
        let e = pest_span_end(&span);
        let end = if e < s {
            s
        } else {
            e
        };
        Span { input, start: s, end }
    }

    /// Renders this span with the error message `err_msg`: the numbered
    /// source line strictly containing the span, and a caret mark under the
    /// offending characters; empty when no line strictly contains it.
    pub fn format(&self, err_msg: &str) -> (r: String)
        requires
            self.wf(),
        ensures
            r@ == span_render(self.input@, self.start as int, self.end as int, err_msg@),
    {
        let cs = str_chars(self.input.as_str());
        let ms = str_chars(err_msg);
        let n = cs.len();
        let out: Vec<char> = Vec::new();
        let mut i: usize = 0;
        loop
            invariant
                self.wf(),
                cs@ == self.input@,
                ms@ == err_msg@,
                n == cs@.len(),
                i <= n,
                out@.len() == 0,
                render(cs@, i as int, self.start as int, self.end as int, ms@) == span_render(
                    self.input@,
                    self.start as int,
                    self.end as int,
                    err_msg@,
                ),
            decreases n - i,
        {
            let mut j: usize = i;
            while j < n && cs[j] != '\n'
                invariant
                    i <= j <= n,
                    n == cs@.len(),
                    forall|p: int| i <= p < j ==> cs@[p] != '\n',
                decreases n - j,
            {
                j = j + 1;
            }
            proof {
                lemma_first_newline_at(cs@, i as int, j as int);
            }
            if self.start > i && self.end < j {
                let h = build_header(&cs, &ms, i, j, self.start, self.end);
                return chars_to_string(&h);
            }
            if j == n {
                proof {
                    assert(render(cs@, i as int, self.start as int, self.end as int, ms@)
                        =~= Seq::<char>::empty());
                }
                return chars_to_string(&out);
            }
            i = j + 1;
        }
    }
}

/// The rendered report for the line `[i, j)` of `cs`, which strictly
/// contains the span `[start, end)`.
fn build_header(cs: &Vec<char>, ms: &Vec<char>, i: usize, j: usize, start: usize, end: usize) -> (r:
    Vec<char>)
    requires
        i <= j <= cs@.len(),
        i < start,
        start <= end,
        end < j,
    ensures
        r@ == header(cs@, i as int, j as int, start as int, end as int, ms@),
{
    let n = cs.len();
    let mut cnt: usize = 0;
    let mut p: usize = 0;
    while p < i
        invariant
            p <= i,
            i < n == cs@.len(),
            cnt <= p,
            cnt == nl_count(cs@, p as int),
        decreases i - p,
    {
        if cs[p] == '\n' {
            cnt = cnt + 1;
        }
        p = p + 1;
    }
    let linum = cnt + 1;
    let mut out: Vec<char> = Vec::new();
    out.push('\n');
    let digits = push_dec(&mut out, linum);
    out.push(' ');
    out.push('|');
    push_range(&mut out, cs, i, j);
    out.push('\n');
    push_repeat(&mut out, ' ', digits);
    out.push(' ');
    out.push('|');
    push_repeat(&mut out, ' ', start - i);
    push_repeat(&mut out, '^', end - start);
    out.push(' ');
    push_range(&mut out, ms, 0, ms.len());
    proof {
        assert(char_repeat(' ', digits as int).push(' ') =~= char_repeat(' ', digits as int + 1));
        assert(ms@.subrange(0, ms@.len() as int) =~= ms@);
        assert(out@ =~= header(cs@, i as int, j as int, start as int, end as int, ms@));
    }
    out
}

} // verus!
