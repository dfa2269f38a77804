//! Rendering of lines of an input with underlines and a message.

use vstd::prelude::*;
use vstd::string::{StringExecFns, StringSliceAdditionalSpecFns};
use vstd::utf8::{decode_utf8, encode_utf8_decode_utf8};
use crate::text::Input;

verus! {

/// A run of carets under part of a line: `len` characters from column `start`.
#[derive(Debug, Clone, Copy, PartialEq, Eq, Structural)]
pub struct Underline {
    pub start: usize,
    pub len: usize,
}

/// `n` spaces.
pub open spec fn spaces(n: int) -> Seq<char> {
    Seq::new(n as nat, |i: int| ' ')
}

/// `n` copies of `c`.
pub open spec fn repeat(c: char, n: int) -> Seq<char> {
    Seq::new(n as nat, |i: int| c)
}

/// The decimal digit for `d`.
pub open spec fn digit_char(d: int) -> char {
    seq!['0', '1', '2', '3', '4', '5', '6', '7', '8', '9'][d]
}

/// The decimal representation of `n`.
pub open spec fn decimal(n: nat) -> Seq<char>
    decreases n,
{
    if n < 10 {
        seq![digit_char(n as int)]
    } else {
        decimal(n / 10) + seq![digit_char((n % 10) as int)]
    }
}

/// The marker drawn under a line: carets under `len` characters from column
/// `offset`, or, for an empty run, a pointer between two columns.
pub open spec fn underline_text(offset: int, len: int) -> Seq<char> {
    if len == 0 {
        if offset > 0 {
            spaces(offset - 1) + seq!['>', '<']
        } else {
            seq!['<']
        }
    } else {
        spaces(offset) + repeat('^', len)
    }
}

/// The lines listed are in strictly increasing order.
pub open spec fn sorted_lines(lines: Seq<(usize, Option<Underline>)>) -> bool {
    forall|i: int, j: int| 0 <= i < j < lines.len() ==> (#[trigger] lines[i]).0 < (#[trigger] lines[j]).0
}

/// The number of decimal digits of `n`.
fn num_dec_digits(n: usize) -> (r: usize)
    ensures
        r == decimal(n as nat).len(),
        1 <= r <= n as int / 10 + 1,
    decreases n,
{
    if n < 10 {
        1
    } else {
        let r = num_dec_digits(n / 10);
        proof {
            assert(decimal(n as nat) == decimal((n / 10) as nat) + seq![digit_char((n % 10) as int)]);
        }
        r + 1
    }
}

/// Appends the digit `d`.
fn push_digit(out: &mut String, d: usize)
    requires
        d < 10,
    ensures
        final(out)@ == old(out)@ + seq![digit_char(d as int)],
{
    let s = match d {
        0 => "0",
        1 => "1",
        2 => "2",
        3 => "3",
        4 => "4",
        5 => "5",
        6 => "6",
        7 => "7",
        8 => "8",
        _ => "9",
    };
    proof {
        reveal_strlit("0");
        reveal_strlit("1");
        reveal_strlit("2");
        reveal_strlit("3");
        reveal_strlit("4");
        reveal_strlit("5");
        reveal_strlit("6");
        reveal_strlit("7");
        reveal_strlit("8");
        reveal_strlit("9");
    }
    out.append(s);
}

/// Appends the decimal representation of `n`.
fn push_decimal(out: &mut String, n: usize)
    ensures
        final(out)@ == old(out)@ + decimal(n as nat),
    decreases n,
{
    if n >= 10 {
        push_decimal(out, n / 10);
        push_digit(out, n % 10);
        assert(final(out)@ =~= old(out)@ + decimal(n as nat));
    } else {
        push_digit(out, n);
    }
}

/// Appends `n` copies of the one-character string `c`.
fn push_repeat(out: &mut String, c: &str, n: usize)
    requires
        c@.len() == 1,
    ensures
        final(out)@ == old(out)@ + repeat(c@[0], n as int),
{
    let ghost start = out@;
    let mut i: usize = 0;
    while i < n
        invariant
            c@.len() == 1,
            i <= n,
            out@ == start + repeat(c@[0], i as int),
        decreases n - i,
    {
        out.append(c);
        i = i + 1;
        assert(out@ =~= start + repeat(c@[0], i as int));
    }
}

/// Appends `n` spaces.
fn push_spaces(out: &mut String, n: usize)
    ensures
        final(out)@ == old(out)@ + spaces(n as int),
{
    proof {
        reveal_strlit(" ");
    }
    push_repeat(out, " ", n);
    assert(final(out)@ =~= old(out)@ + spaces(n as int));
}

/// The marker drawn under a line, see `underline_text`.
pub fn make_underline(offset: usize, len: usize) -> (r: String)
    ensures
        r@ == underline_text(offset as int, len as int),
{
    let mut out = String::new();
    if len == 0 {
        if offset > 0 {
            push_spaces(&mut out, offset - 1);
            proof {
                reveal_strlit("><");
            }
            out.append("><");
        } else {
            proof {
                reveal_strlit("<");
            }
            out.append("<");
        }
    } else {
        push_spaces(&mut out, offset);
        proof {
            reveal_strlit("^");
        }
        push_repeat(&mut out, "^", len);
    }
    assert(out@ =~= underline_text(offset as int, len as int));
    out
}

/// A longer number has at least as many digits.
proof fn lemma_decimal_len_mono(a: nat, b: nat)
    requires
        a <= b,
    ensures
        decimal(a).len() <= decimal(b).len(),
    decreases b,
{
    if a >= 10 {
        lemma_decimal_len_mono(a / 10, b / 10);
    } else if b >= 10 {
        lemma_decimal_len_mono(b / 10, b / 10);
    }
}

/// Where `line` goes in the sorted list `lines`: the number of leading
/// entries below it.
pub open spec fn position(lines: Seq<(usize, Option<Underline>)>, line: usize) -> int
    decreases lines.len(),
{
    if lines.len() == 0 || lines[0].0 >= line {
        0
    } else {
        1 + position(lines.drop_first(), line)
    }
}

/// The text of line `l` of `input`.
pub open spec fn line_text(input: &Input, l: int) -> Seq<char> {
    decode_utf8(input.bytes().subrange(input.line_start_spec(l), input.line_end_spec(l)))
}

/// The rendering of entry `k` of `lines`, with line numbers right-aligned in
/// width `w`, preceded by an ellipsis when lines were skipped since the entry
/// before.
pub open spec fn entry_text(input: &Input, w: int, lines: Seq<(usize, Option<Underline>)>, k: int) -> Seq<char> {
    let l = lines[k].0;
    let gap = if k > 0 && lines[k - 1].0 + 1 < l {
        spaces(w) + " | ...\n"@
    } else {
        Seq::empty()
    };
    let under = match lines[k].1 {
        Some(u) => spaces(w) + " | "@ + underline_text(u.start as int, u.len as int) + "\n"@,
        None => Seq::empty(),
    };
    gap + spaces(w - decimal(l as nat).len()) + decimal(l as nat) + " | "@ + line_text(input, l as int) + "\n"@ + under
}

/// The rendering of the first `k` entries of `lines`.
pub open spec fn body_text(input: &Input, w: int, lines: Seq<(usize, Option<Underline>)>, k: int) -> Seq<char>
    decreases k,
{
    if k <= 0 {
        Seq::empty()
    } else {
        body_text(input, w, lines, k - 1) + entry_text(input, w, lines, k - 1)
    }
}

/// A set of lines of an input, each possibly underlined, and a message, to be
/// shown together.
pub struct AnnotationBuilder<'a> {
    input: &'a Input,
    lines: Vec<(usize, Option<Underline>)>,
    message: Option<String>,
}

impl<'a> AnnotationBuilder<'a> {
    /// The input annotated.
    pub closed spec fn input_view(&self) -> &'a Input {
        self.input
    }

    /// The lines shown, in increasing order, each with its underline.
    pub closed spec fn lines_view(&self) -> Seq<(usize, Option<Underline>)> {
        self.lines@
    }

    /// The message, if set.
    pub closed spec fn message_view(&self) -> Option<Seq<char>> {
        match self.message {
            Some(m) => Some(m@),
            None => None,
        }
    }

    /// The lines are listed once each, in increasing order.
    pub open spec fn wf(&self) -> bool {
        sorted_lines(self.lines_view())
    }

    /// The full rendering of the annotation.
    pub open spec fn render_spec(&self) -> Seq<char> {
        let lines = self.lines_view();
        if lines.len() == 0 {
            "AnnotationBuilder: No Contents to Display"@
        } else {
            let w = decimal(lines[lines.len() - 1].0 as nat).len() + 1int;
            let m = spaces(w);
            let head = match self.input_view().path_view() {
                Some(p) => m + "--> "@ + p + ":"@ + decimal(lines[0].0 as nat) + "\n"@,
                None => Seq::empty(),
            };
            let tail = match self.message_view() {
                Some(msg) => m + " = "@ + msg,
                None => Seq::empty(),
            };
            head + m + " |\n"@ + body_text(self.input_view(), w, lines, lines.len() as int) + m + " |\n"@ + tail
        }
    }

    /// An empty annotation of `input`.
    pub fn new(input: &'a Input) -> (r: AnnotationBuilder<'a>)
        ensures
            r.wf(),
            r.input_view() == input,
            r.lines_view().len() == 0,
            r.message_view() is None,
    {
        AnnotationBuilder { input, lines: Vec::new(), message: None }
    }

    /// The index of the first entry whose line is at least `line`.
    fn locate(&self, line: usize) -> (r: usize)
        ensures
            r == position(self.lines@, line),
            r <= self.lines@.len(),
            forall|k: int| 0 <= k < r ==> (#[trigger] self.lines@[k]).0 < line,
            r < self.lines@.len() ==> self.lines@[r as int].0 >= line,
    {
        let mut i: usize = 0;
        assert(self.lines@.subrange(0, self.lines@.len() as int) =~= self.lines@);
        while i < self.lines.len() && self.lines[i].0 < line
            invariant
                i <= self.lines@.len(),
                forall|k: int| 0 <= k < i ==> (#[trigger] self.lines@[k]).0 < line,
                position(self.lines@, line) == i + position(self.lines@.subrange(i as int, self.lines@.len() as int), line),
            decreases self.lines@.len() - i,
        {
            proof {
                let rest = self.lines@.subrange(i as int, self.lines@.len() as int);
                assert(rest.drop_first() =~= self.lines@.subrange(i + 1, self.lines@.len() as int));
            }
            i = i + 1;
        }
        i
    }

    /// Inserts `entry` at `p` in the sorted list, where it fits.
    proof fn lemma_insert_sorted(lines: Seq<(usize, Option<Underline>)>, p: int, entry: (usize, Option<Underline>))
        requires
            sorted_lines(lines),
            0 <= p <= lines.len(),
            forall|k: int| 0 <= k < p ==> (#[trigger] lines[k]).0 < entry.0,
            p < lines.len() ==> lines[p].0 > entry.0,
        ensures
            sorted_lines(lines.insert(p, entry)),
    {
        let n = lines.insert(p, entry);
        assert forall|i: int, j: int| 0 <= i < j < n.len() implies (#[trigger] n[i]).0 < (#[trigger] n[j]).0 by {
            if j < p {
            } else if j == p {
            } else if i < p {
                assert(lines[j - 1].0 >= lines[p].0);
            } else if i == p {
                assert(lines[j - 1].0 >= lines[p].0);
            } else {
            }
        }
    }

    /// Shows line `line`, without underline unless it is already shown with one.
    pub fn add_line(&mut self, line: usize)
        requires
            old(self).wf(),
        ensures
            final(self).wf(),
            final(self).input_view() == old(self).input_view(),
            final(self).message_view() == old(self).message_view(),
            ({
                let old_lines = old(self).lines_view();
                let p = position(old_lines, line);
                final(self).lines_view() == if p < old_lines.len() && old_lines[p].0 == line {
                    old_lines
                } else {
                    old_lines.insert(p, (line, None))
                }
            }),
    {
        let p = self.locate(line);
        if p < self.lines.len() && self.lines[p].0 == line {
        } else {
            proof {
                Self::lemma_insert_sorted(self.lines@, p as int, (line, None));
            }
            self.lines.insert(p, (line, None));
        }
    }

    /// Shows line `line` with `underline` under it.
    pub fn add_line_underlined(&mut self, line: usize, underline: Underline)
        requires
            old(self).wf(),
        ensures
            final(self).wf(),
            final(self).input_view() == old(self).input_view(),
            final(self).message_view() == old(self).message_view(),
            ({
                let old_lines = old(self).lines_view();
                let p = position(old_lines, line);
                final(self).lines_view() == if p < old_lines.len() && old_lines[p].0 == line {
                    old_lines.update(p, (line, Some(underline)))
                } else {
                    old_lines.insert(p, (line, Some(underline)))
                }
            }),
    {
        let p = self.locate(line);
        if p < self.lines.len() && self.lines[p].0 == line {
            self.lines.set(p, (line, Some(underline)));
            proof {
                let n = self.lines@;
                assert forall|i: int, j: int| 0 <= i < j < n.len() implies (#[trigger] n[i]).0 < (#[trigger] n[j]).0 by {
                    assert(old(self).lines@[i].0 < old(self).lines@[j].0);
                }
            }
        } else {
            proof {
                Self::lemma_insert_sorted(self.lines@, p as int, (line, Some(underline)));
            }
            self.lines.insert(p, (line, Some(underline)));
        }
    }

    /// Sets the message shown below the lines.
    pub fn set_message(&mut self, message: String)
        ensures
            final(self).input_view() == old(self).input_view(),
            final(self).lines_view() == old(self).lines_view(),
            final(self).message_view() == Some(message@),
    {
        self.message = Some(message);
    }

    /// Appends the ellipsis shown before entry `k` when lines were skipped.
    fn push_gap(&self, out: &mut String, w: usize, k: usize)
        requires
            k < self.lines_view().len(),
        ensures
            final(out)@ == old(out)@ + (if k > 0 && self.lines_view()[k - 1].0 + 1 < self.lines_view()[k as int].0 {
                spaces(w as int) + " | ...\n"@
            } else {
                Seq::empty()
            }),
    {
        let line = self.lines[k].0;
        if k > 0 && line > 0 && self.lines[k - 1].0 < line - 1 {
            push_spaces(out, w);
            out.append(" | ...\n");
            assert(final(out)@ =~= old(out)@ + (spaces(w as int) + " | ...\n"@));
        } else {
            assert(final(out)@ =~= old(out)@ + Seq::<char>::empty());
        }
    }

    /// Appends line `line` with its number right-aligned in width `w`.
    fn push_numbered_line(&self, out: &mut String, w: usize, line: usize)
        requires
            self.input_view().wf(),
            line < self.input_view().line_count(),
            decimal(line as nat).len() < w,
        ensures
            final(out)@ == old(out)@ + (spaces(w - decimal(line as nat).len()) + decimal(line as nat) + " | "@ + line_text(
                self.input_view(),
                line as int,
            ) + "\n"@),
    {
        let digits = num_dec_digits(line);
        push_spaces(out, w - digits);
        push_decimal(out, line);
        out.append(" | ");
        let text = self.input.get_line_slice(line);
        proof {
            encode_utf8_decode_utf8(text@);
        }
        out.append(text);
        out.append("\n");
        assert(final(out)@ =~= old(out)@ + (spaces(w - decimal(line as nat).len()) + decimal(line as nat) + " | "@ + line_text(
            self.input_view(),
            line as int,
        ) + "\n"@));
    }

    /// Appends the underline of entry `k`, if it has one.
    fn push_underline(&self, out: &mut String, w: usize, k: usize)
        requires
            k < self.lines_view().len(),
        ensures
            final(out)@ == old(out)@ + match self.lines_view()[k as int].1 {
                Some(u) => spaces(w as int) + " | "@ + underline_text(u.start as int, u.len as int) + "\n"@,
                None => Seq::empty(),
            },
    {
        match self.lines[k].1 {
            Some(u) => {
                push_spaces(out, w);
                out.append(" | ");
                let marker = make_underline(u.start, u.len);
                out.append(marker.as_str());
                out.append("\n");
                assert(final(out)@ =~= old(out)@ + (spaces(w as int) + " | "@ + underline_text(u.start as int, u.len as int) + "\n"@));
            },
            None => {
                assert(final(out)@ =~= old(out)@ + Seq::<char>::empty());
            },
        }
    }

    /// Appends the rendering of entry `k`.
    fn push_entry(&self, out: &mut String, w: usize, k: usize)
        requires
            self.input_view().wf(),
            k < self.lines_view().len(),
            self.lines_view()[k as int].0 < self.input_view().line_count(),
            decimal(self.lines_view()[k as int].0 as nat).len() < w,
        ensures
            final(out)@ == old(out)@ + entry_text(self.input_view(), w as int, self.lines_view(), k as int),
    {
        let line = self.lines[k].0;
        self.push_gap(out, w, k);
        self.push_numbered_line(out, w, line);
        self.push_underline(out, w, k);
        assert(final(out)@ =~= old(out)@ + entry_text(self.input_view(), w as int, self.lines_view(), k as int));
    }

    /// The annotation as text: a margin as wide as the largest line number
    /// plus one, the path if known, each line with its number and underline
    /// (an ellipsis where lines are skipped), then the message.
    pub fn render(&self) -> (r: String)
        requires
            self.wf(),
            self.input_view().wf(),
            forall|k: int| 0 <= k < self.lines_view().len() ==> (#[trigger] self.lines_view()[k]).0 < self.input_view().line_count(),
        ensures
            r@ == self.render_spec(),
    {
        let n = self.lines.len();
        if n == 0 {
            return String::from_str("AnnotationBuilder: No Contents to Display");
        }
        let last = self.lines[n - 1].0;
        let first = self.lines[0].0;
        let w = num_dec_digits(last) + 1;
        let ghost ws = w as int;
        let ghost m = spaces(ws);
        let mut out = String::new();
        match self.input.path() {
            Some(p) => {
                push_spaces(&mut out, w);
                out.append("--> ");
                out.append(p);
                out.append(":");
                push_decimal(&mut out, first);
                out.append("\n");
            },
            None => {},
        }
        push_spaces(&mut out, w);
        out.append(" |\n");
        let ghost prefix = out@;
        let mut k: usize = 0;
        while k < n
            invariant
                self.wf(),
                self.input_view().wf(),
                forall|j: int| 0 <= j < self.lines_view().len() ==> (#[trigger] self.lines_view()[j]).0 < self.input_view().line_count(),
                n == self.lines_view().len(),
                n > 0,
                last == self.lines_view()[n - 1].0,
                w == decimal(last as nat).len() + 1,
                k <= n,
                out@ == prefix + body_text(self.input_view(), w as int, self.lines_view(), k as int),
            decreases n - k,
        {
            proof {
                if k < n - 1 {
                    assert(self.lines_view()[k as int].0 < self.lines_view()[n - 1].0);
                }
                lemma_decimal_len_mono(self.lines_view()[k as int].0 as nat, last as nat);
            }
            self.push_entry(&mut out, w, k);
            k = k + 1;
            proof {
                assert(out@ =~= prefix + body_text(self.input_view(), w as int, self.lines_view(), k as int));
            }
        }
        push_spaces(&mut out, w);
        out.append(" |\n");
        match &self.message {
            Some(msg) => {
                push_spaces(&mut out, w);
                out.append(" = ");
                out.append(msg.as_str());
            },
            None => {},
        }
        proof {
            assert(out@ =~= self.render_spec());
        }
        out
    }
}

} // verus!