//! Input text, with the offsets of its lines.

use vstd::prelude::*;
use vstd::string::StringSliceAdditionalSpecFns;
use vstd::utf8::{
    encode_utf8, encode_utf8_valid_utf8, is_char_boundary, is_char_boundary_iff_not_is_continuation_byte,
    is_char_boundary_start_end_of_seq, length_of_first_scalar, pop_first_scalar, valid_utf8,
};

verus! {

/// The byte offsets below `upto`, in increasing order, at which `bytes` holds
/// a newline.
pub open spec fn newlines(bytes: Seq<u8>, upto: int) -> Seq<usize>
    decreases upto,
{
    if upto <= 0 {
        Seq::empty()
    } else if bytes[upto - 1] == 10u8 {
        newlines(bytes, upto - 1).push((upto - 1) as usize)
    } else {
        newlines(bytes, upto - 1)
    }
}

/// The offsets listed by `newlines` increase, lie below `upto`, and hold newlines.
pub proof fn lemma_newlines(bytes: Seq<u8>, upto: int)
    requires
        0 <= upto <= bytes.len() <= usize::MAX,
    ensures
        forall|k: int| 0 <= k < newlines(bytes, upto).len() ==> #[trigger] newlines(bytes, upto)[k] < upto
            && bytes[newlines(bytes, upto)[k] as int] == 10u8,
        forall|k1: int, k2: int|
            0 <= k1 < k2 < newlines(bytes, upto).len() ==> #[trigger] newlines(bytes, upto)[k1] < #[trigger] newlines(bytes, upto)[k2],
    decreases upto,
{
    if upto > 0 {
        lemma_newlines(bytes, upto - 1);
        let prev = newlines(bytes, upto - 1);
        if bytes[upto - 1] == 10u8 {
            let cur = prev.push((upto - 1) as usize);
            assert(newlines(bytes, upto) == cur);
            assert forall|k: int| 0 <= k < cur.len() implies #[trigger] cur[k] < upto && bytes[cur[k] as int] == 10u8 by {
                if k < prev.len() {
                    assert(cur[k] == prev[k]);
                }
            }
            assert forall|k1: int, k2: int| 0 <= k1 < k2 < cur.len() implies #[trigger] cur[k1] < #[trigger] cur[k2] by {
                assert(cur[k1] == prev[k1]);
                if k2 < prev.len() {
                    assert(cur[k2] == prev[k2]);
                }
            }
        } else {
            assert(newlines(bytes, upto) == prev);
        }
    }
}

/// In valid UTF-8, the offset just after a one-byte character is a character
/// boundary.
proof fn lemma_boundary_after_ascii(bytes: Seq<u8>, i: int)
    requires
        valid_utf8(bytes),
        0 <= i < bytes.len(),
        is_char_boundary(bytes, i),
        bytes[i] < 0x80,
    ensures
        is_char_boundary(bytes, i + 1),
    decreases bytes.len(),
{
    let l = length_of_first_scalar(bytes);
    let rest = pop_first_scalar(bytes);
    assert(1 <= l <= bytes.len());
    if i == 0 {
        assert(l == 1);
        assert(is_char_boundary(rest, 0));
    } else {
        assert(is_char_boundary(rest, i - l));
        assert(rest.len() == bytes.len() - l);
        assert(i - l >= 0);
        assert(rest[i - l] == bytes[i]);
        lemma_boundary_after_ascii(rest, i - l);
    }
}

/// The offsets at which a line of the text starts and ends are character
/// boundaries.
proof fn lemma_newline_boundaries(bytes: Seq<u8>, k: int)
    requires
        valid_utf8(bytes),
        0 <= k < bytes.len(),
        bytes[k] == 10u8,
    ensures
        is_char_boundary(bytes, k),
        is_char_boundary(bytes, k + 1),
{
    is_char_boundary_iff_not_is_continuation_byte(bytes, k);
    lemma_boundary_after_ascii(bytes, k);
}

/// A position in an input, as a line index and a column index, both from zero.
#[derive(Debug, Clone, Copy, PartialEq, Eq, Structural)]
pub struct Pos {
    /// The line index of the position
    pub line: usize,
    /// The column index of the position
    pub col: usize,
}

/// Text given to tokenizing and parsing, with the byte offset of each newline.
#[derive(Debug)]
pub struct Input {
    /// The path of the input, if known
    path: Option<String>,
    /// The text
    text: String,
    /// The byte offset of every newline in the text, in increasing order
    newline_table: Vec<usize>,
}

impl Input {
    /// The UTF-8 bytes of the text.
    pub closed spec fn bytes(&self) -> Seq<u8> {
        encode_utf8(self.text@)
    }

    /// The byte offsets of the newlines of the text.
    pub closed spec fn table(&self) -> Seq<usize> {
        self.newline_table@
    }

    /// The text as characters.
    pub closed spec fn text_view(&self) -> Seq<char> {
        self.text@
    }

    /// The path, if any.
    pub closed spec fn path_view(&self) -> Option<Seq<char>> {
        match self.path {
            Some(p) => Some(p@),
            None => None,
        }
    }

    /// The newline table lists exactly the newlines of the text.
    pub open spec fn wf(&self) -> bool {
        &&& self.bytes().len() <= usize::MAX
        &&& self.table() == newlines(self.bytes(), self.bytes().len() as int)
    }

    /// Number of lines: one more than the number of newlines.
    pub open spec fn line_count(&self) -> int {
        (self.table().len() + 1) as int
    }

    /// The byte offset at which line `line` starts.
    pub open spec fn line_start_spec(&self, line: int) -> int {
        if line == 0 {
            0
        } else {
            self.table()[line - 1] + 1
        }
    }

    /// The byte offset at which line `line` ends, before its newline.
    pub open spec fn line_end_spec(&self, line: int) -> int {
        if line >= self.table().len() {
            self.bytes().len() as int
        } else {
            self.table()[line] as int
        }
    }

    /// The line that byte offset `i` lies on, a newline counting to the line it ends.
    pub open spec fn line_of(&self, i: int, line: int) -> bool {
        &&& 0 <= line <= self.table().len()
        &&& (line == 0 || self.table()[line - 1] < i)
        &&& (line == self.table().len() || i <= self.table()[line])
    }

    /// The byte offsets of the newlines in `text`.
    fn find_newlines(text: &str) -> (r: Vec<usize>)
        ensures
            r@ == newlines(text.spec_bytes(), text.spec_bytes().len() as int),
            text.spec_bytes().len() <= usize::MAX,
    {
        let bytes = text.as_bytes();
        let mut r: Vec<usize> = Vec::new();
        let mut i: usize = 0;
        while i < bytes.len()
            invariant
                bytes@ == text.spec_bytes(),
                i <= bytes@.len(),
                r@ == newlines(bytes@, i as int),
            decreases bytes@.len() - i,
        {
            if bytes[i] == 10u8 {
                r.push(i);
            }
            i = i + 1;
        }
        r
    }

    /// An input without a path.
    pub fn new(text: String) -> (r: Input)
        ensures
            r.wf(),
            r.text_view() == text@,
            r.bytes() == encode_utf8(text@),
            r.path_view() is None,
    {
        let newline_table = Input::find_newlines(text.as_str());
        Input { path: None, text, newline_table }
    }

    /// An input read from `path`.
    pub fn new_with_path(text: String, path: String) -> (r: Input)
        ensures
            r.wf(),
            r.text_view() == text@,
            r.bytes() == encode_utf8(text@),
            r.path_view() == Some(path@),
    {
        let newline_table = Input::find_newlines(text.as_str());
        Input { path: Some(path), text, newline_table }
    }

    /// The text.
    pub fn as_str(&self) -> (r: &str)
        ensures
            r@ == self.text_view(),
    {
        self.text.as_str()
    }

    /// The path, if known.
    pub fn path(&self) -> (r: Option<&str>)
        ensures
            match r {
                Some(p) => self.path_view() == Some(p@),
                None => self.path_view() is None,
            },
    {
        match &self.path {
            Some(p) => Some(p.as_str()),
            None => None,
        }
    }

    /// The byte offsets of the newlines, in increasing order.
    pub fn newline_table(&self) -> (r: &Vec<usize>)
        ensures
            r@ == self.table(),
    {
        &self.newline_table
    }

    /// The byte offset at which line `line` starts.
    pub fn get_line_start(&self, line: usize) -> (r: usize)
        requires
            self.wf(),
            line < self.line_count(),
        ensures
            r == self.line_start_spec(line as int),
    {
        proof {
            lemma_newlines(self.bytes(), self.bytes().len() as int);
        }
        if line == 0 {
            0
        } else {
            self.newline_table[line - 1] + 1
        }
    }

    /// The byte offset at which line `line` ends, before its newline.
    pub fn get_line_end(&self, line: usize) -> (r: usize)
        requires
            self.wf(),
        ensures
            r == self.line_end_spec(line as int),
    {
        if line >= self.newline_table.len() {
            self.text.as_str().len()
        } else {
            self.newline_table[line]
        }
    }

    /// The byte offset at which row `row` starts.
    pub fn row_start(&self, row: usize) -> (r: usize)
        requires
            self.wf(),
            row < self.line_count(),
        ensures
            r == self.line_start_spec(row as int),
    {
        self.get_line_start(row)
    }

    /// The byte offset at which row `row` ends, before its newline.
    pub fn row_end(&self, row: usize) -> (r: usize)
        requires
            self.wf(),
        ensures
            r == self.line_end_spec(row as int),
    {
        self.get_line_end(row)
    }

    /// The text of line `line`, without its newline.
    pub fn get_line_slice(&self, line: usize) -> (r: &str)
        requires
            self.wf(),
            line < self.line_count(),
        ensures
            r.spec_bytes() == self.bytes().subrange(self.line_start_spec(line as int), self.line_end_spec(line as int)),
    {
        let lo = self.get_line_start(line);
        let hi = self.get_line_end(line);
        let ghost b = self.bytes();
        proof {
            encode_utf8_valid_utf8(self.text@);
            lemma_newlines(b, b.len() as int);
            is_char_boundary_start_end_of_seq(b);
            if line > 0 {
                lemma_newline_boundaries(b, self.table()[line - 1] as int);
            }
            if line < self.table().len() {
                lemma_newline_boundaries(b, self.table()[line as int] as int);
                if line > 0 {
                    assert(self.table()[line - 1] < self.table()[line as int]);
                }
            }
        }
        let s = self.text.as_str();
        let (head, _tail) = s.split_at(hi);
        proof {
            let hb = head.spec_bytes();
            encode_utf8_valid_utf8(head@);
            is_char_boundary_start_end_of_seq(hb);
            if 0 < lo && lo < hi {
                is_char_boundary_iff_not_is_continuation_byte(b, lo as int);
                is_char_boundary_iff_not_is_continuation_byte(hb, lo as int);
            }
        }
        let (_front, body) = head.split_at(lo);
        proof {
            assert(body.spec_bytes() =~= b.subrange(lo as int, hi as int));
        }
        body
    }

    /// The text of row `row`, without its newline.
    pub fn get_row_slice(&self, row: usize) -> (r: &str)
        requires
            self.wf(),
            row < self.line_count(),
        ensures
            r.spec_bytes() == self.bytes().subrange(self.line_start_spec(row as int), self.line_end_spec(row as int)),
    {
        self.get_line_slice(row)
    }

    /// The line that byte offset `text_index` lies on; a newline belongs to the
    /// line it ends.
    pub fn get_line_num(&self, text_index: usize) -> (r: usize)
        requires
            self.wf(),
        ensures
            self.line_of(text_index as int, r as int),
    {
        proof {
            lemma_newlines(self.bytes(), self.bytes().len() as int);
        }
        let table = &self.newline_table;
        let mut lo: usize = 0;
        let mut hi: usize = table.len();
        while lo < hi
            invariant
                table@ == self.table(),
                forall|k1: int, k2: int| 0 <= k1 < k2 < table@.len() ==> #[trigger] table@[k1] < #[trigger] table@[k2],
                0 <= lo <= hi <= table@.len(),
                forall|k: int| 0 <= k < lo ==> #[trigger] table@[k] < text_index,
                forall|k: int| hi <= k < table@.len() ==> text_index <= #[trigger] table@[k],
            decreases hi - lo,
        {
            let mid = lo + (hi - lo) / 2;
            if table[mid] < text_index {
                proof {
                    assert forall|k: int| 0 <= k < mid + 1 implies #[trigger] table@[k] < text_index by {
                        if k < mid {
                            assert(table@[k] < table@[mid as int]);
                        }
                    }
                }
                lo = mid + 1;
            } else {
                proof {
                    assert forall|k: int| mid <= k < table@.len() implies text_index <= #[trigger] table@[k] by {
                        if k > mid {
                            assert(table@[mid as int] < table@[k]);
                        }
                    }
                }
                hi = mid;
            }
        }
        lo
    }

    /// The row that byte offset `text_index` lies on; a newline belongs to the
    /// row it ends.
    pub fn get_row_num(&self, text_index: usize) -> (r: usize)
        requires
            self.wf(),
        ensures
            self.line_of(text_index as int, r as int),
    {
        self.get_line_num(text_index)
    }

    /// The line and column of byte offset `text_index`.
    pub fn get_pos(&self, text_index: usize) -> (r: Pos)
        requires
            self.wf(),
        ensures
            self.line_of(text_index as int, r.line as int),
            r.col == text_index - self.line_start_spec(r.line as int),
    {
        let line = self.get_line_num(text_index);
        if line == 0 {
            Pos { line, col: text_index }
        } else {
            let col = text_index - self.get_line_start(line);
            Pos { line, col }
        }
    }

    /// Lines are ordered as the offsets on them.
    pub proof fn lemma_line_of_monotone(&self, i: int, j: int, li: int, lj: int)
        requires
            self.wf(),
            i <= j,
            self.line_of(i, li),
            self.line_of(j, lj),
        ensures
            li <= lj,
    {
        lemma_newlines(self.bytes(), self.bytes().len() as int);
        if lj < li {
            assert(self.table()[lj] < self.table()[li - 1] || lj == li - 1);
        }
    }
}

} // verus!