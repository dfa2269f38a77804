//! Regions of an input carrying a value.

use vstd::prelude::*;
use crate::annotation::{position, AnnotationBuilder, Underline};
use crate::text::Input;

verus! {

/// A region `[start, stop)` of the bytes of an input, with a value attached.
pub struct Span<'a, T> {
    input: &'a Input,
    start: usize,
    stop: usize,
    /// The value attached to the region
    pub contents: T,
}

/// A division of an input into consecutive regions, each with a value attached.
pub struct SpanSeq<'a, T> {
    /// The input divided
    input: &'a Input,
    /// The exclusive upper bound of each region
    stops: Vec<usize>,
    /// The value attached to each region
    contents: Vec<T>,
}

impl<'a, T> Span<'a, T> {
    /// The input the region belongs to.
    pub closed spec fn input_view(&self) -> &'a Input {
        self.input
    }

    /// Where the region starts.
    pub closed spec fn start_view(&self) -> int {
        self.start as int
    }

    /// The value attached to the region.
    pub closed spec fn contents_view(&self) -> T {
        self.contents
    }

    /// Where the region stops.
    pub closed spec fn stop_view(&self) -> int {
        self.stop as int
    }

    /// Where the region starts.
    pub fn start(&self) -> (r: usize)
        ensures
            r == self.start_view(),
    {
        self.start
    }

    /// Where the region stops.
    pub fn stop(&self) -> (r: usize)
        ensures
            r == self.stop_view(),
    {
        self.stop
    }

    /// The input the region belongs to.
    pub fn input(&self) -> (r: &'a Input)
        ensures
            r == self.input_view(),
    {
        self.input
    }
}

impl<'a, T> Span<'a, T> {
    /// An annotation of the input that underlines this region and shows
    /// `message`: on its one line from its start column to its stop column;
    /// or, when it runs over several lines, on its first line from its start
    /// column by its stop offset less that column, and on its last line up to
    /// its stop column.
    pub fn annotation(&self, message: String) -> (r: AnnotationBuilder<'a>)
        requires
            self.input_view().wf(),
            self.start_view() <= self.stop_view(),
        ensures
            r.wf(),
            r.input_view() == self.input_view(),
            r.message_view() == Some(message@),
            ({
                let input = self.input_view();
                let lo = self.start_view();
                let hi = self.stop_view();
                exists|l1: int, l2: int| {
                    &&& input.line_of(lo, l1)
                    &&& input.line_of(hi, l2)
                    &&& r.lines_view() == if l1 == l2 {
                        seq![(l1 as usize, Some(Underline { start: (lo - input.line_start_spec(l1)) as usize, len: (hi - lo) as usize }))]
                    } else {
                        seq![
                            (l1 as usize, Some(Underline { start: (lo - input.line_start_spec(l1)) as usize, len: (input.line_end_spec(l1) - (lo - input.line_start_spec(l1))) as usize })),
                            (l2 as usize, Some(Underline { start: 0, len: (hi - input.line_start_spec(l2)) as usize })),
                        ]
                    }
                }
            }),
    {
        let input = self.input;
        let lower = input.get_pos(self.start);
        let upper = input.get_pos(self.stop);
        proof {
            input.lemma_line_of_monotone(self.start as int, self.stop as int, lower.line as int, upper.line as int);
        }
        let mut builder = AnnotationBuilder::new(input);
        if upper.line == lower.line {
            let underline = Underline { start: lower.col, len: upper.col - lower.col };
            builder.add_line_underlined(lower.line, underline);
            proof {
                assert(builder.lines_view() =~= seq![(lower.line, Some(underline))]);
            }
        } else {
            let first_end = input.get_line_end(lower.line);
            let first = Underline { start: lower.col, len: first_end - lower.col };
            builder.add_line_underlined(lower.line, first);
            let ghost one = builder.lines_view();
            proof {
                assert(one =~= seq![(lower.line, Some(first))]);
                assert(one.drop_first() =~= Seq::<(usize, Option<Underline>)>::empty());
                assert(position(one, upper.line) == 1 + position(one.drop_first(), upper.line));
            }
            let last = Underline { start: 0, len: upper.col };
            builder.add_line_underlined(upper.line, last);
            proof {
                assert(builder.lines_view() =~= seq![(lower.line, Some(first)), (upper.line, Some(last))]);
            }
        }
        builder.set_message(message);
        builder
    }
}

impl<'a, T: Copy> Span<'a, T> {
    /// The same region with `func` applied to its value.
    pub fn map_contents<B, F: Fn(T) -> B>(&self, func: F) -> (r: Span<'a, B>)
        requires
            func.requires((self.contents_view(),)),
        ensures
            r.input_view() == self.input_view(),
            r.start_view() == self.start_view(),
            r.stop_view() == self.stop_view(),
            func.ensures((self.contents_view(),), r.contents_view()),
    {
        Span { input: self.input, start: self.start, stop: self.stop, contents: func(self.contents) }
    }
}

impl<'a, T> SpanSeq<'a, T> {
    /// The input divided.
    pub closed spec fn input_view(&self) -> &'a Input {
        self.input
    }

    /// The exclusive upper bound of each region.
    pub closed spec fn stops_view(&self) -> Seq<usize> {
        self.stops@
    }

    /// The value attached to each region.
    pub closed spec fn contents_view(&self) -> Seq<T> {
        self.contents@
    }

    /// Where region `index` starts: where the one before it stops.
    pub open spec fn start_of(&self, index: int) -> int {
        if index == 0 {
            0
        } else {
            self.stops_view()[index - 1] as int
        }
    }
}

impl<'a, T: Copy> SpanSeq<'a, T> {
    /// Region `index` with its value.
    pub fn get_span(&self, index: usize) -> (r: Span<'a, T>)
        requires
            index < self.stops_view().len(),
            index < self.contents_view().len(),
        ensures
            r.input_view() == self.input_view(),
            r.start_view() == self.start_of(index as int),
            r.stop_view() == self.stops_view()[index as int],
            r.contents_view() == self.contents_view()[index as int],
    {
        let start = if index == 0 {
            0
        } else {
            self.stops[index - 1]
        };
        let stop = self.stops[index];
        let contents = self.contents[index];
        Span { input: self.input, start, stop, contents }
    }

    /// The regions `lower` to `upper`, both included, as one region with the value `contents`.
    pub fn get_range_as_span<B>(&self, lower: usize, upper: usize, contents: B) -> (r: Span<'a, B>)
        requires
            lower <= self.stops_view().len(),
            upper < self.stops_view().len(),
        ensures
            r.input_view() == self.input_view(),
            r.start_view() == self.start_of(lower as int),
            r.stop_view() == self.stops_view()[upper as int],
            r.contents_view() == contents,
    {
        let start = if lower == 0 {
            0
        } else {
            self.stops[lower - 1]
        };
        let stop = self.stops[upper];
        Span { input: self.input, start, stop, contents }
    }

    /// The same division with `func` applied to each value.
    pub fn map<B, F: Fn(&T) -> B>(&self, func: F) -> (r: SpanSeq<'a, B>)
        requires
            forall|i: int| 0 <= i < self.contents_view().len() ==> func.requires((&#[trigger] self.contents_view()[i],)),
        ensures
            r.input_view() == self.input_view(),
            r.stops_view() == self.stops_view(),
            r.contents_view().len() == self.contents_view().len(),
            forall|i: int| 0 <= i < self.contents_view().len() ==> func.ensures((&#[trigger] self.contents_view()[i],), r.contents_view()[i]),
    {
        let mut stops: Vec<usize> = Vec::new();
        let mut i: usize = 0;
        while i < self.stops.len()
            invariant
                i <= self.stops@.len(),
                stops@ == self.stops@.subrange(0, i as int),
            decreases self.stops@.len() - i,
        {
            stops.push(self.stops[i]);
            i = i + 1;
            assert(stops@ =~= self.stops@.subrange(0, i as int));
        }
        assert(stops@ =~= self.stops@);
        let mut contents: Vec<B> = Vec::new();
        let mut j: usize = 0;
        while j < self.contents.len()
            invariant
                j <= self.contents@.len(),
                contents@.len() == j,
                forall|k: int| 0 <= k < self.contents_view().len() ==> func.requires((&#[trigger] self.contents_view()[k],)),
                forall|k: int| 0 <= k < j ==> func.ensures((&#[trigger] self.contents_view()[k],), contents@[k]),
            decreases self.contents@.len() - j,
        {
            let item = &self.contents[j];
            assert(func.requires((&self.contents_view()[j as int],)));
            let b = func(item);
            contents.push(b);
            j = j + 1;
        }
        SpanSeq { input: self.input, stops, contents }
    }
}

impl Input {
    /// A division of this input into consecutive regions: region `i` stops at
    /// `stops[i]` and carries `contents[i]`.
    pub fn get_span_seq<T>(&self, stops: Vec<usize>, contents: Vec<T>) -> (r: SpanSeq<'_, T>)
        ensures
            r.input_view() == self,
            r.stops_view() == stops@,
            r.contents_view() == contents@,
    {
        SpanSeq { input: self, stops, contents }
    }

    /// The region `[start, stop)` of this input, carrying `contents`.
    pub fn get_span<T>(&self, start: usize, stop: usize, contents: T) -> (r: Span<'_, T>)
        ensures
            r.input_view() == self,
            r.start_view() == start,
            r.stop_view() == stop,
            r.contents_view() == contents,
    {
        Span { input: self, start, stop, contents }
    }
}

} // verus!
