//! A query request, and the lines of a body that arrives in pieces.

use vstd::prelude::*;
use vstd::string::*;
use vstd::utf8::*;
use std::collections::VecDeque;
use crate::protocol::{index_of, lemma_index_of_is};
use crate::text::{as_text, lemma_text_of_bytes};

verus! {

/// The line feed that ends a line.
pub const NEWLINE: u8 = 10;

/// The room for bytes that a new `LinesIterator` starts with.
pub const BUFFER_CAPACITY: usize = 1048576;

/// The body of a query request.
#[derive(Debug)]
pub struct Query {
    pub query: String,
    pub query_type: String,
}

/// The pairs of name and value that `url::form_urlencoded::parse` finds in
/// `input`, each percent-decoded, in their order.
pub uninterp spec fn form_pairs(input: Seq<u8>) -> Seq<(Seq<char>, Seq<char>)>;

/// What a run of string pairs holds.
pub open spec fn pair_texts(pairs: Seq<(String, String)>) -> Seq<(Seq<char>, Seq<char>)> {
    pairs.map_values(|p: (String, String)| (p.0@, p.1@))
}

/// Calls `url::form_urlencoded::parse` and collects the pairs that it hands
/// out, as owned strings. What it finds depends on the bytes alone, so the
/// contract equates it with `form_pairs`.
#[verifier::external_body]
fn form_urlencoded_parse(input: &[u8]) -> (pairs: Vec<(String, String)>)
    ensures
        pair_texts(pairs@) == form_pairs(input@),
{
    url::form_urlencoded::parse(input).into_owned().collect()
}

/// The parameters of a request: the pairs of its query string, or none
/// where it has no query string.
pub fn parse_query(path_query: Option<&str>) -> (pairs: Vec<(String, String)>)
    ensures
        pair_texts(pairs@) == match path_query {
            Some(q_str) => form_pairs(q_str.spec_bytes()),
            None => Seq::empty(),
        },
{
    match path_query {
        Some(q_str) => form_urlencoded_parse(q_str.as_bytes()),
        None => {
            let pairs: Vec<(String, String)> = Vec::with_capacity(0);
            assert(pair_texts(pairs@) =~= Seq::empty());
            pairs
        },
    }
}

/// What `LinesIterator::next` has found.
#[derive(Debug, PartialEq)]
pub enum LineStep {
    /// The next line, without its line feed.
    Line(String),
    /// The next line is not valid UTF-8; it is dropped.
    Invalid,
    /// No line is complete: more of the body is needed.
    Pending,
    /// The body has ended and all its lines were handed out.
    End,
}

/// What a step says.
pub enum StepView {
    Line(Seq<char>),
    Invalid,
    Pending,
    End,
}

impl View for LineStep {
    type V = StepView;

    open spec fn view(&self) -> StepView {
        match self {
            LineStep::Line(text) => StepView::Line(text@),
            LineStep::Invalid => StepView::Invalid,
            LineStep::Pending => StepView::Pending,
            LineStep::End => StepView::End,
        }
    }
}

/// The step that hands out the line `bytes`.
pub open spec fn line_step(bytes: Seq<u8>) -> StepView {
    if valid_utf8(bytes) {
        StepView::Line(decode_utf8(bytes))
    } else {
        StepView::Invalid
    }
}

/// The step that hands out the line `bytes`.
fn text_step(bytes: &[u8]) -> (step: LineStep)
    ensures
        step@ == line_step(bytes@),
{
    match as_text(bytes) {
        Some(text) => {
            proof {
                lemma_text_of_bytes(text);
            }
            LineStep::Line(String::from_str(text))
        },
        None => LineStep::Invalid,
    }
}

/// Cuts a body into lines. The pieces of the body are fed in as they
/// arrive; a line is handed out once its line feed has arrived, and what is
/// left at the end of the body is the last line.
pub struct LinesIterator {
    buffer: VecDeque<u8>,
    complete: bool,
}

impl LinesIterator {
    /// The bytes that arrived and were not handed out yet.
    pub closed spec fn buffer(&self) -> Seq<u8> {
        self.buffer@
    }

    /// True once the body has ended.
    pub closed spec fn complete(&self) -> bool {
        self.complete
    }

    /// No byte has arrived, and the body has not ended.
    pub fn new() -> (lines: Self)
        ensures
            lines.buffer() == Seq::<u8>::empty(),
            !lines.complete(),
    {
        LinesIterator { buffer: VecDeque::with_capacity(BUFFER_CAPACITY), complete: false }
    }

    /// Takes the next piece of the body.
    pub fn feed(&mut self, data: &[u8])
        ensures
            final(self).buffer() == old(self).buffer() + data@,
            final(self).complete() == old(self).complete(),
    {
        let mut i: usize = 0;
        while i < data.len()
            invariant
                i <= data@.len(),
                self.complete == old(self).complete,
                self.buffer@ == old(self).buffer@ + data@.take(i as int),
            decreases data@.len() - i,
        {
            self.buffer.push_back(data[i]);
            assert(self.buffer@ =~= old(self).buffer@ + data@.take(i + 1));
            i = i + 1;
        }
        assert(data@.take(data@.len() as int) == data@);
    }

    /// Takes note that the body has ended.
    pub fn finish(&mut self)
        ensures
            final(self).buffer() == old(self).buffer(),
            final(self).complete(),
    {
        self.complete = true;
    }

    /// The next line, if one is complete. A line ends before the first line
    /// feed; once the body has ended, what is left is the last line, unless
    /// nothing is left.
    pub fn next(&mut self) -> (step: LineStep)
        ensures
            final(self).complete() == old(self).complete(),
            ({
                let held = old(self).buffer();
                let n = index_of(held, NEWLINE);
                if n < held.len() {
                    &&& final(self).buffer() == held.skip(n + 1 as int)
                    &&& step@ == line_step(held.take(n as int))
                } else if old(self).complete() && held.len() > 0 {
                    &&& final(self).buffer() == Seq::<u8>::empty()
                    &&& step@ == line_step(held)
                } else {
                    &&& final(self).buffer() == held
                    &&& step@ == if old(self).complete() {
                        StepView::End
                    } else {
                        StepView::Pending
                    }
                }
            }),
    {
        let ghost held = self.buffer@;
        let size: usize = self.buffer.len();
        let mut idx: usize = 0;
        while idx < size && self.buffer[idx] != NEWLINE
            invariant
                idx <= size,
                size == self.buffer@.len(),
                self.buffer@ == held,
                self.complete == old(self).complete,
                forall|j: int| 0 <= j < idx ==> #[trigger] held[j] != NEWLINE,
            decreases size - idx,
        {
            idx = idx + 1;
        }
        proof {
            lemma_index_of_is(held, NEWLINE, idx as int);
        }
        if idx < size {
            let line: Vec<u8> = self.take_front(idx);
            let _ = self.buffer.pop_front();
            assert(self.buffer@ =~= held.skip(idx + 1));
            text_step(line.as_slice())
        } else if self.complete && size > 0 {
            let line: Vec<u8> = self.take_front(size);
            assert(held.take(size as int) == held);
            assert(self.buffer@ =~= Seq::<u8>::empty());
            text_step(line.as_slice())
        } else if self.complete {
            LineStep::End
        } else {
            LineStep::Pending
        }
    }

    /// Takes the first `n` bytes out of the buffer.
    fn take_front(&mut self, n: usize) -> (front: Vec<u8>)
        requires
            n <= old(self).buffer().len(),
        ensures
            front@ == old(self).buffer().take(n as int),
            final(self).buffer() == old(self).buffer().skip(n as int),
            final(self).complete() == old(self).complete(),
    {
        let ghost held = self.buffer@;
        let mut front: Vec<u8> = Vec::new();
        let mut i: usize = 0;
        while i < n
            invariant
                i <= n <= held.len(),
                self.complete == old(self).complete,
                front@ == held.take(i as int),
                self.buffer@ == held.skip(i as int),
            decreases n - i,
        {
            match self.buffer.pop_front() {
                Some(byte) => {
                    front.push(byte);
                    assert(front@ =~= held.take(i + 1));
                    assert(self.buffer@ =~= held.skip(i + 1));
                },
                None => {},
            }
            i = i + 1;
        }
        front
    }
}

} // verus!
