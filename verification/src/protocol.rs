//! The line protocol: one record per line, made of a measurement name, an
//! optional list of tags, a list of fields and a timestamp.
//!
//! ```text
//! line      := name (',' tagset)? ' ' fieldset ' ' timestamp
//! tagset    := kv (',' kv)*
//! fieldset  := kv (',' kv)*
//! kv        := key '=' value
//! timestamp := [0-9]+
//! ```
//!
//! Names, keys and values are not empty and hold no space, comma or equals
//! sign. A line is text: bytes that are not valid UTF-8 are no line.

use vstd::prelude::*;
use vstd::string::*;
use vstd::utf8::*;
use crate::text::{as_text, substr};

verus! {

/// Parts the pairs of a list, and the name from the tags.
pub const COMMA: u8 = 44;

/// Parts key and value.
pub const EQUALS: u8 = 61;

/// Parts the name with its tags, the fields and the timestamp.
pub const SPACE: u8 = 32;

/// The index of the first `b` in `s`, or the length of `s` when it holds none.
pub open spec fn index_of(s: Seq<u8>, b: u8) -> nat
    decreases s.len(),
{
    if s.len() == 0 || s[0] == b {
        0
    } else {
        1 + index_of(s.drop_first(), b)
    }
}

/// What a line says.
pub struct LineParts {
    pub name: Seq<u8>,
    pub tags: Seq<(Seq<u8>, Seq<u8>)>,
    pub fields: Seq<(Seq<u8>, Seq<u8>)>,
    pub timestamp: u64,
}

/// Key and value of `key '=' value`, both not empty, with one equals sign.
pub open spec fn pair_of(item: Seq<u8>) -> Option<(Seq<u8>, Seq<u8>)> {
    let e = index_of(item, EQUALS);
    if 0 < e && e + 1 < item.len() && index_of(item.skip(e + 1 as int), EQUALS) == item.len() - e - 1 {
        Some((item.take(e as int), item.skip(e + 1 as int)))
    } else {
        None
    }
}

/// The pairs of a list `kv (',' kv)*`, in the order in which they are written.
pub open spec fn pairs_of(list: Seq<u8>) -> Option<Seq<(Seq<u8>, Seq<u8>)>>
    decreases list.len(),
{
    let c = index_of(list, COMMA);
    match pair_of(list.take(c as int)) {
        None => None,
        Some(first) => if c >= list.len() {
            Some(seq![first])
        } else {
            match pairs_of(list.skip(c + 1 as int)) {
                None => None,
                Some(rest) => Some(seq![first] + rest),
            }
        },
    }
}

/// True for the bytes `0` to `9`.
pub open spec fn is_digit(b: u8) -> bool {
    48 <= b <= 57
}

/// The number that a run of decimal digits writes.
pub open spec fn digits_value(s: Seq<u8>) -> nat
    decreases s.len(),
{
    if s.len() == 0 {
        0
    } else {
        digits_value(s.drop_last()) * 10 + (s.last() - 48) as nat
    }
}

/// The timestamp: one or more decimal digits whose number fits 64 bits.
pub open spec fn timestamp_of(s: Seq<u8>) -> Option<u64> {
    if s.len() > 0 && (forall|i: int| 0 <= i < s.len() ==> is_digit(#[trigger] s[i]))
        && digits_value(s) <= u64::MAX {
        Some(digits_value(s) as u64)
    } else {
        None
    }
}

/// What `line` says, if it follows the grammar.
pub open spec fn parse_line(line: Seq<u8>) -> Option<LineParts> {
    let first_space = index_of(line, SPACE);
    let head = line.take(first_space as int);
    let c = index_of(head, COMMA);
    let name = head.take(c as int);
    if first_space >= line.len() || name.len() == 0 || index_of(name, EQUALS) < name.len() {
        None
    } else {
        let tags = if c >= head.len() {
            Some(Seq::empty())
        } else {
            pairs_of(head.skip(c + 1 as int))
        };
        let after = line.skip(first_space + 1 as int);
        let second_space = index_of(after, SPACE);
        if second_space >= after.len() {
            None
        } else {
            match (tags, pairs_of(after.take(second_space as int)), timestamp_of(after.skip(second_space + 1 as int))) {
                (Some(tags), Some(fields), Some(timestamp)) => Some(
                    LineParts { name, tags, fields, timestamp },
                ),
                _ => None,
            }
        }
    }
}

/// `index_of` is within the sequence, nothing before it is `b`, and the byte
/// at it is.
pub proof fn lemma_index_of(s: Seq<u8>, b: u8)
    ensures
        index_of(s, b) <= s.len(),
        forall|j: int| 0 <= j < index_of(s, b) ==> #[trigger] s[j] != b,
        index_of(s, b) < s.len() ==> s[index_of(s, b) as int] == b,
    decreases s.len(),
{
    if s.len() == 0 || s[0] == b {
    } else {
        let rest = s.drop_first();
        lemma_index_of(rest, b);
        assert forall|j: int| 0 <= j < index_of(s, b) implies #[trigger] s[j] != b by {
            if j > 0 {
                assert(s[j] == rest[j - 1]);
            }
        }
    }
}

/// The first place at which `b` stands is `index_of`.
pub proof fn lemma_index_of_is(s: Seq<u8>, b: u8, i: int)
    requires
        0 <= i <= s.len(),
        forall|j: int| 0 <= j < i ==> #[trigger] s[j] != b,
        i < s.len() ==> s[i] == b,
    ensures
        index_of(s, b) == i,
    decreases s.len(),
{
    if s.len() == 0 || s[0] == b {
        if i > 0 {
            assert(s[0] != b);
        }
    } else {
        let rest = s.drop_first();
        assert forall|j: int| 0 <= j < i - 1 implies #[trigger] rest[j] != b by {
            assert(rest[j] == s[j + 1]);
        }
        lemma_index_of_is(rest, b, i - 1);
    }
}

/// Where key and value of one pair lie in the line.
#[derive(Clone, Copy, Debug)]
pub struct KV {
    start: usize,
    end: usize,
    divider: usize,
}

/// The pair that `kv` marks in `data`.
pub closed spec fn kv_pair(data: Seq<u8>, kv: KV) -> (Seq<u8>, Seq<u8>) {
    (data.subrange(kv.start as int, kv.divider as int), data.subrange(kv.divider + 1, kv.end as int))
}

/// `kv` lies within `data`, between ASCII bytes, with its equals sign at the
/// divider.
pub closed spec fn kv_ok(data: Seq<u8>, kv: KV) -> bool {
    &&& 0 < kv.start < kv.divider
    &&& kv.divider + 1 < kv.end <= data.len()
    &&& data[kv.start - 1] < 0x80
    &&& data[kv.divider as int] == EQUALS
    &&& (kv.end == data.len() || data[kv.end as int] < 0x80)
}

/// `kv` marks a pair within `data`: a key before the divider, a value
/// behind it, and the divider the only equals sign between start and end.
pub closed spec fn laid(data: Seq<u8>, kv: KV) -> bool {
    &&& kv.start < kv.divider
    &&& kv.divider + 1 < kv.end <= data.len()
    &&& data[kv.divider as int] == EQUALS
    &&& forall|k: int| kv.start <= k < kv.end && k != kv.divider ==> #[trigger] data[k] != EQUALS
}

/// Each pair but the last ends at a comma, and the next starts behind it.
pub closed spec fn chained(data: Seq<u8>, kvs: Seq<KV>) -> bool {
    forall|i: int|
        0 <= i && i + 1 < kvs.len() ==> (#[trigger] kvs[i]).end + 1 == kvs[i + 1].start
            && data[kvs[i].end as int] == COMMA
}

impl KV {
    fn new_kv_from(position: usize) -> (kv: KV)
        ensures
            kv.start == position && kv.end == 0 && kv.divider == 0,
    {
        KV { start: position, end: 0, divider: 0 }
    }

    fn is_complete(&self) -> (complete: bool)
        ensures
            complete == (self.start < self.divider && self.divider + 1 < self.end),
    {
        self.start < self.divider && self.divider < self.end && self.divider + 1 < self.end
    }
}

/// The first index in `from..to` at which `b` stands, or `to`.
pub(crate) fn find(line: &[u8], from: usize, to: usize, b: u8) -> (at: usize)
    requires
        from <= to <= line@.len(),
    ensures
        from <= at <= to,
        at == from + index_of(line@.subrange(from as int, to as int), b),
{
    let mut at: usize = from;
    while at < to && line[at] != b
        invariant
            from <= at <= to <= line@.len(),
            forall|j: int| from <= j < at ==> #[trigger] line@[j] != b,
        decreases to - at,
    {
        at = at + 1;
    }
    proof {
        let part = line@.subrange(from as int, to as int);
        assert forall|j: int| 0 <= j < at - from implies #[trigger] part[j] != b by {
            assert(part[j] == line@[from + j]);
        }
        lemma_index_of_is(part, b, at - from);
    }
    at
}

/// The pairs found so far, put before the pairs of what is left.
pub open spec fn pairs_after(
    done: Seq<(Seq<u8>, Seq<u8>)>,
    rest: Option<Seq<(Seq<u8>, Seq<u8>)>>,
) -> Option<Seq<(Seq<u8>, Seq<u8>)>> {
    match rest {
        None => None,
        Some(more) => Some(done + more),
    }
}

/// A parsed line: the text and the places of its parts.
#[derive(Clone, Debug)]
pub struct Line {
    data: String,
    series_name_len: usize,
    tags: Vec<KV>,
    fields: Vec<KV>,
    pub timestamp: u64,
}

/// Hands out the fields of a line one by one.
pub struct LineFieldIter<'a> {
    line: &'a Line,
    curr_field: usize,
}

impl<'a> LineFieldIter<'a> {
    fn new(line: &'a Line) -> (iter: LineFieldIter<'a>)
        requires
            line.wf(),
        ensures
            iter.wf(),
            iter.line() == *line,
            iter.index() == 0,
    {
        LineFieldIter { line, curr_field: 0 }
    }

    /// The line whose fields are handed out.
    pub closed spec fn line(&self) -> Line {
        *self.line
    }

    /// How many fields were handed out.
    pub closed spec fn index(&self) -> nat {
        self.curr_field as nat
    }

    /// What holds of every value that the functions of the type hand out.
    pub closed spec fn wf(&self) -> bool {
        self.line.wf() && self.curr_field <= self.line.fields.len()
    }

    /// The next field in the order in which the line writes them, or `None`
    /// behind the last.
    pub fn next(&mut self) -> (item: Option<(&'a str, &'a str)>)
        requires
            old(self).wf(),
        ensures
            final(self).wf(),
            final(self).line() == old(self).line(),
            final(self).index() <= usize::MAX,
            match item {
                Some((key, value)) => {
                    &&& old(self).index() < old(self).line().parts().fields.len()
                    &&& final(self).index() == old(self).index() + 1
                    &&& (key.spec_bytes(), value.spec_bytes()) == old(self).line().parts().fields[old(
                        self,
                    ).index() as int]
                },
                None => {
                    &&& old(self).index() >= old(self).line().parts().fields.len()
                    &&& final(self).index() == old(self).index()
                },
            },
    {
        if self.curr_field >= self.line.fields.len() {
            None
        } else {
            let kv: KV = self.line.fields[self.curr_field];
            let text: &'a str = self.line.data.as_str();
            let key: &'a str = substr(text, kv.start, kv.divider);
            let value: &'a str = substr(text, kv.divider + 1, kv.end);
            self.curr_field = self.curr_field + 1;
            Some((key, value))
        }
    }
}

/// The byte pairs of string pairs.
pub open spec fn pairs_bytes(pairs: Seq<(&str, &str)>) -> Seq<(Seq<u8>, Seq<u8>)> {
    pairs.map_values(|p: (&str, &str)| (p.0.spec_bytes(), p.1.spec_bytes()))
}

impl Line {
    /// The bytes of the line.
    pub closed spec fn bytes(&self) -> Seq<u8> {
        encode_utf8(self.data@)
    }

    /// The places of the parts lie within the line, between its separators.
    pub closed spec fn wf(&self) -> bool {
        &&& 0 < self.series_name_len < self.bytes().len()
        &&& self.bytes()[self.series_name_len as int] < 0x80
        &&& forall|i: int| 0 <= i < self.tags@.len() ==> kv_ok(self.bytes(), #[trigger] self.tags@[i])
        &&& forall|i: int|
            0 <= i < self.fields@.len() ==> kv_ok(self.bytes(), #[trigger] self.fields@[i])
    }

    /// What the line says.
    pub closed spec fn parts(&self) -> LineParts {
        LineParts {
            name: self.bytes().subrange(0, self.series_name_len as int),
            tags: self.tags@.map_values(|kv: KV| kv_pair(self.bytes(), kv)),
            fields: self.fields@.map_values(|kv: KV| kv_pair(self.bytes(), kv)),
            timestamp: self.timestamp,
        }
    }

    /// Reads the pair `key '=' value` that starts at `position` and ends
    /// before the next comma, or at `end`. Returns its place, or `None` when
    /// the bytes are no such pair.
    fn parse_pair(line: &[u8], position: usize, end: usize) -> (pair: Option<KV>)
        requires
            position <= end <= line@.len(),
        ensures
            ({
                let comma = position + index_of(
                    line@.subrange(position as int, end as int),
                    COMMA,
                );
                let item = line@.subrange(position as int, comma as int);
                match pair {
                    Some(kv) => {
                        &&& kv.start == position
                        &&& kv.end == comma
                        &&& comma <= end
                        &&& comma < end ==> line@[comma as int] == COMMA
                        &&& laid(line@, kv)
                        &&& pair_of(item) == Some(kv_pair(line@, kv))
                    },
                    None => pair_of(item) is None,
                }
            }),
    {
        let ghost rest = line@.subrange(position as int, end as int);
        let comma: usize = find(line, position, end, COMMA);
        let ghost item = line@.subrange(position as int, comma as int);
        let divider: usize = find(line, position, comma, EQUALS);
        proof {
            lemma_index_of(rest, COMMA);
            lemma_index_of(item, EQUALS);
        }
        let mut current_tag: KV = KV::new_kv_from(position);
        current_tag.divider = divider;
        current_tag.end = comma;
        if !current_tag.is_complete() {
            return None;
        }
        let second: usize = find(line, divider + 1, comma, EQUALS);
        let ghost value = line@.subrange(divider + 1, comma as int);
        proof {
            assert(item.skip(divider - position + 1) == value);
            lemma_index_of(value, EQUALS);
        }
        if second < comma {
            return None;
        }
        proof {
            assert(item.take(divider - position) == line@.subrange(position as int, divider as int));
            assert(item[divider - position] == EQUALS);
            assert(comma < end ==> rest[comma - position] == COMMA);
            assert forall|k: int| position <= k < comma && k != divider implies #[trigger] line@[k]
                != EQUALS by {
                if k < divider {
                    assert(item[k - position] == line@[k]);
                } else {
                    assert(value[k - divider - 1] == line@[k]);
                }
            }
        }
        Some(current_tag)
    }

    /// Reads the list `kv (',' kv)*` that starts at `start` and ends before
    /// the next space, or at the end of the line. Returns where it ends, and
    /// appends the places of its pairs to `tags`: the first pair starts at
    /// `start`, each next one behind the comma that ends the one before, and
    /// the last ends where the list ends. When the list is no such list,
    /// `tags` still begins with what it held.
    fn parse_keyvalues(line: &[u8], start: usize, tags: &mut Vec<KV>) -> (end: Result<usize, ()>)
        requires
            0 < start <= line@.len(),
        ensures
            final(tags)@.len() >= old(tags)@.len(),
            final(tags)@.take(old(tags)@.len() as int) == old(tags)@,
            ({
                let size = index_of(line@.skip(start as int), SPACE);
                let list = line@.subrange(start as int, start + size);
                let kvs = final(tags)@.skip(old(tags)@.len() as int);
                match end {
                    Ok(end) => {
                        &&& end == start + size
                        &&& pairs_of(list) is Some
                        &&& kvs.len() == pairs_of(list).unwrap().len()
                        &&& kvs.len() > 0
                        &&& kvs[0].start == start
                        &&& kvs[kvs.len() - 1].end == end
                        &&& chained(line@, kvs)
                        &&& forall|i: int|
                            0 <= i < kvs.len() ==> {
                                &&& laid(line@, #[trigger] kvs[i])
                                &&& kv_pair(line@, kvs[i]) == pairs_of(list).unwrap()[i]
                                &&& line@[start - 1] < 0x80 ==> kv_ok(line@, kvs[i])
                            }
                    },
                    Err(_) => pairs_of(list) is None,
                }
            }),
    {
        let end: usize = find(line, start, line.len(), SPACE);
        let ghost list = line@.subrange(start as int, end as int);
        let ghost done: Seq<(Seq<u8>, Seq<u8>)> = Seq::empty();
        let ghost before = tags@;
        proof {
            assert(line@.skip(start as int) == line@.subrange(start as int, line@.len() as int));
            lemma_index_of(line@.skip(start as int), SPACE);
            assert(tags@.skip(before.len() as int) =~= Seq::empty());
        }
        let mut position: usize = start;
        loop
            invariant
                0 < start <= position <= end <= line@.len(),
                end == start + index_of(line@.skip(start as int), SPACE),
                end == line@.len() || line@[end as int] == SPACE,
                list == line@.subrange(start as int, end as int),
                position == start || line@[position - 1] == COMMA,
                pairs_of(list) == pairs_after(
                    done,
                    pairs_of(line@.subrange(position as int, end as int)),
                ),
                before == old(tags)@,
                tags@.len() == before.len() + done.len(),
                tags@.take(before.len() as int) == before,
                done.len() == 0 ==> position == start,
                done.len() > 0 ==> tags@[before.len() as int].start == start && tags@[tags@.len()
                    - 1].end + 1 == position && line@[position - 1] == COMMA,
                chained(line@, tags@.skip(before.len() as int)),
                forall|j: int|
                    before.len() <= j < tags@.len() ==> {
                        &&& laid(line@, #[trigger] tags@[j])
                        &&& kv_pair(line@, tags@[j]) == done[j - before.len()]
                        &&& line@[start - 1] < 0x80 ==> kv_ok(line@, tags@[j])
                    },
            decreases end - position,
        {
            let ghost rest = line@.subrange(position as int, end as int);
            let current_tag: KV = match Line::parse_pair(line, position, end) {
                Some(kv) => kv,
                None => {
                    proof {
                        lemma_index_of(rest, COMMA);
                        assert(rest.take(index_of(rest, COMMA) as int) == line@.subrange(
                            position as int,
                            position + index_of(rest, COMMA),
                        ));
                    }
                    return Err(());
                },
            };
            let comma: usize = current_tag.end;
            let ghost first = kv_pair(line@, current_tag);
            let ghost pre = tags@;
            proof {
                assert(rest.take(comma - position) == line@.subrange(position as int, comma as int));
                assert(line@[start - 1] < 0x80 ==> kv_ok(line@, current_tag));
            }
            tags.push(current_tag);
            proof {
                let held = pre.skip(before.len() as int);
                let kvs = tags@.skip(before.len() as int);
                assert(tags@ == pre.push(current_tag));
                assert(tags@.take(before.len() as int) == pre.take(before.len() as int));
                assert(kvs == held.push(current_tag));
                assert(chained(line@, kvs)) by {
                    assert forall|i: int| 0 <= i && i + 1 < kvs.len() implies (
                    #[trigger] kvs[i]).end + 1 == kvs[i + 1].start && line@[kvs[i].end as int]
                        == COMMA by {
                        assert(kvs[i] == held[i]);
                        if i + 1 < held.len() {
                            assert(kvs[i + 1] == held[i + 1]);
                        } else {
                            assert(held[i] == pre[pre.len() - 1]);
                            assert(kvs[i + 1] == current_tag);
                        }
                    }
                }
                assert forall|j: int| before.len() <= j < tags@.len() implies {
                    &&& laid(line@, #[trigger] tags@[j])
                    &&& kv_pair(line@, tags@[j]) == done.push(first)[j - before.len()]
                    &&& line@[start - 1] < 0x80 ==> kv_ok(line@, tags@[j])
                } by {
                    if j < pre.len() {
                        assert(tags@[j] == pre[j]);
                    }
                }
                if pre.len() > before.len() {
                    assert(tags@[before.len() as int] == pre[before.len() as int]);
                }
            }
            if comma >= end {
                proof {
                    assert(rest.take(comma - position) == rest);
                    assert(done + seq![first] == done.push(first));
                    let kvs = tags@.skip(before.len() as int);
                    assert(kvs.len() == done.len() + 1);
                    assert forall|i: int| 0 <= i < kvs.len() implies #[trigger] kvs[i] == tags@[before.len()
                        + i] by {}
                }
                return Ok(end);
            }
            proof {
                let next = line@.subrange(comma + 1, end as int);
                assert(rest.skip(comma - position + 1) == next);
                match pairs_of(next) {
                    None => {},
                    Some(more) => {
                        assert(done + (seq![first] + more) == done.push(first) + more);
                    },
                }
                done = done.push(first);
            }
            position = comma + 1;
        }
    }

    /// Reads a list of pairs into an empty `pairs`, behind a separator of
    /// the line; see `parse_keyvalues`. The places that it finds are fit to
    /// cut the text at.
    fn read_pairs(line: &[u8], start: usize, pairs: &mut Vec<KV>) -> (end: Result<usize, ()>)
        requires
            0 < start <= line@.len(),
            line@[start - 1] < 0x80,
            old(pairs)@.len() == 0,
        ensures
            ({
                let size = index_of(line@.skip(start as int), SPACE);
                let list = line@.subrange(start as int, start + size);
                match end {
                    Ok(end) => {
                        &&& end == start + size
                        &&& pairs_of(list) is Some
                        &&& final(pairs)@.len() == pairs_of(list).unwrap().len()
                        &&& forall|j: int|
                            0 <= j < final(pairs)@.len() ==> {
                                &&& kv_ok(line@, #[trigger] final(pairs)@[j])
                                &&& kv_pair(line@, final(pairs)@[j]) == pairs_of(list).unwrap()[j]
                            }
                    },
                    Err(_) => pairs_of(list) is None,
                }
            }),
    {
        let end = Line::parse_keyvalues(line, start, pairs);
        proof {
            assert(pairs@.skip(0) == pairs@);
        }
        end
    }

    /// The timestamp.
    pub fn timestamp(&self) -> (timestamp: u64)
        ensures
            timestamp == self.parts().timestamp,
    {
        self.timestamp
    }

    /// The measurement name.
    pub fn timeseries_name(&self) -> (name: &str)
        requires
            self.wf(),
        ensures
            name.spec_bytes() == self.parts().name,
            name@ == decode_utf8(self.parts().name),
    {
        substr(self.data.as_str(), 0, self.series_name_len)
    }

    fn kvs_to_str<'a>(&'a self, kvs: &Vec<KV>) -> (pairs: Vec<(&'a str, &'a str)>)
        requires
            forall|i: int| 0 <= i < kvs@.len() ==> kv_ok(self.bytes(), #[trigger] kvs@[i]),
        ensures
            pairs_bytes(pairs@) == kvs@.map_values(|kv: KV| kv_pair(self.bytes(), kv)),
    {
        let mut result: Vec<(&'a str, &'a str)> = Vec::with_capacity(kvs.len());
        let text: &'a str = self.data.as_str();
        let mut i: usize = 0;
        while i < kvs.len()
            invariant
                i <= kvs@.len(),
                text@ == self.data@,
                forall|k: int| 0 <= k < kvs@.len() ==> kv_ok(self.bytes(), #[trigger] kvs@[k]),
                result@.len() == i,
                forall|k: int|
                    0 <= k < i ==> ((#[trigger] result@[k]).0.spec_bytes(), result@[k].1.spec_bytes())
                        == kv_pair(self.bytes(), kvs@[k]),
            decreases kvs@.len() - i,
        {
            let kv: KV = kvs[i];
            let key: &'a str = substr(text, kv.start, kv.divider);
            let value: &'a str = substr(text, kv.divider + 1, kv.end);
            result.push((key, value));
            i = i + 1;
        }
        assert(pairs_bytes(result@) == kvs@.map_values(|kv: KV| kv_pair(self.bytes(), kv)));
        result
    }

    /// The tags, in the order in which the line writes them.
    pub fn tags(&self) -> (tags: Vec<(&str, &str)>)
        requires
            self.wf(),
        ensures
            pairs_bytes(tags@) == self.parts().tags,
    {
        self.kvs_to_str(&self.tags)
    }

    /// The fields, in the order in which the line writes them.
    pub fn fields(&self) -> (fields: Vec<(&str, &str)>)
        requires
            self.wf(),
        ensures
            pairs_bytes(fields@) == self.parts().fields,
    {
        self.kvs_to_str(&self.fields)
    }

    /// The fields one by one, from the first.
    pub fn fields_iter(&self) -> (iter: LineFieldIter<'_>)
        requires
            self.wf(),
        ensures
            iter.wf(),
            iter.line() == *self,
            iter.index() == 0,
    {
        LineFieldIter::new(self)
    }

    /// Reads the measurement name at the start of the line. Returns its
    /// length and the place of the first space.
    fn parse_name(line: &[u8]) -> (ends: Option<(usize, usize)>)
        ensures
            ({
                let first_space = index_of(line@, SPACE);
                let head = line@.take(first_space as int);
                let c = index_of(head, COMMA);
                let name = head.take(c as int);
                &&& ends is None <==> (first_space >= line@.len() || name.len() == 0 || index_of(
                    name,
                    EQUALS,
                ) < name.len())
                &&& ends is Some ==> {
                    &&& ends.unwrap().0 == c
                    &&& ends.unwrap().1 == first_space
                    &&& 0 < c <= first_space < line@.len()
                    &&& line@[first_space as int] == SPACE
                    &&& c < first_space ==> line@[c as int] == COMMA
                }
            }),
    {
        let size: usize = line.len();
        let name_end: usize = find(line, 0, size, SPACE);
        proof {
            assert(line@.subrange(0, size as int) == line@);
            lemma_index_of(line@, SPACE);
        }
        if name_end >= size {
            return None;
        }
        let name_len: usize = find(line, 0, name_end, COMMA);
        let ghost head = line@.take(name_end as int);
        proof {
            assert(head.take(name_len as int) == line@.subrange(0, name_len as int));
            lemma_index_of(head, COMMA);
        }
        if name_len == 0 {
            return None;
        }
        let equals: usize = find(line, 0, name_len, EQUALS);
        if equals < name_len {
            return None;
        }
        Some((name_len, name_end))
    }

    /// Reads the timestamp that fills the line from `start` to its end.
    pub(crate) fn parse_timestamp(line: &[u8], start: usize) -> (timestamp: Option<u64>)
        requires
            start <= line@.len(),
        ensures
            timestamp == timestamp_of(line@.subrange(start as int, line@.len() as int)),
    {
        let size: usize = line.len();
        let ghost stamp = line@.subrange(start as int, size as int);
        let mut position: usize = start;
        let mut timestamp: u64 = 0;
        if position >= size {
            return None;
        }
        while position < size
            invariant
                start <= position <= size == line@.len(),
                stamp == line@.subrange(start as int, size as int),
                forall|j: int| 0 <= j < position - start ==> is_digit(#[trigger] stamp[j]),
                timestamp == digits_value(stamp.take(position - start)),
            decreases size - position,
        {
            let b: u8 = line[position];
            proof {
                assert(stamp[position - start] == b);
                assert(stamp.take(position - start + 1).drop_last() == stamp.take(
                    position - start,
                ));
            }
            if b < 48 || b > 57 {
                return None;
            }
            let digit: u64 = (b - 48) as u64;
            if timestamp > (u64::MAX - digit) / 10 {
                proof {
                    if timestamp_of(stamp) is Some {
                        lemma_digits_grow(stamp, position - start + 1);
                    }
                }
                return None;
            }
            timestamp = timestamp * 10 + digit;
            position = position + 1;
        }
        proof {
            assert(stamp.take(size - start) == stamp);
        }
        Some(timestamp)
    }

    /// Parses one line. Bytes that are not valid UTF-8 or do not follow the
    /// grammar give `None`.
    pub fn parse(line: &[u8]) -> (parsed: Option<Line>)
        ensures
            parsed is Some <==> valid_utf8(line@) && parse_line(line@) is Some,
            parsed matches Some(l) ==> {
                &&& l.wf()
                &&& l.bytes() == line@
                &&& l.parts() == parse_line(line@).unwrap()
            },
    {
        let text: &str = match as_text(line) {
            Some(text) => text,
            None => {
                return None;
            },
        };
        let size: usize = line.len();
        let (series_name_len, name_end) = match Line::parse_name(line) {
            Some(ends) => ends,
            None => {
                return None;
            },
        };
        let ghost head = line@.take(name_end as int);
        let ghost after = line@.skip(name_end + 1 as int);
        let ghost second_space = index_of(after, SPACE);
        let mut tags: Vec<KV> = Vec::new();
        if series_name_len < name_end {
            proof {
                lemma_space_after(line@, series_name_len + 1);
                assert(head.skip(series_name_len + 1) == line@.subrange(
                    series_name_len + 1,
                    name_end as int,
                ));
            }
            match Line::read_pairs(line, series_name_len + 1, &mut tags) {
                Ok(_) => {},
                Err(_) => {
                    return None;
                },
            }
        }
        proof {
            lemma_index_of(after, SPACE);
            assert(after.take(second_space as int) == line@.subrange(name_end + 1, name_end + 1 + second_space));
        }
        let mut fields: Vec<KV> = Vec::new();
        let fields_end: usize = match Line::read_pairs(line, name_end + 1, &mut fields) {
            Ok(end) => end,
            Err(_) => {
                return None;
            },
        };
        if fields_end >= size {
            return None;
        }
        proof {
            assert(after.skip(second_space + 1 as int) == line@.subrange(fields_end + 1, line@.len() as int));
        }
        let timestamp: u64 = match Line::parse_timestamp(line, fields_end + 1) {
            Some(timestamp) => timestamp,
            None => {
                return None;
            },
        };
        let parsed = Line {
            data: String::from_str(text),
            series_name_len,
            tags,
            fields,
            timestamp,
        };
        proof {
            let parts = parse_line(line@).unwrap();
            assert(parsed.bytes() == line@);
            assert(parsed.parts().name =~= parts.name);
            assert(parsed.parts().tags =~= parts.tags);
            assert(parsed.parts().fields =~= parts.fields);
        }
        Some(parsed)
    }
}

/// Behind any place before the first space, the first space is as far away
/// as from the start, less that place.
pub proof fn lemma_space_after(line: Seq<u8>, from: int)
    requires
        0 <= from <= index_of(line, SPACE),
    ensures
        index_of(line.skip(from), SPACE) == index_of(line, SPACE) - from,
{
    lemma_index_of(line, SPACE);
    let tail = line.skip(from);
    let at = index_of(line, SPACE) - from;
    assert forall|j: int| 0 <= j < at implies #[trigger] tail[j] != SPACE by {
        assert(tail[j] == line[from + j]);
    }
    lemma_index_of_is(tail, SPACE, at);
}

/// The number of a run of digits is at least the number of each of its
/// prefixes.
pub proof fn lemma_digits_grow(s: Seq<u8>, k: int)
    requires
        0 <= k <= s.len(),
        forall|i: int| 0 <= i < s.len() ==> is_digit(#[trigger] s[i]),
    ensures
        digits_value(s.take(k)) <= digits_value(s),
    decreases s.len() - k,
{
    if k < s.len() {
        lemma_digits_grow(s, k + 1);
        assert(s.take(k + 1).drop_last() == s.take(k));
    } else {
        assert(s.take(k) == s);
    }
}


/// True when `s` holds no `b`.
pub open spec fn free_of(s: Seq<u8>, b: u8) -> bool {
    forall|i: int| 0 <= i < s.len() ==> #[trigger] s[i] != b
}

/// A name, key or value: not empty, without space, comma or equals sign.
pub open spec fn token(s: Seq<u8>) -> bool {
    s.len() > 0 && free_of(s, SPACE) && free_of(s, COMMA) && free_of(s, EQUALS)
}

/// Every key and every value is a token.
pub open spec fn tokens(pairs: Seq<(Seq<u8>, Seq<u8>)>) -> bool {
    forall|i: int| 0 <= i < pairs.len() ==> token((#[trigger] pairs[i]).0) && token(pairs[i].1)
}

/// `key '=' value`.
pub open spec fn render_pair(pair: (Seq<u8>, Seq<u8>)) -> Seq<u8> {
    pair.0 + seq![EQUALS] + pair.1
}

/// The pairs, written one behind the other with commas between them.
pub open spec fn render_pairs(pairs: Seq<(Seq<u8>, Seq<u8>)>) -> Seq<u8>
    decreases pairs.len(),
{
    if pairs.len() == 0 {
        seq![]
    } else if pairs.len() == 1 {
        render_pair(pairs[0])
    } else {
        render_pair(pairs[0]) + seq![COMMA] + render_pairs(pairs.drop_first())
    }
}

/// The line that writes the given name, tags, fields and timestamp digits.
pub open spec fn render_line(
    name: Seq<u8>,
    tags: Seq<(Seq<u8>, Seq<u8>)>,
    fields: Seq<(Seq<u8>, Seq<u8>)>,
    stamp: Seq<u8>,
) -> Seq<u8> {
    let head = if tags.len() == 0 {
        name
    } else {
        name + seq![COMMA] + render_pairs(tags)
    };
    head + seq![SPACE] + render_pairs(fields) + seq![SPACE] + stamp
}

/// In `a sep rest`, where `a` holds no `sep`, the first `sep` stands behind
/// `a`.
pub proof fn lemma_index_of_joint(a: Seq<u8>, sep: u8, rest: Seq<u8>)
    requires
        free_of(a, sep),
    ensures
        index_of(a + seq![sep] + rest, sep) == a.len(),
        (a + seq![sep] + rest).take(a.len() as int) == a,
        (a + seq![sep] + rest).skip(a.len() + 1 as int) == rest,
        index_of(a, sep) == a.len(),
{
    let whole = a + seq![sep] + rest;
    assert forall|j: int| 0 <= j < a.len() implies #[trigger] whole[j] != sep by {
        assert(whole[j] == a[j]);
    }
    lemma_index_of_is(whole, sep, a.len() as int);
    lemma_index_of_is(a, sep, a.len() as int);
    assert(whole.take(a.len() as int) == a);
    assert(whole.skip(a.len() + 1 as int) == rest);
}

/// A written pair reads back as itself, and holds no comma and no space.
pub proof fn lemma_pair_of_render(pair: (Seq<u8>, Seq<u8>))
    requires
        token(pair.0),
        token(pair.1),
    ensures
        pair_of(render_pair(pair)) == Some(pair),
        free_of(render_pair(pair), COMMA),
        free_of(render_pair(pair), SPACE),
{
    let item = render_pair(pair);
    lemma_index_of_joint(pair.0, EQUALS, pair.1);
    lemma_index_of_is(pair.1, EQUALS, pair.1.len() as int);
    assert forall|i: int| 0 <= i < item.len() implies #[trigger] item[i] != COMMA && item[i]
        != SPACE by {
        if i < pair.0.len() {
            assert(item[i] == pair.0[i]);
        } else if i > pair.0.len() {
            assert(item[i] == pair.1[i - pair.0.len() - 1]);
        }
    }
}

/// A written list of pairs reads back as itself, and holds no space.
pub proof fn lemma_pairs_of_render(pairs: Seq<(Seq<u8>, Seq<u8>)>)
    requires
        pairs.len() > 0,
        tokens(pairs),
    ensures
        pairs_of(render_pairs(pairs)) == Some(pairs),
        free_of(render_pairs(pairs), SPACE),
    decreases pairs.len(),
{
    let first = render_pair(pairs[0]);
    lemma_pair_of_render(pairs[0]);
    if pairs.len() == 1 {
        lemma_index_of_is(first, COMMA, first.len() as int);
        assert(first.take(first.len() as int) == first);
        assert(seq![pairs[0]] == pairs);
    } else {
        let tail = pairs.drop_first();
        assert forall|i: int| 0 <= i < tail.len() implies token((#[trigger] tail[i]).0) && token(
            tail[i].1,
        ) by {
            assert(tail[i] == pairs[i + 1]);
        }
        lemma_pairs_of_render(tail);
        let rest = render_pairs(tail);
        lemma_index_of_joint(first, COMMA, rest);
        let list = render_pairs(pairs);
        assert(seq![pairs[0]] + tail == pairs);
        assert forall|i: int| 0 <= i < list.len() implies #[trigger] list[i] != SPACE by {
            if i < first.len() {
                assert(list[i] == first[i]);
            } else if i > first.len() {
                assert(list[i] == rest[i - first.len() - 1]);
            }
        }
    }
}

/// Reading what was written: a line that writes a name, tags, fields and a
/// timestamp parses, and says the same name, the same tags and fields in the
/// same order, and the same timestamp.
pub proof fn lemma_parse_render(
    name: Seq<u8>,
    tags: Seq<(Seq<u8>, Seq<u8>)>,
    fields: Seq<(Seq<u8>, Seq<u8>)>,
    stamp: Seq<u8>,
)
    requires
        token(name),
        tokens(tags),
        tokens(fields),
        fields.len() > 0,
        timestamp_of(stamp) is Some,
    ensures
        parse_line(render_line(name, tags, fields, stamp)) == Some(
            LineParts { name, tags, fields, timestamp: timestamp_of(stamp).unwrap() },
        ),
{
    let head = if tags.len() == 0 {
        name
    } else {
        name + seq![COMMA] + render_pairs(tags)
    };
    let written = render_pairs(fields);
    let line = render_line(name, tags, fields, stamp);
    let after = written + seq![SPACE] + stamp;
    lemma_pairs_of_render(fields);
    if tags.len() > 0 {
        lemma_pairs_of_render(tags);
        let list = render_pairs(tags);
        assert forall|i: int| 0 <= i < head.len() implies #[trigger] head[i] != SPACE by {
            if i < name.len() {
                assert(head[i] == name[i]);
            } else if i > name.len() {
                assert(head[i] == list[i - name.len() - 1]);
            }
        }
        lemma_index_of_joint(name, COMMA, list);
    } else {
        lemma_index_of_is(name, COMMA, name.len() as int);
        assert(head.take(name.len() as int) == name);
    }
    assert(line == head + seq![SPACE] + after);
    lemma_index_of_joint(head, SPACE, after);
    lemma_index_of_joint(written, SPACE, stamp);
    lemma_index_of_is(name, EQUALS, name.len() as int);
    assert(index_of(line, SPACE) == head.len());
    assert(line.take(head.len() as int) == head);
    assert(index_of(head, COMMA) == name.len());
    assert(head.take(name.len() as int) == name);
    assert(line.skip(head.len() + 1 as int) == after);
    assert(index_of(after, SPACE) == written.len());
    assert(after.take(written.len() as int) == written);
    assert(after.skip(written.len() + 1 as int) == stamp);
    if tags.len() == 0 {
        assert(tags == Seq::<(Seq<u8>, Seq<u8>)>::empty());
    } else {
        assert(head.skip(name.len() + 1 as int) == render_pairs(tags));
    }
}

} // verus!
