//! The names of the files of a partition: `partition_<N>.data`,
//! `partition_<N>.data-tmp` while the data is being written, and
//! `partition_<N>.meta`. The names are relative to the partitions directory.

use vstd::prelude::*;
use vstd::slice::*;
use vstd::string::*;
use vstd::utf8::*;
use crate::protocol::{
    digits_value, find, free_of, index_of, is_digit, lemma_index_of, lemma_index_of_is,
    lemma_index_of_joint, timestamp_of, Line,
};
use crate::text::{
    decimal, decimal_bytes, decimal_string, lemma_decimal, lemma_text_of_bytes, str_eq, substr,
};

verus! {

/// Stands between `partition` and the number.
pub const UNDERSCORE: u8 = 95;

/// Stands between the number and the suffix.
pub const DOT: u8 = 46;

/// The three files that a partition can have.
#[derive(Clone, Copy, Debug, PartialEq, Eq, Structural)]
pub enum FileKind {
    /// The data file under its final name.
    Data,
    /// The data file while it is written.
    DataTmp,
    /// The sidecar.
    Meta,
}

/// What follows the dot in the name of a file of the kind.
pub open spec fn suffix(kind: FileKind) -> Seq<char> {
    match kind {
        FileKind::Data => "data"@,
        FileKind::DataTmp => "data-tmp"@,
        FileKind::Meta => "meta"@,
    }
}

/// The name of the file of `kind` of partition `id`.
pub open spec fn file_name(id: nat, kind: FileKind) -> Seq<char> {
    "partition_"@ + decimal(id) + "."@ + suffix(kind)
}

/// The name of the file of `kind` of partition `id`.
pub fn partition_file(id: usize, kind: FileKind) -> (name: String)
    ensures
        name@ == file_name(id as nat, kind),
{
    let mut name: String = String::from_str("partition_");
    let digits: String = decimal_string(id as u64);
    name.append(digits.as_str());
    name.append(".");
    match kind {
        FileKind::Data => name.append("data"),
        FileKind::DataTmp => name.append("data-tmp"),
        FileKind::Meta => name.append("meta"),
    }
    name
}

/// True for the three suffixes.
pub open spec fn is_suffix(text: Seq<char>) -> bool {
    text == "data"@ || text == "data-tmp"@ || text == "meta"@
}

/// The number and the suffix of a file name of the form
/// `partition_<N>.<suffix>`: one underscore, one dot, `<N>` in decimal digits
/// within `usize`, and one of the three suffixes. Other names give `None`.
pub open spec fn parsed_name(name: Seq<u8>) -> Option<(usize, Seq<u8>)> {
    let u = index_of(name, UNDERSCORE);
    let rest = name.skip(u + 1 as int);
    let d = index_of(rest, DOT);
    let kind = rest.skip(d + 1 as int);
    if u >= name.len() || decode_utf8(name.take(u as int)) != "partition"@ || index_of(
        rest,
        UNDERSCORE,
    ) < rest.len() || d >= rest.len() || index_of(kind, DOT) < kind.len() || !is_suffix(
        decode_utf8(kind),
    ) {
        None
    } else {
        match timestamp_of(rest.take(d as int)) {
            Some(id) => if id <= usize::MAX {
                Some((id as usize, kind))
            } else {
                None
            },
            None => None,
        }
    }
}

/// Reads the number and the suffix out of the name of a partition file.
pub fn parse_file_name(file_name: &str) -> (parsed: Option<(usize, &str)>)
    ensures
        match parsed_name(file_name.spec_bytes()) {
            Some((id, kind)) => parsed matches Some(found) && found.0 == id
                && found.1.spec_bytes() == kind,
            None => parsed is None,
        },
{
    let bytes: &[u8] = file_name.as_bytes();
    let size: usize = bytes.len();
    let ghost name = file_name.spec_bytes();
    proof {
        lemma_text_of_bytes(file_name);
        assert(name.subrange(0, size as int) == name);
        lemma_index_of(name, UNDERSCORE);
    }
    let underscore: usize = find(bytes, 0, size, UNDERSCORE);
    if underscore >= size {
        return None;
    }
    let ghost rest = name.skip(underscore + 1);
    proof {
        assert(rest == name.subrange(underscore + 1, size as int));
        lemma_index_of(rest, DOT);
    }
    let prefix: &str = substr(file_name, 0, underscore);
    if !str_eq(prefix, "partition") {
        return None;
    }
    let second: usize = find(bytes, underscore + 1, size, UNDERSCORE);
    if second < size {
        return None;
    }
    let dot: usize = find(bytes, underscore + 1, size, DOT);
    if dot >= size {
        return None;
    }
    let ghost kind = rest.skip(dot - underscore);
    proof {
        assert(kind == name.subrange(dot + 1, size as int));
        assert(rest.take(dot - underscore - 1) == name.subrange(underscore + 1, dot as int));
    }
    let other: usize = find(bytes, dot + 1, size, DOT);
    if other < size {
        return None;
    }
    let suffix: &str = substr(file_name, dot + 1, size);
    if !(str_eq(suffix, "data") || str_eq(suffix, "data-tmp") || str_eq(suffix, "meta")) {
        return None;
    }
    let digits: &[u8] = slice_subrange(bytes, underscore + 1, dot);
    proof {
        assert(digits@.subrange(0, digits@.len() as int) == digits@);
    }
    match Line::parse_timestamp(digits, 0) {
        Some(id) => {
            if id > usize::MAX as u64 {
                None
            } else {
                Some((id as usize, suffix))
            }
        },
        None => None,
    }
}


/// The digits of a number read back as the number.
pub proof fn lemma_decimal_reads_back(n: nat)
    ensures
        digits_value(decimal_bytes(n)) == n,
        forall|i: int| 0 <= i < decimal_bytes(n).len() ==> is_digit(#[trigger] decimal_bytes(n)[i]),
    decreases n,
{
    lemma_decimal(n);
    if n >= 10 {
        lemma_decimal_reads_back(n / 10);
        assert(decimal_bytes(n).drop_last() == decimal_bytes(n / 10));
    } else {
        assert(decimal_bytes(n).drop_last() =~= Seq::<u8>::empty());
        assert(digits_value(Seq::<u8>::empty()) == 0);
    }
}

/// The bytes of the suffix of a kind, which hold no dot and no underscore.
pub proof fn lemma_suffix_bytes(kind: FileKind)
    ensures
        encode_utf8(suffix(kind)) == match kind {
            FileKind::Data => seq![100u8, 97u8, 116u8, 97u8],
            FileKind::DataTmp => seq![100u8, 97u8, 116u8, 97u8, 45u8, 116u8, 109u8, 112u8],
            FileKind::Meta => seq![109u8, 101u8, 116u8, 97u8],
        },
        free_of(encode_utf8(suffix(kind)), DOT),
        free_of(encode_utf8(suffix(kind)), UNDERSCORE),
        decode_utf8(encode_utf8(suffix(kind))) == suffix(kind),
        is_suffix(suffix(kind)),
        is_ascii_chars(suffix(kind)),
{
    reveal_strlit("data");
    reveal_strlit("data-tmp");
    reveal_strlit("meta");
    let chars = suffix(kind);
    assert(is_ascii_chars(chars));
    is_ascii_chars_encode_utf8(chars);
    encode_utf8_decode_utf8(chars);
    match kind {
        FileKind::Data => {
            assert(encode_utf8(chars) =~= seq![100u8, 97u8, 116u8, 97u8]);
        },
        FileKind::DataTmp => {
            assert(encode_utf8(chars) =~= seq![
                100u8,
                97u8,
                116u8,
                97u8,
                45u8,
                116u8,
                109u8,
                112u8,
            ]);
        },
        FileKind::Meta => {
            assert(encode_utf8(chars) =~= seq![109u8, 101u8, 116u8, 97u8]);
        },
    }
}

/// Reading what was written: the name of a partition file reads back as the
/// number and the suffix that it was made of.
pub proof fn lemma_name_reads_back(id: usize, kind: FileKind)
    ensures
        parsed_name(encode_utf8(file_name(id as nat, kind))) == Some(
            (id, encode_utf8(suffix(kind))),
        ),
{
    reveal_strlit("partition_");
    reveal_strlit("partition");
    reveal_strlit(".");
    reveal_strlit("data");
    reveal_strlit("data-tmp");
    reveal_strlit("meta");
    lemma_suffix_bytes(kind);
    lemma_decimal(id as nat);
    lemma_decimal_reads_back(id as nat);
    let chars = file_name(id as nat, kind);
    let start = "partition_"@;
    let dot = "."@;
    let number = decimal(id as nat);
    let digits = decimal_bytes(id as nat);
    let ending = encode_utf8(suffix(kind));
    let word = seq![112u8, 97u8, 114u8, 116u8, 105u8, 116u8, 105u8, 111u8, 110u8];
    let rest = digits + seq![DOT] + ending;
    let name = encode_utf8(chars);
    is_ascii_chars_encode_utf8(suffix(kind));
    assert(start.len() == 10 && dot.len() == 1);
    assert(is_ascii_chars(start));
    assert(is_ascii_chars(dot));
    assert forall|i: int| 0 <= i < chars.len() implies '\0' <= #[trigger] chars[i] <= '\u{7f}' by {
        if i < 10 {
            assert(chars[i] == start[i]);
        } else if i < 10 + number.len() {
            assert(chars[i] == number[i - 10]);
        } else if i == 10 + number.len() {
            assert(chars[i] == dot[0]);
        } else {
            assert(chars[i] == suffix(kind)[i - 11 - number.len()]);
        }
    }
    assert(is_ascii_chars(chars));
    is_ascii_chars_encode_utf8(chars);
    assert(name =~= word + seq![UNDERSCORE] + rest) by {
        assert forall|i: int| 0 <= i < name.len() implies #[trigger] name[i] == (word + seq![
            UNDERSCORE,
        ] + rest)[i] by {
            if i < 10 {
                assert(chars[i] == start[i]);
            } else if i < 10 + number.len() {
                assert(chars[i] == number[i - 10]);
            } else if i == 10 + number.len() {
                assert(chars[i] == dot[0]);
            } else {
                assert(chars[i] == suffix(kind)[i - 11 - number.len()]);
                assert(ending[i - 11 - number.len()] == suffix(kind)[i - 11 - number.len()] as u8);
            }
        }
    }
    lemma_index_of_joint(word, UNDERSCORE, rest);
    assert(is_ascii_chars("partition"@));
    is_ascii_chars_encode_utf8("partition"@);
    assert(encode_utf8("partition"@) =~= word);
    encode_utf8_decode_utf8("partition"@);
    assert(free_of(rest, UNDERSCORE)) by {
        assert forall|i: int| 0 <= i < rest.len() implies #[trigger] rest[i] != UNDERSCORE by {
            if i < digits.len() {
                assert(rest[i] == digits[i]);
            } else if i > digits.len() {
                assert(rest[i] == ending[i - digits.len() - 1]);
            }
        }
    }
    lemma_index_of_is(rest, UNDERSCORE, rest.len() as int);
    assert(free_of(digits, DOT));
    lemma_index_of_joint(digits, DOT, ending);
    lemma_index_of_is(ending, DOT, ending.len() as int);
}

} // verus!
