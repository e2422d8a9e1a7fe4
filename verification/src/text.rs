//! Text helpers shared by the modules: decimal numbers and checked UTF-8.

use vstd::prelude::*;
use vstd::utf8::*;
use vstd::string::*;

verus! {

/// The character of one decimal digit.
pub open spec fn digit_char(d: nat) -> char
    recommends
        d < 10,
{
    (48 + d) as u8 as char
}

/// `n` written in decimal, without sign or leading zeros.
pub open spec fn decimal(n: nat) -> Seq<char>
    decreases n,
{
    if n < 10 {
        seq![digit_char(n)]
    } else {
        decimal(n / 10).push(digit_char(n % 10))
    }
}

/// The bytes of `n` written in decimal.
pub open spec fn decimal_bytes(n: nat) -> Seq<u8>
    decreases n,
{
    if n < 10 {
        seq![(48 + n) as u8]
    } else {
        decimal_bytes(n / 10).push((48 + n % 10) as u8)
    }
}

/// A number in decimal is one or more of the ASCII digits, and its bytes
/// are its characters.
pub proof fn lemma_decimal(n: nat)
    ensures
        decimal(n).len() == decimal_bytes(n).len(),
        decimal(n).len() >= 1,
        is_ascii_chars(decimal(n)),
        forall|i: int|
            0 <= i < decimal_bytes(n).len() ==> 48 <= #[trigger] decimal_bytes(n)[i] <= 57
                && decimal(n)[i] as u8 == decimal_bytes(n)[i],
        encode_utf8(decimal(n)) == decimal_bytes(n),
    decreases n,
{
    if n >= 10 {
        lemma_decimal(n / 10);
    }
    is_ascii_chars_encode_utf8(decimal(n));
    assert(encode_utf8(decimal(n)) =~= decimal_bytes(n));
}

/// Bytes that are all ASCII are valid UTF-8.
pub proof fn lemma_ascii_is_text(bytes: Seq<u8>)
    requires
        forall|i: int| 0 <= i < bytes.len() ==> #[trigger] bytes[i] < 0x80,
    ensures
        valid_utf8(bytes),
{
    assert(bytes.subrange(0, 0) =~= Seq::<u8>::empty());
    assert(partial_valid_utf8(bytes, 0));
    partial_valid_utf8_extend_ascii_block(bytes, 0, bytes.len() as int);
    assert(bytes.subrange(0, bytes.len() as int) == bytes);
}

/// Appends the decimal digits of `n` to `out`.
fn push_decimal(n: u64, out: &mut Vec<u8>)
    ensures
        final(out)@ == old(out)@ + decimal_bytes(n as nat),
    decreases n,
{
    if n >= 10 {
        push_decimal(n / 10, out);
    }
    let digit: u8 = 48 + (n % 10) as u8;
    out.push(digit);
    proof {
        if n >= 10 {
            assert(out@ == old(out)@ + decimal_bytes(n as nat / 10).push(digit));
        } else {
            assert(out@ == old(out)@ + seq![digit]);
        }
    }
}

/// `n` written in decimal, without sign or leading zeros.
pub fn decimal_string(n: u64) -> (text: String)
    ensures
        text@ == decimal(n as nat),
{
    let mut bytes: Vec<u8> = Vec::new();
    push_decimal(n, &mut bytes);
    proof {
        lemma_decimal(n as nat);
        assert(bytes@ == decimal_bytes(n as nat));
        lemma_ascii_is_text(bytes@);
        encode_utf8_decode_utf8(decimal(n as nat));
    }
    match as_text(bytes.as_slice()) {
        Some(digits) => {
            proof {
                lemma_text_of_bytes(digits);
            }
            String::from_str(digits)
        },
        None => String::new(),
    }
}

/// Calls `core::str::from_utf8`, which returns the same bytes as a string
/// slice when they are valid UTF-8 and an error when they are not.
#[verifier::external_body]
pub(crate) fn as_text(bytes: &[u8]) -> (text: Option<&str>)
    ensures
        text is Some == valid_utf8(bytes@),
        text matches Some(s) ==> s.spec_bytes() == bytes@,
{
    core::str::from_utf8(bytes).ok()
}


/// A string's characters are the decoding of its bytes.
pub proof fn lemma_text_of_bytes(s: &str)
    ensures
        valid_utf8(s.spec_bytes()),
        s@ == decode_utf8(s.spec_bytes()),
{
    encode_utf8_valid_utf8(s@);
    encode_utf8_decode_utf8(s@);
}

/// Valid UTF-8 can be cut before and behind any ASCII byte: the cuts are
/// character boundaries, and the piece between two of them is valid UTF-8.
pub proof fn lemma_ascii_cut(bytes: Seq<u8>, a: int, b: int)
    requires
        valid_utf8(bytes),
        0 <= a <= b <= bytes.len(),
        a == 0 || bytes[a - 1] < 0x80,
        b == bytes.len() || bytes[b] < 0x80,
    ensures
        is_char_boundary(bytes, b),
        valid_utf8(bytes.subrange(0, b)),
        is_char_boundary(bytes.subrange(0, b), a),
        valid_utf8(bytes.subrange(a, b)),
{
    let n = bytes.len() as int;
    if b == n {
        is_char_boundary_start_end_of_seq(bytes);
    } else {
        is_char_boundary_iff_not_is_continuation_byte(bytes, b);
    }
    valid_utf8_split(bytes, b);
    let prefix = bytes.subrange(0, b);
    if a == 0 {
        is_char_boundary_start_end_of_seq(prefix);
    } else if a == b {
        is_char_boundary_start_end_of_seq(prefix);
    } else {
        is_char_boundary_iff_not_is_continuation_byte(prefix, a - 1);
        valid_utf8_split(prefix, a - 1);
        let tail = prefix.subrange(a - 1, b);
        assert(tail.len() > 0);
        assert(tail[0] == bytes[a - 1]);
        assert(valid_first_scalar(tail));
        assert(length_of_first_scalar(tail) == 1);
        let after = pop_first_scalar(tail);
        assert(valid_utf8(after));
        assert(after.len() > 0);
        assert(after[0] == bytes[a]);
        assert(valid_first_scalar(after));
        assert(!is_continuation_byte(bytes[a]));
        is_char_boundary_iff_not_is_continuation_byte(prefix, a);
    }
    valid_utf8_split(prefix, a);
    assert(prefix.subrange(a, prefix.len() as int) == bytes.subrange(a, b));
}

/// The piece of `s` between two cuts that lie before or behind ASCII bytes.
pub fn substr<'a>(s: &'a str, a: usize, b: usize) -> (piece: &'a str)
    requires
        a <= b <= s.spec_bytes().len(),
        a == 0 || s.spec_bytes()[a - 1] < 0x80,
        b == s.spec_bytes().len() || s.spec_bytes()[b as int] < 0x80,
    ensures
        piece.spec_bytes() == s.spec_bytes().subrange(a as int, b as int),
        piece@ == decode_utf8(s.spec_bytes().subrange(a as int, b as int)),
{
    proof {
        lemma_text_of_bytes(s);
        lemma_ascii_cut(s.spec_bytes(), a as int, b as int);
    }
    let (head, _) = s.split_at(b);
    assert(head.spec_bytes() == s.spec_bytes().subrange(0, b as int));
    let (_, piece) = head.split_at(a);
    proof {
        lemma_text_of_bytes(piece);
        assert(piece.spec_bytes() == s.spec_bytes().subrange(a as int, b as int));
    }
    piece
}


/// True when the two slices hold the same bytes.
pub fn bytes_eq(a: &[u8], b: &[u8]) -> (same: bool)
    ensures
        same == (a@ == b@),
{
    if a.len() != b.len() {
        return false;
    }
    let mut i: usize = 0;
    while i < a.len()
        invariant
            i <= a@.len(),
            a@.len() == b@.len(),
            forall|j: int| 0 <= j < i ==> a@[j] == b@[j],
        decreases a@.len() - i,
    {
        if a[i] != b[i] {
            return false;
        }
        i = i + 1;
    }
    assert(a@ =~= b@);
    true
}

/// True when the two strings hold the same characters.
pub fn str_eq(a: &str, b: &str) -> (same: bool)
    ensures
        same == (a@ == b@),
{
    proof {
        lemma_text_of_bytes(a);
        lemma_text_of_bytes(b);
    }
    bytes_eq(a.as_bytes(), b.as_bytes())
}

} // verus!
