//! The masked form of a secret: the only form in which a secret is shown.
//!
//! A secret is shown by its two ends with dots between them. A secret that
//! cannot be cut that way, or that would come out of it as it went in, is
//! shown as dots alone. Either way what is shown is never the secret.

use vstd::prelude::*;
use vstd::string::StringExecFns;
use vstd::utf8::{
    decode_utf8, encode_utf8, encode_utf8_decode_utf8, encode_utf8_valid_utf8, is_ascii_chars,
    is_ascii_chars_encode_utf8, is_char_boundary, is_char_boundary_iff_not_is_continuation_byte,
    is_char_boundary_start_end_of_seq, is_continuation_byte,
};

verus! {

/// How many bytes of a secret its masked form shows at the front.
pub const MASK_HEAD: usize = 6;

/// How many bytes of a secret its masked form shows at the end.
pub const MASK_TAIL: usize = 4;

/// What stands between the two shown parts.
pub open spec fn ellipsis() -> Seq<char> {
    seq!['.', '.', '.']
}

/// What is shown of a secret that is not shown by its ends: six dots.
pub open spec fn hidden() -> Seq<char> {
    seq!['.', '.', '.', '.', '.', '.']
}

/// Whether a secret can be cut for its two-ended form: its encoding is at
/// least [`MASK_HEAD`] bytes long, and neither cut falls inside a character.
pub open spec fn maskable(secret: Seq<char>) -> bool {
    let bytes = encode_utf8(secret);
    &&& bytes.len() >= MASK_HEAD
    &&& is_char_boundary(bytes, MASK_HEAD as int)
    &&& is_char_boundary(bytes, bytes.len() - MASK_TAIL)
}

/// The front of the two-ended form: the text of the first [`MASK_HEAD`]
/// bytes.
pub open spec fn shown_head(secret: Seq<char>) -> Seq<char> {
    decode_utf8(encode_utf8(secret).subrange(0, MASK_HEAD as int))
}

/// The end of the two-ended form: the text of the last [`MASK_TAIL`] bytes.
pub open spec fn shown_tail(secret: Seq<char>) -> Seq<char> {
    let bytes = encode_utf8(secret);
    decode_utf8(bytes.subrange(bytes.len() - MASK_TAIL, bytes.len() as int))
}

/// The two-ended form of a secret that can be cut.
pub open spec fn masked(secret: Seq<char>) -> Seq<char> {
    shown_head(secret) + ellipsis() + shown_tail(secret)
}

/// The masked form of a secret, whatever the secret: its two-ended form
/// where it can be cut and that form differs from the secret, and dots alone
/// otherwise.
pub open spec fn shown(secret: Seq<char>) -> Seq<char> {
    if maskable(secret) && masked(secret) != secret {
        masked(secret)
    } else {
        hidden()
    }
}

/// Whether `secret` can be cut for its two-ended form.
pub fn is_maskable(secret: &str) -> (ok: bool)
    ensures
        ok == maskable(secret@),
{
    let n = secret.as_bytes().len();
    n >= MASK_HEAD && secret.is_char_boundary(MASK_HEAD) && secret.is_char_boundary(n - MASK_TAIL)
}

/// The masked form of `secret`.
pub fn mask(secret: &str) -> (out: String)
    ensures
        out@ == shown(secret@),
{
    if is_maskable(secret) {
        let ends = two_ended(secret);
        if ends != secret.to_owned() {
            return ends;
        }
    }
    proof {
        reveal_strlit("......");
        assert("......"@ =~= hidden());
    }
    String::from_str("......")
}

/// The two-ended form of a secret that can be cut.
fn two_ended(secret: &str) -> (out: String)
    requires
        maskable(secret@),
    ensures
        out@ == masked(secret@),
{
    let n = secret.as_bytes().len();
    let (head, _) = secret.split_at(MASK_HEAD);
    let (_, tail) = secret.split_at(n - MASK_TAIL);
    proof {
        reveal_strlit("...");
        assert("..."@ =~= ellipsis());
        encode_utf8_decode_utf8(head@);
        encode_utf8_decode_utf8(tail@);
    }
    String::from_str(head).concat("...").concat(tail)
}

/// No byte below 128 continues a character.
proof fn lemma_ascii_byte_starts_char(byte: u8)
    by (bit_vector)
    requires
        byte < 128,
    ensures
        byte & 0xC0 != 0x80,
{
}

/// In the encoding of ASCII text every index up to its length is a
/// character boundary.
proof fn lemma_ascii_boundary(text: Seq<char>, index: int)
    requires
        is_ascii_chars(text),
        0 <= index <= text.len(),
    ensures
        encode_utf8(text).len() == text.len(),
        is_char_boundary(encode_utf8(text), index),
{
    let bytes = encode_utf8(text);
    is_ascii_chars_encode_utf8(text);
    encode_utf8_valid_utf8(text);
    if index == bytes.len() {
        is_char_boundary_start_end_of_seq(bytes);
    } else {
        assert(bytes[index] == text[index] as u8);
        assert(bytes[index] < 128);
        lemma_ascii_byte_starts_char(bytes[index]);
        assert(!is_continuation_byte(bytes[index]));
        is_char_boundary_iff_not_is_continuation_byte(bytes, index);
    }
}

/// The text of a range of the encoding of ASCII text is that range of the
/// text.
proof fn lemma_ascii_range(text: Seq<char>, from: int, to: int)
    requires
        is_ascii_chars(text),
        0 <= from <= to <= text.len(),
    ensures
        encode_utf8(text).len() == text.len(),
        decode_utf8(encode_utf8(text).subrange(from, to)) == text.subrange(from, to),
{
    let part = text.subrange(from, to);
    is_ascii_chars_encode_utf8(text);
    assert(is_ascii_chars(part));
    is_ascii_chars_encode_utf8(part);
    assert(encode_utf8(part) =~= encode_utf8(text).subrange(from, to));
    encode_utf8_decode_utf8(part);
}

/// An ASCII secret of at least [`MASK_HEAD`] characters can be cut, and its
/// two-ended form is its first [`MASK_HEAD`] characters, three dots, and its
/// last [`MASK_TAIL`] characters: thirteen characters in all. That is its
/// masked form as well, unless the secret is those thirteen characters
/// itself.
pub proof fn lemma_mask_of_ascii(secret: Seq<char>)
    requires
        is_ascii_chars(secret),
        secret.len() >= MASK_HEAD,
    ensures
        maskable(secret),
        masked(secret) == secret.subrange(0, MASK_HEAD as int) + ellipsis() + secret.subrange(
            secret.len() - MASK_TAIL,
            secret.len() as int,
        ),
        masked(secret).len() == MASK_HEAD + 3 + MASK_TAIL,
        secret.len() != MASK_HEAD + 3 + MASK_TAIL ==> shown(secret) == masked(secret),
{
    lemma_ascii_boundary(secret, MASK_HEAD as int);
    lemma_ascii_boundary(secret, secret.len() - MASK_TAIL);
    lemma_ascii_range(secret, 0, MASK_HEAD as int);
    lemma_ascii_range(secret, secret.len() - MASK_TAIL, secret.len() as int);
}

/// A secret that cannot be cut is shown as dots alone, and so is one of
/// fewer than [`MASK_HEAD`] bytes.
pub proof fn lemma_mask_of_short(secret: Seq<char>)
    ensures
        !maskable(secret) ==> shown(secret) == hidden(),
        encode_utf8(secret).len() < MASK_HEAD ==> shown(secret) == hidden(),
{
}

/// What is shown of a secret is never the secret.
pub proof fn lemma_never_shown_whole(secret: Seq<char>)
    ensures
        shown(secret) != secret,
{
    if secret == hidden() {
        assert(is_ascii_chars(secret));
        lemma_mask_of_ascii(secret);
        assert(masked(secret).len() != secret.len());
    }
}

} // verus!
