//! Bridging between byte sequences and strings for ASCII data.
//!
//! The wire formats handled by this library are byte-oriented, while ids and
//! file names travel as `String`s. This module relates the two: an all-ASCII
//! byte sequence corresponds one-to-one to a character sequence.

use vstd::prelude::*;
use vstd::utf8::decode_utf8;
use vstd::utf8::encode_utf8;
use vstd::utf8::encode_utf8_decode_utf8;
use vstd::utf8::encode_utf8_valid_utf8;
use vstd::utf8::is_ascii_chars;
use vstd::utf8::is_ascii_chars_encode_utf8;
use vstd::utf8::valid_utf8;

verus! {

/// Declared so that `String::from_utf8`'s error type can appear in a result.
#[verifier::external_type_specification]
#[verifier::external_body]
pub struct ExFromUtf8Error(std::string::FromUtf8Error);

/// Relies on `String::from_utf8`: it succeeds exactly on valid UTF-8 input
/// and returns the string whose encoding is that input.
pub assume_specification[ String::from_utf8 ](vec: Vec<u8>) -> (r: Result<
    String,
    std::string::FromUtf8Error,
>)
    ensures
        match r {
            Ok(s) => valid_utf8(vec@) && encode_utf8(s@) == vec@,
            Err(_) => !valid_utf8(vec@),
        },
;

/// True when every byte is an ASCII code point.
pub open spec fn all_ascii(bytes: Seq<u8>) -> bool {
    forall|i: int| 0 <= i < bytes.len() ==> bytes[i] < 128
}

/// The characters of an all-ASCII byte sequence, one character per byte.
pub open spec fn chars_of_ascii(bytes: Seq<u8>) -> Seq<char> {
    Seq::new(bytes.len(), |i: int| bytes[i] as char)
}

/// An all-ASCII byte sequence is valid UTF-8 and decodes byte-for-byte.
pub proof fn lemma_ascii_bytes_utf8(bytes: Seq<u8>)
    requires
        all_ascii(bytes),
    ensures
        is_ascii_chars(chars_of_ascii(bytes)),
        encode_utf8(chars_of_ascii(bytes)) == bytes,
        valid_utf8(bytes),
        decode_utf8(bytes) == chars_of_ascii(bytes),
{
    let chars = chars_of_ascii(bytes);
    assert forall|i: int| 0 <= i < chars.len() implies '\0' <= #[trigger] chars[i]
        <= '\u{7f}' by {
        assert(bytes[i] < 128);
        assert(chars[i] == bytes[i] as char);
    }
    is_ascii_chars_encode_utf8(chars);
    assert(encode_utf8(chars) =~= bytes);
    encode_utf8_valid_utf8(chars);
    encode_utf8_decode_utf8(chars);
}

/// A string made of ASCII characters has those characters' bytes as encoding.
pub proof fn lemma_ascii_chars_bytes(chars: Seq<char>)
    requires
        is_ascii_chars(chars),
    ensures
        all_ascii(encode_utf8(chars)),
        encode_utf8(chars).len() == chars.len(),
        chars_of_ascii(encode_utf8(chars)) == chars,
{
    is_ascii_chars_encode_utf8(chars);
    assert forall|i: int| 0 <= i < encode_utf8(chars).len() implies encode_utf8(chars)[i]
        < 128 by {
        assert(chars[i] as u8 == encode_utf8(chars)[i]);
        assert(chars[i] <= '\u{7f}');
    }
    assert(chars_of_ascii(encode_utf8(chars)) =~= chars);
}

/// Builds the string whose characters are the given ASCII bytes.
pub fn string_from_ascii(bytes: Vec<u8>) -> (r: String)
    requires
        all_ascii(bytes@),
    ensures
        r@ == chars_of_ascii(bytes@),
{
    proof {
        lemma_ascii_bytes_utf8(bytes@);
    }
    let ghost gbytes = bytes@;
    match String::from_utf8(bytes) {
        Ok(s) => {
            proof {
                encode_utf8_decode_utf8(s@);
                assert(decode_utf8(encode_utf8(s@)) == s@);
            }
            s
        },
        Err(_) => {
            proof {
                assert(false);
            }
            String::new()
        },
    }
}

/// Builds a string from UTF-8 bytes, refusing invalid encodings.
pub fn vec_to_string(bytes: Vec<u8>) -> (r: Result<String, ()>)
    ensures
        match r {
            Ok(s) => valid_utf8(bytes@) && s@ == decode_utf8(bytes@) && encode_utf8(s@) == bytes@,
            Err(_) => !valid_utf8(bytes@),
        },
{
    let ghost gbytes = bytes@;
    match String::from_utf8(bytes) {
        Ok(s) => {
            proof {
                encode_utf8_decode_utf8(s@);
            }
            Ok(s)
        },
        Err(_) => Err(()),
    }
}

/// Appends the UTF-8 bytes of `s` to `out`.
pub fn push_str_bytes(out: &mut Vec<u8>, s: &str)
    ensures
        final(out)@ == old(out)@ + encode_utf8(s@),
{
    let bs = s.as_bytes();
    let mut i: usize = 0;
    while i < bs.len()
        invariant
            i <= bs.len(),
            bs@ == encode_utf8(s@),
            out@ == old(out)@ + bs@.subrange(0, i as int),
        decreases bs.len() - i,
    {
        out.push(bs[i]);
        i = i + 1;
        proof {
            assert(out@ =~= old(out)@ + bs@.subrange(0, i as int));
        }
    }
    proof {
        assert(out@ =~= old(out)@ + encode_utf8(s@));
    }
}

} // verus!
