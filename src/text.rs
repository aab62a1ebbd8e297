//! UTF-8 text views of byte runs.

use vstd::prelude::*;
use vstd::utf8::*;

verus! {

/// True when every byte is an ASCII code (below 0x80).
pub open spec fn all_ascii(b: Seq<u8>) -> bool {
    forall|i: int| 0 <= i < b.len() ==> #[trigger] b[i] < 0x80
}

/// The characters that ASCII bytes stand for, one per byte.
pub open spec fn ascii_chars(b: Seq<u8>) -> Seq<char> {
    b.map_values(|x: u8| x as char)
}

/// Relies on `std::str::from_utf8`: it succeeds exactly on well-formed UTF-8,
/// and the text it returns is what those bytes encode.
#[verifier::external_body]
pub(crate) fn utf8_text(b: &[u8]) -> (r: Result<&str, std::str::Utf8Error>)
    ensures
        r is Ok <==> valid_utf8(b@),
        r matches Ok(s) ==> s@ == decode_utf8(b@),
{
    std::str::from_utf8(b)
}

/// ASCII bytes are well-formed UTF-8 and decode to one character each.
pub proof fn lemma_ascii_utf8(b: Seq<u8>)
    requires
        all_ascii(b),
    ensures
        valid_utf8(b),
        decode_utf8(b) == ascii_chars(b),
    decreases b.len(),
{
    if b.len() > 0 {
        let rest = b.subrange(1, b.len() as int);
        assert(all_ascii(rest)) by {
            assert forall|i: int| 0 <= i < rest.len() implies #[trigger] rest[i] < 0x80 by {
                assert(rest[i] == b[i + 1]);
            }
        }
        lemma_ascii_utf8(rest);
        let x = b[0];
        assert(x < 0x80);
        assert(codepoint_width_1(x) == x as u32) by (bit_vector)
            requires x < 0x80;
        assert(pop_first_scalar(b) == rest);
        assert(ascii_chars(b) =~= seq![x as char] + ascii_chars(rest));
        assert((x as u32) as char == x as char);
    } else {
        assert(ascii_chars(b) =~= Seq::<char>::empty());
    }
}

} // verus!
