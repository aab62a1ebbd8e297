//! Decoding of SCGI request headers.
//!
//! A request starts with a netstring `<length>:<block>,` whose block is a run of
//! null-terminated name/value pairs. [`FrameDecoder`] turns the bytes of a
//! connection into the raw block, without reading past its terminating comma;
//! [`parse`], [`string_map`] and [`str_map`] split the block into its pairs.

pub mod error;
pub mod frame;
pub mod headers;
pub mod text;

pub use error::ScgiError;
pub use frame::FrameDecoder;
pub use headers::{next_header, parse, str_map, string_map, HeaderVisitor};

use vstd::prelude::*;
use frame::{decimal, frame_bytes, lemma_frame_round_trip, scan_frame, FrameScan, MAX_DIGITS};
use headers::{
    encode_pairs, leading_pairs, lemma_pairs_round_trip, pairs_text, scan_headers, text_map, valid_run,
    HeaderScan,
};

verus! {

/// Sending pairs as a framed header block, before any body, and decoding the
/// frame and then its block gives back the same pairs: a visitor is handed
/// them in the same order, and collecting them gives the map that inserting
/// them in order builds. The frame ends where the body begins.
pub proof fn lemma_request_round_trip(ps: Seq<(Seq<u8>, Seq<u8>)>, body: Seq<u8>)
    requires
        forall|i: int| 0 <= i < ps.len() ==> valid_run(#[trigger] ps[i].0) && valid_run(ps[i].1),
        encode_pairs(ps).len() <= usize::MAX,
        decimal(encode_pairs(ps).len()).len() <= MAX_DIGITS,
    ensures
        scan_frame(frame_bytes(encode_pairs(ps)) + body) matches FrameScan::Complete { block, consumed }
            && scan_headers(block) == HeaderScan::Pairs(ps) && leading_pairs(block) == ps
            && consumed == frame_bytes(encode_pairs(ps)).len(),
        scan_headers(encode_pairs(ps)) matches HeaderScan::Pairs(qs) && text_map(pairs_text(qs))
            == text_map(pairs_text(ps)),
{
    lemma_frame_round_trip(encode_pairs(ps), body);
    assert forall|i: int| 0 <= i < ps.len() implies valid_run(#[trigger] ps[i].0) && valid_run(
        ps[i].1,
    ) by {}
    lemma_pairs_round_trip(ps);
}

} // verus!
