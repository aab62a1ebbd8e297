//! The netstring frame around the header block: `<length>:<block>,`.
//!
//! [`FrameDecoder`] is fed the bytes of a connection as they arrive and says
//! how many it wants next, so that a reader never takes a byte past the
//! terminating comma: what follows is the request body.

use vstd::prelude::*;
use crate::error::ScgiError;
use crate::text::{all_ascii, ascii_chars, lemma_ascii_utf8, utf8_text};

verus! {

/// The most length digits that a frame may have.
pub const MAX_DIGITS: usize = 10;

/// `0`, the first digit.
pub const DIGIT_ZERO: u8 = 0x30;

/// `9`, the last digit.
pub const DIGIT_NINE: u8 = 0x39;

/// `:`, which ends the length.
pub const COLON: u8 = 0x3a;

/// `,`, which ends the frame.
pub const COMMA: u8 = 0x2c;

/// True for the ASCII digits `0` to `9`.
pub open spec fn is_digit(b: u8) -> bool {
    DIGIT_ZERO <= b <= DIGIT_NINE
}

/// Number of digits at the start of `s`.
pub open spec fn digit_run(s: Seq<u8>) -> nat
    decreases s.len(),
{
    if s.len() == 0 || !is_digit(s[0]) {
        0
    } else {
        1 + digit_run(s.drop_first())
    }
}

/// The number that a run of decimal digits writes.
pub open spec fn digits_value(d: Seq<u8>) -> nat
    decreases d.len(),
{
    if d.len() == 0 {
        0
    } else {
        digits_value(d.drop_last()) * 10 + (d.last() - DIGIT_ZERO) as nat
    }
}

/// What a prefix of a connection's bytes says of the frame.
pub enum FrameScan {
    /// No decision yet: more bytes are needed.
    Incomplete,
    /// A whole frame: its block, and the bytes it spans up to and including
    /// the terminating comma.
    Complete { block: Seq<u8>, consumed: nat },
    /// No digits, more than `MAX_DIGITS` of them, or a length above `usize::MAX`.
    BadLength,
    /// A byte that is neither a digit nor `:` in the length, or a byte other
    /// than `,` after the block; `digits` are the length digits read.
    WrongLength { digits: Seq<u8> },
}

/// The decision that the bytes `s` lead to, read from the start.
pub open spec fn scan_frame(s: Seq<u8>) -> FrameScan {
    let k = digit_run(s) as int;
    if k > MAX_DIGITS {
        FrameScan::BadLength
    } else if k >= s.len() {
        FrameScan::Incomplete
    } else if s[k] != COLON {
        FrameScan::WrongLength { digits: s.take(k) }
    } else if k == 0 || digits_value(s.take(k)) > usize::MAX {
        FrameScan::BadLength
    } else {
        let n = digits_value(s.take(k)) as int;
        let rest = s.skip(k + 1);
        if rest.len() <= n {
            FrameScan::Incomplete
        } else if rest[n] != COMMA {
            FrameScan::WrongLength { digits: s.take(k) }
        } else {
            FrameScan::Complete { block: rest.take(n), consumed: (k + n + 2) as nat }
        }
    }
}

/// How many bytes to read next after `s`, while the frame is incomplete: one
/// while reading the length and for the terminator, else what the block lacks.
pub open spec fn wanted_after(s: Seq<u8>) -> nat {
    let k = digit_run(s) as int;
    if k >= s.len() {
        1
    } else {
        let n = digits_value(s.take(k)) as int;
        let got = s.len() - k - 1;
        if got < n {
            (n - got) as nat
        } else {
            1
        }
    }
}

/// True when all of `s` has been read but its terminating comma.
pub open spec fn awaits_terminator(s: Seq<u8>) -> bool {
    let k = digit_run(s) as int;
    k < s.len() && s.len() - k - 1 == digits_value(s.take(k))
}

/// The error reported when the connection closes after the bytes `s`.
pub open spec fn closed_error(s: Seq<u8>, e: ScgiError) -> bool {
    if awaits_terminator(s) {
        e matches ScgiError::WrongLength(t) && t@ == ascii_chars(s.take(digit_run(s) as int))
    } else {
        e is EOF
    }
}

/// The result of a decoder's `feed` for the frame decision `f`.
pub open spec fn fed_result(f: FrameScan, r: Result<Option<Vec<u8>>, ScgiError>) -> bool {
    match f {
        FrameScan::Incomplete => r matches Ok(None),
        FrameScan::Complete { block, consumed: _ } => r matches Ok(Some(b)) && b@ == block,
        FrameScan::BadLength => r matches Err(ScgiError::BadLength),
        FrameScan::WrongLength { digits } => r matches Err(ScgiError::WrongLength(t)) && t@
            == ascii_chars(digits),
    }
}

proof fn lemma_digit_run(s: Seq<u8>, k: int)
    requires
        0 <= k <= s.len(),
        forall|j: int| 0 <= j < k ==> is_digit(#[trigger] s[j]),
        k == s.len() || !is_digit(s[k]),
    ensures
        digit_run(s) == k,
    decreases k,
{
    if k > 0 {
        lemma_digit_run(s.drop_first(), k - 1);
    }
}

proof fn lemma_digit_run_facts(s: Seq<u8>)
    ensures
        digit_run(s) <= s.len(),
        forall|j: int| 0 <= j < digit_run(s) ==> is_digit(#[trigger] s[j]),
        digit_run(s) < s.len() ==> !is_digit(s[digit_run(s) as int]),
    decreases s.len(),
{
    if s.len() > 0 && is_digit(s[0]) {
        let t = s.drop_first();
        lemma_digit_run_facts(t);
        assert forall|j: int| 0 <= j < digit_run(s) implies is_digit(#[trigger] s[j]) by {
            if j > 0 {
                assert(s[j] == t[j - 1]);
            }
        }
    }
}

proof fn lemma_digits_value_prefix(d: Seq<u8>, i: int)
    requires
        0 <= i <= d.len(),
        forall|j: int| 0 <= j < d.len() ==> is_digit(#[trigger] d[j]),
    ensures
        digits_value(d.take(i)) <= digits_value(d),
    decreases d.len(),
{
    if i < d.len() {
        let p = d.drop_last();
        assert(p.take(i) =~= d.take(i));
        lemma_digits_value_prefix(p, i);
    } else {
        assert(d.take(i) =~= d);
    }
}

/// The length that the digits `d` write, or `None` when it exceeds `usize::MAX`.
fn length_value(d: &Vec<u8>) -> (r: Option<usize>)
    requires
        forall|j: int| 0 <= j < d@.len() ==> is_digit(#[trigger] d@[j]),
    ensures
        r is Some <==> digits_value(d@) <= usize::MAX,
        r matches Some(v) ==> v == digits_value(d@),
{
    let mut v: usize = 0;
    let mut i: usize = 0;
    assert(d@.take(0) =~= Seq::<u8>::empty());
    while i < d.len()
        invariant
            i <= d@.len(),
            v == digits_value(d@.take(i as int)),
            forall|j: int| 0 <= j < d@.len() ==> is_digit(#[trigger] d@[j]),
        decreases d@.len() - i,
    {
        let x = d[i] - DIGIT_ZERO;
        assert(d@.take(i + 1).drop_last() =~= d@.take(i as int));
        let next = match v.checked_mul(10) {
            Some(t) => t.checked_add(x as usize),
            None => None,
        };
        match next {
            Some(t) => {
                v = t;
                i = i + 1;
            },
            None => {
                proof {
                    lemma_digits_value_prefix(d@, i + 1);
                }
                return None;
            },
        }
    }
    assert(d@.take(i as int) =~= d@);
    Some(v)
}

/// The canonical decimal digits of `n`.
pub open spec fn decimal(n: nat) -> Seq<u8>
    decreases n,
{
    if n < 10 {
        seq![(n + DIGIT_ZERO) as u8]
    } else {
        decimal(n / 10).push((n % 10 + DIGIT_ZERO) as u8)
    }
}

/// The frame that carries `block`: its length in decimal, `:`, the block, `,`.
pub open spec fn frame_bytes(block: Seq<u8>) -> Seq<u8> {
    decimal(block.len()) + seq![COLON] + block + seq![COMMA]
}

proof fn lemma_decimal(n: nat)
    ensures
        decimal(n).len() >= 1,
        forall|j: int| 0 <= j < decimal(n).len() ==> is_digit(#[trigger] decimal(n)[j]),
        digits_value(decimal(n)) == n,
    decreases n,
{
    if n >= 10 {
        lemma_decimal(n / 10);
        let d = decimal(n);
        assert(d.drop_last() =~= decimal(n / 10));
        assert((d.last() - DIGIT_ZERO) as nat == n % 10);
        vstd::arithmetic::div_mod::lemma_fundamental_div_mod(n as int, 10);
        assert(digits_value(d) == digits_value(decimal(n / 10)) * 10 + n % 10);
        assert((n / 10) * 10 + n % 10 == n) by (nonlinear_arith)
            requires
                n == 10 * (n / 10) + n % 10,
        ;
    } else {
        let d = decimal(n);
        assert(d.drop_last() =~= Seq::<u8>::empty());
        assert((d.last() - DIGIT_ZERO) as nat == n);
        assert(digits_value(d.drop_last()) == 0);
    }
}

proof fn lemma_digit_run_at_least(s: Seq<u8>, k: int)
    requires
        0 <= k <= s.len(),
        forall|j: int| 0 <= j < k ==> is_digit(#[trigger] s[j]),
    ensures
        digit_run(s) >= k,
    decreases k,
{
    if k > 0 {
        lemma_digit_run_at_least(s.drop_first(), k - 1);
    }
}

/// Once the bytes read decide the frame, later bytes change nothing: the
/// decision never depends on the request body that follows.
pub proof fn lemma_decision_stable(p: Seq<u8>, t: Seq<u8>)
    requires
        !(scan_frame(p) is Incomplete),
    ensures
        scan_frame(p + t) == scan_frame(p),
{
    let s = p + t;
    lemma_digit_run_facts(p);
    let k = digit_run(p) as int;
    if k > MAX_DIGITS {
        lemma_digit_run_at_least(s, k);
        lemma_digit_run_facts(s);
    } else {
        lemma_digit_run(s, k);
        assert(s.take(k) =~= p.take(k));
        if p[k] == COLON && k != 0 && digits_value(p.take(k)) <= usize::MAX {
            let n = digits_value(p.take(k)) as int;
            assert(s.skip(k + 1) =~= p.skip(k + 1) + t);
            assert(s.skip(k + 1).take(n) =~= p.skip(k + 1).take(n));
        }
    }
}

/// The frame of a block, followed by any body, decodes to that block, and
/// the frame ends exactly where the body begins.
pub proof fn lemma_frame_round_trip(block: Seq<u8>, body: Seq<u8>)
    requires
        block.len() <= usize::MAX,
        decimal(block.len()).len() <= MAX_DIGITS,
    ensures
        scan_frame(frame_bytes(block) + body) == (FrameScan::Complete {
            block,
            consumed: frame_bytes(block).len(),
        }),
{
    let d = decimal(block.len());
    let s = frame_bytes(block) + body;
    let k = d.len() as int;
    lemma_decimal(block.len());
    assert forall|j: int| 0 <= j < k implies is_digit(#[trigger] s[j]) by {
        assert(s[j] == d[j]);
    }
    assert(s[k] == COLON);
    lemma_digit_run(s, k);
    assert(s.take(k) =~= d);
    let rest = s.skip(k + 1);
    assert(rest =~= block + seq![COMMA] + body);
    assert(rest[block.len() as int] == COMMA);
    assert(rest.take(block.len() as int) =~= block);
}

/// A frame whose block is followed by any byte but `,` is refused as
/// `WrongLength`, holding its length digits.
pub proof fn lemma_bad_terminator(block: Seq<u8>, c: u8, rest: Seq<u8>)
    requires
        block.len() <= usize::MAX,
        decimal(block.len()).len() <= MAX_DIGITS,
        c != COMMA,
    ensures
        scan_frame(decimal(block.len()) + seq![COLON] + block + seq![c] + rest) == (FrameScan::WrongLength {
            digits: decimal(block.len()),
        }),
{
    let d = decimal(block.len());
    let s = d + seq![COLON] + block + seq![c] + rest;
    let k = d.len() as int;
    lemma_decimal(block.len());
    assert forall|j: int| 0 <= j < k implies is_digit(#[trigger] s[j]) by {
        assert(s[j] == d[j]);
    }
    assert(s[k] == COLON);
    lemma_digit_run(s, k);
    assert(s.take(k) =~= d);
    let r = s.skip(k + 1);
    assert(r =~= block + seq![c] + rest);
    assert(r[block.len() as int] == c);
}

/// A decoder fed a prefix of a framed request, as `wanted` asks, that has
/// completed has read exactly the frame: it returned the framed block, and
/// the next byte of the connection is the first byte of the body.
pub proof fn lemma_stops_at_body(block: Seq<u8>, body: Seq<u8>, fed: Seq<u8>)
    requires
        block.len() <= usize::MAX,
        decimal(block.len()).len() <= MAX_DIGITS,
        fed.len() <= (frame_bytes(block) + body).len(),
        fed == (frame_bytes(block) + body).take(fed.len() as int),
        scan_frame(fed) matches FrameScan::Complete { block: _, consumed } && consumed == fed.len(),
    ensures
        fed == frame_bytes(block),
        scan_frame(fed) matches FrameScan::Complete { block: b, consumed: _ } && b == block,
{
    let input = frame_bytes(block) + body;
    lemma_frame_round_trip(block, body);
    lemma_decision_stable(fed, input.skip(fed.len() as int));
    assert(fed + input.skip(fed.len() as int) =~= input);
    assert(frame_bytes(block) =~= input.take(frame_bytes(block).len() as int));
}

/// A length of more than `MAX_DIGITS` digits is refused as soon as the
/// digit past the bound is read, whatever number it would write.
pub proof fn lemma_too_many_digits(s: Seq<u8>)
    requires
        s.len() > MAX_DIGITS,
        forall|j: int| 0 <= j <= MAX_DIGITS ==> is_digit(#[trigger] s[j]),
    ensures
        scan_frame(s) is BadLength,
{
    lemma_digit_run_at_least(s, MAX_DIGITS + 1);
}

/// Decodes the netstring frame of an SCGI request from bytes fed to it.
pub struct FrameDecoder {
    digits: Vec<u8>,
    length: Option<usize>,
    block: Vec<u8>,
    seen: Ghost<Seq<u8>>,
}

impl View for FrameDecoder {
    type V = Seq<u8>;

    /// The bytes fed so far.
    closed spec fn view(&self) -> Seq<u8> {
        self.seen@
    }
}

impl FrameDecoder {
    /// The decoder is waiting for more bytes of a frame.
    pub closed spec fn wf(&self) -> bool {
        let s = self.seen@;
        let k = digit_run(s) as int;
        &&& scan_frame(s) is Incomplete
        &&& match self.length {
            None => k == s.len() && self.digits@ == s && self.block@.len() == 0,
            Some(n) => {
                &&& k < s.len()
                &&& self.digits@ == s.take(k)
                &&& n == digits_value(s.take(k))
                &&& self.block@ == s.skip(k + 1)
            },
        }
    }

    /// A decoder that has read nothing.
    pub fn new() -> (d: FrameDecoder)
        ensures
            d.wf(),
            d@ == Seq::<u8>::empty(),
    {
        FrameDecoder { digits: Vec::new(), length: None, block: Vec::new(), seen: Ghost(Seq::empty()) }
    }

    /// How many bytes the decoder wants next; reading no more than that
    /// never takes a byte past the frame.
    pub fn wanted(&self) -> (n: usize)
        requires
            self.wf(),
        ensures
            n == wanted_after(self@),
            n > 0,
    {
        match self.length {
            None => 1,
            Some(n) => {
                if self.block.len() < n {
                    n - self.block.len()
                } else {
                    1
                }
            },
        }
    }

    /// The error to report when the connection closes now.
    pub fn closed(&self) -> (e: ScgiError)
        requires
            self.wf(),
        ensures
            closed_error(self@, e),
    {
        match self.length {
            Some(n) => {
                if self.block.len() == n {
                    proof {
                        lemma_digit_run_facts(self@);
                    }
                    self.wrong_length()
                } else {
                    ScgiError::EOF
                }
            },
            None => ScgiError::EOF,
        }
    }

    /// Takes the next bytes of the connection, no more than [`Self::wanted`]:
    /// `Ok(None)` while the frame is incomplete, the block once its
    /// terminating comma has come, or the error that the bytes show.
    pub fn feed(&mut self, data: &[u8]) -> (r: Result<Option<Vec<u8>>, ScgiError>)
        requires
            old(self).wf(),
            0 < data@.len() <= wanted_after(old(self)@),
        ensures
            final(self)@ == old(self)@ + data@,
            fed_result(scan_frame(final(self)@), r),
            r matches Ok(None) ==> final(self).wf(),
            scan_frame(final(self)@) matches FrameScan::Complete { block: _, consumed } ==> consumed
                == final(self)@.len(),
    {
        let ghost s = self@;
        let ghost s2 = s + data@;
        proof {
            lemma_digit_run_facts(s);
        }
        match self.length {
            None => {
                let b = data[0];
                assert(data@ =~= seq![b]);
                let ghost k = s.len() as int;
                self.seen = Ghost(s2);
                if DIGIT_ZERO <= b && b <= DIGIT_NINE {
                    proof {
                        lemma_digit_run(s2, k + 1);
                    }
                    if self.digits.len() >= MAX_DIGITS {
                        return Err(ScgiError::BadLength);
                    }
                    self.digits.push(b);
                    assert(self.digits@ =~= s2);
                    Ok(None)
                } else if b == COLON {
                    proof {
                        lemma_digit_run(s2, k);
                        assert(s2.take(k) =~= s);
                    }
                    if self.digits.len() == 0 {
                        return Err(ScgiError::BadLength);
                    }
                    match length_value(&self.digits) {
                        Some(n) => {
                            self.length = Some(n);
                            assert(self.block@ =~= s2.skip(k + 1));
                            Ok(None)
                        },
                        None => Err(ScgiError::BadLength),
                    }
                } else {
                    proof {
                        lemma_digit_run(s2, k);
                        assert(s2.take(k) =~= s);
                    }
                    Err(self.wrong_length())
                }
            },
            Some(n) => {
                let ghost k = digit_run(s) as int;
                proof {
                    lemma_digit_run(s2, k);
                    assert(s2.take(k) =~= s.take(k));
                }
                if self.block.len() < n {
                    let mut i: usize = 0;
                    while i < data.len()
                        invariant
                            i <= data@.len(),
                            self.block@ == s.skip(k + 1) + data@.take(i as int),
                            self.digits@ == old(self).digits@,
                            self.length == old(self).length,
                            self.seen == old(self).seen,
                        decreases data@.len() - i,
                    {
                        self.block.push(data[i]);
                        assert(data@.take(i + 1) =~= data@.take(i as int).push(data@[i as int]));
                        i = i + 1;
                    }
                    assert(data@.take(i as int) =~= data@);
                    assert(s2.skip(k + 1) =~= s.skip(k + 1) + data@);
                    self.seen = Ghost(s2);
                    Ok(None)
                } else {
                    let b = data[0];
                    assert(data@ =~= seq![b]);
                    assert(s2.skip(k + 1) =~= s.skip(k + 1).push(b));
                    self.seen = Ghost(s2);
                    if b == COMMA {
                        let mut out: Vec<u8> = Vec::new();
                        std::mem::swap(&mut out, &mut self.block);
                        assert(s2.skip(k + 1).take(n as int) =~= out@);
                        Ok(Some(out))
                    } else {
                        Err(self.wrong_length())
                    }
                }
            },
        }
    }

    /// `WrongLength` with the length digits read so far.
    fn wrong_length(&self) -> (e: ScgiError)
        requires
            forall|j: int| 0 <= j < self.digits@.len() ==> is_digit(#[trigger] self.digits@[j]),
        ensures
            e matches ScgiError::WrongLength(t) && t@ == ascii_chars(self.digits@),
    {
        proof {
            assert(all_ascii(self.digits@));
            lemma_ascii_utf8(self.digits@);
        }
        match utf8_text(self.digits.as_slice()) {
            Ok(t) => ScgiError::WrongLength(t.to_owned()),
            Err(e) => ScgiError::Utf8(e),
        }
    }
}

} // verus!
