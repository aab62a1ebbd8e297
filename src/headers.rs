//! Splitting a raw header block into its name/value pairs.
//!
//! A block is a run of pairs, each a name and a value, each terminated by a
//! zero byte, with nothing between one pair and the next.

use std::collections::BTreeMap;
use vstd::prelude::*;
use vstd::slice::slice_subrange;
use vstd::utf8::*;
use crate::error::ScgiError;
use crate::text::utf8_text;

verus! {

/// Index of the first zero byte of `b`, or `b.len()` when it holds none.
pub open spec fn zero_index(b: Seq<u8>) -> nat
    decreases b.len(),
{
    if b.len() == 0 || b[0] == 0 {
        0
    } else {
        1 + zero_index(b.drop_first())
    }
}

/// What the first pair of a non-empty block suffix is.
pub enum HeaderStep {
    /// A name and a value, both well-formed UTF-8, and the bytes they span
    /// with their terminators.
    Pair { name: Seq<u8>, value: Seq<u8>, used: nat },
    /// The name or the value has no terminating zero byte.
    Unterminated,
    /// The name or the value is not well-formed UTF-8.
    BadText,
}

/// Reading the first pair of `b`: the name up to the first zero byte, checked
/// as UTF-8, then the value up to the next zero byte, checked likewise.
pub open spec fn header_step(b: Seq<u8>) -> HeaderStep {
    let i = zero_index(b) as int;
    if i >= b.len() {
        HeaderStep::Unterminated
    } else if !valid_utf8(b.take(i)) {
        HeaderStep::BadText
    } else {
        let after = b.skip(i + 1);
        let j = zero_index(after) as int;
        if j >= after.len() {
            HeaderStep::Unterminated
        } else if !valid_utf8(after.take(j)) {
            HeaderStep::BadText
        } else {
            HeaderStep::Pair { name: b.take(i), value: after.take(j), used: (i + j + 2) as nat }
        }
    }
}

/// What a whole block decomposes into.
pub enum HeaderScan {
    /// The pairs, in block order, as (name bytes, value bytes).
    Pairs(Seq<(Seq<u8>, Seq<u8>)>),
    /// Some run lacks its terminating zero byte.
    Unterminated,
    /// Some run met before that is not well-formed UTF-8.
    BadText,
}

/// The decomposition of a block, pair after pair, stopping at the first fault.
pub open spec fn scan_headers(b: Seq<u8>) -> HeaderScan
    decreases b.len(),
{
    if b.len() == 0 {
        HeaderScan::Pairs(seq![])
    } else {
        match header_step(b) {
            HeaderStep::Pair { name, value, used } => {
                if 0 < used <= b.len() {
                    match scan_headers(b.skip(used as int)) {
                        HeaderScan::Pairs(ps) => HeaderScan::Pairs(seq![(name, value)] + ps),
                        fault => fault,
                    }
                } else {
                    HeaderScan::Unterminated
                }
            },
            HeaderStep::Unterminated => HeaderScan::Unterminated,
            HeaderStep::BadText => HeaderScan::BadText,
        }
    }
}

/// The error that a faulty decomposition is reported as.
pub open spec fn scan_error(s: HeaderScan, r: ScgiError) -> bool {
    match s {
        HeaderScan::Pairs(_) => false,
        HeaderScan::Unterminated => r is WrongHeaders,
        HeaderScan::BadText => r is Utf8,
    }
}

/// The text of a pair of byte runs.
pub open spec fn pair_text(p: (Seq<u8>, Seq<u8>)) -> (Seq<char>, Seq<char>) {
    (decode_utf8(p.0), decode_utf8(p.1))
}

/// The text of each pair of byte runs, in order.
pub open spec fn pairs_text(ps: Seq<(Seq<u8>, Seq<u8>)>) -> Seq<(Seq<char>, Seq<char>)> {
    ps.map_values(|p: (Seq<u8>, Seq<u8>)| pair_text(p))
}

/// The lookup built by inserting the pairs in order: a later pair with the
/// same name replaces an earlier one.
pub open spec fn text_map(ts: Seq<(Seq<char>, Seq<char>)>) -> Map<Seq<char>, Seq<char>>
    decreases ts.len(),
{
    if ts.len() == 0 {
        Map::empty()
    } else {
        text_map(ts.drop_last()).insert(ts.last().0, ts.last().1)
    }
}

/// The whole pairs at the start of `b`, in order, up to its end or to the
/// first fault: what a visitor is handed.
pub open spec fn leading_pairs(b: Seq<u8>) -> Seq<(Seq<u8>, Seq<u8>)>
    decreases b.len(),
{
    if b.len() == 0 {
        seq![]
    } else {
        match header_step(b) {
            HeaderStep::Pair { name, value, used } => {
                if 0 < used <= b.len() {
                    seq![(name, value)] + leading_pairs(b.skip(used as int))
                } else {
                    seq![]
                }
            },
            _ => seq![],
        }
    }
}

/// What collecting the pairs of block `b` into a map gives: the map of its
/// pairs, or the error of its first fault.
pub open spec fn collected<K: DeepView<V = Seq<char>>, V: DeepView<V = Seq<char>>>(
    b: Seq<u8>,
    r: Result<BTreeMap<K, V>, ScgiError>,
) -> bool {
    match scan_headers(b) {
        HeaderScan::Pairs(ps) => r matches Ok(m) && m.deep_view() == text_map(pairs_text(ps)),
        fault => r matches Err(e) && scan_error(fault, e),
    }
}

/// The block that carries the pairs `ps`, in order: each name and each
/// value followed by a zero byte.
pub open spec fn encode_pairs(ps: Seq<(Seq<u8>, Seq<u8>)>) -> Seq<u8>
    decreases ps.len(),
{
    if ps.len() == 0 {
        seq![]
    } else {
        ps[0].0 + seq![0u8] + ps[0].1 + seq![0u8] + encode_pairs(ps.drop_first())
    }
}

/// A run that can stand as a name or a value: well-formed UTF-8 without a zero byte.
pub open spec fn valid_run(r: Seq<u8>) -> bool {
    &&& valid_utf8(r)
    &&& forall|i: int| 0 <= i < r.len() ==> #[trigger] r[i] != 0
}

proof fn lemma_zero_index(b: Seq<u8>, i: int)
    requires
        0 <= i <= b.len(),
        forall|j: int| 0 <= j < i ==> b[j] != 0,
        i == b.len() || b[i] == 0,
    ensures
        zero_index(b) == i,
    decreases i,
{
    if i > 0 {
        lemma_zero_index(b.drop_first(), i - 1);
    }
}

/// Index of the first zero byte of `raw` at or after `start`, or `raw.len()`.
fn zero_from(raw: &[u8], start: usize) -> (r: usize)
    requires
        start <= raw@.len(),
    ensures
        start <= r <= raw@.len(),
        r == start + zero_index(raw@.skip(start as int)),
{
    let mut i = start;
    while i < raw.len() && raw[i] != 0
        invariant
            start <= i <= raw@.len(),
            forall|j: int| start <= j < i ==> raw@[j] != 0,
        decreases raw@.len() - i,
    {
        i = i + 1;
    }
    proof {
        lemma_zero_index(raw@.skip(start as int), i - start);
    }
    i
}

/// Reads the pair that starts at `pos` in the block: its name, its value, and
/// the position just after the value's terminator.
pub fn next_header<'h>(raw_headers: &'h [u8], pos: usize) -> (r: Result<(&'h str, &'h str, usize), ScgiError>)
    requires
        pos < raw_headers@.len(),
    ensures
        match header_step(raw_headers@.skip(pos as int)) {
            HeaderStep::Pair { name, value, used } => r matches Ok((n, v, next)) && n@ == decode_utf8(name)
                && v@ == decode_utf8(value) && next == pos + used,
            HeaderStep::Unterminated => r matches Err(ScgiError::WrongHeaders),
            HeaderStep::BadText => r matches Err(ScgiError::Utf8(_)),
        },
{
    let ghost b = raw_headers@.skip(pos as int);
    let z1 = zero_from(raw_headers, pos);
    if z1 >= raw_headers.len() {
        return Err(ScgiError::WrongHeaders);
    }
    assert(raw_headers@.subrange(pos as int, z1 as int) =~= b.take(z1 - pos));
    let name = match utf8_text(slice_subrange(raw_headers, pos, z1)) {
        Ok(s) => s,
        Err(e) => {
            return Err(ScgiError::Utf8(e));
        },
    };
    let z2 = zero_from(raw_headers, z1 + 1);
    let ghost after = b.skip(z1 - pos + 1);
    assert(after =~= raw_headers@.skip(z1 + 1));
    if z2 >= raw_headers.len() {
        return Err(ScgiError::WrongHeaders);
    }
    assert(raw_headers@.subrange(z1 + 1, z2 as int) =~= after.take(z2 - z1 - 1));
    let value = match utf8_text(slice_subrange(raw_headers, z1 + 1, z2)) {
        Ok(s) => s,
        Err(e) => {
            return Err(ScgiError::Utf8(e));
        },
    };
    Ok((name, value, z2 + 1))
}

/// A decomposition with pairs `ps` read before it.
pub open spec fn prefixed(ps: Seq<(Seq<u8>, Seq<u8>)>, s: HeaderScan) -> HeaderScan {
    match s {
        HeaderScan::Pairs(qs) => HeaderScan::Pairs(ps + qs),
        fault => fault,
    }
}

proof fn lemma_zero_index_facts(b: Seq<u8>)
    ensures
        zero_index(b) <= b.len(),
        forall|j: int| 0 <= j < zero_index(b) ==> #[trigger] b[j] != 0,
        zero_index(b) < b.len() ==> b[zero_index(b) as int] == 0,
    decreases b.len(),
{
    if b.len() > 0 && b[0] != 0 {
        let t = b.drop_first();
        lemma_zero_index_facts(t);
        assert forall|j: int| 0 <= j < zero_index(b) implies #[trigger] b[j] != 0 by {
            if j > 0 {
                assert(b[j] == t[j - 1]);
            }
        }
    }
}

/// Reading one pair moves the decomposition of a suffix, and the pairs that
/// lead it, one pair on.
proof fn lemma_scan_step(raw: Seq<u8>, pos: int, done: Seq<(Seq<u8>, Seq<u8>)>)
    requires
        0 <= pos < raw.len(),
        header_step(raw.skip(pos)) is Pair,
    ensures
        ({
            let step = header_step(raw.skip(pos));
            &&& 0 < step->used <= raw.len() - pos
            &&& prefixed(done, scan_headers(raw.skip(pos))) == prefixed(
                done.push((step->name, step->value)),
                scan_headers(raw.skip(pos + step->used)),
            )
            &&& done + leading_pairs(raw.skip(pos)) == done.push((step->name, step->value))
                + leading_pairs(raw.skip(pos + step->used))
        }),
{
    let b = raw.skip(pos);
    let step = header_step(b);
    let (name, value, used) = (step->name, step->value, step->used);
    assert(b.skip(used as int) =~= raw.skip(pos + used));
    match scan_headers(raw.skip(pos + used)) {
        HeaderScan::Pairs(qs) => {
            assert(done + (seq![(name, value)] + qs) =~= done.push((name, value)) + qs);
        },
        _ => {},
    }
    let rest = leading_pairs(raw.skip(pos + used));
    assert(done + (seq![(name, value)] + rest) =~= done.push((name, value)) + rest);
}

/// When a block splits whole, its pairs are the pairs that lead it.
proof fn lemma_pairs_lead(b: Seq<u8>)
    ensures
        scan_headers(b) matches HeaderScan::Pairs(ps) ==> ps == leading_pairs(b),
    decreases b.len(),
{
    if b.len() > 0 {
        if let HeaderStep::Pair { name: _, value: _, used } = header_step(b) {
            if 0 < used <= b.len() {
                lemma_pairs_lead(b.skip(used as int));
            }
        }
    }
}

/// Splitting the block that carries some pairs gives back those pairs, in
/// the same order.
pub proof fn lemma_pairs_round_trip(ps: Seq<(Seq<u8>, Seq<u8>)>)
    requires
        forall|i: int| 0 <= i < ps.len() ==> valid_run(#[trigger] ps[i].0) && valid_run(ps[i].1),
    ensures
        scan_headers(encode_pairs(ps)) == HeaderScan::Pairs(ps),
        leading_pairs(encode_pairs(ps)) == ps,
    decreases ps.len(),
{
    if ps.len() == 0 {
        assert(ps =~= Seq::<(Seq<u8>, Seq<u8>)>::empty());
    } else {
        let (name, value) = ps[0];
        assert(valid_run(ps[0].0) && valid_run(ps[0].1));
        let tail = ps.drop_first();
        assert forall|i: int| 0 <= i < tail.len() implies valid_run(#[trigger] tail[i].0) && valid_run(
            tail[i].1,
        ) by {
            assert(tail[i] == ps[i + 1]);
        }
        lemma_pairs_round_trip(tail);
        let b = encode_pairs(ps);
        let i = name.len() as int;
        assert forall|j: int| 0 <= j < i implies b[j] != 0 by {
            assert(b[j] == name[j]);
        }
        lemma_zero_index(b, i);
        assert(b.take(i) =~= name);
        let after = b.skip(i + 1);
        assert(after =~= value + seq![0u8] + encode_pairs(tail));
        let j = value.len() as int;
        assert forall|m: int| 0 <= m < j implies after[m] != 0 by {
            assert(after[m] == value[m]);
        }
        lemma_zero_index(after, j);
        assert(after.take(j) =~= value);
        assert(b.skip(i + j + 2) =~= encode_pairs(tail));
        assert(seq![(name, value)] + tail =~= ps);
    }
}

/// A block that splits whole is exactly its pairs laid end to end, each
/// name and value a zero-free run followed by one zero byte.
pub proof fn lemma_block_is_its_pairs(b: Seq<u8>)
    requires
        scan_headers(b) is Pairs,
    ensures
        ({
            let ps = scan_headers(b)->Pairs_0;
            &&& b == encode_pairs(ps)
            &&& forall|i: int| 0 <= i < ps.len() ==> valid_run(#[trigger] ps[i].0) && valid_run(ps[i].1)
        }),
    decreases b.len(),
{
    let ps = scan_headers(b)->Pairs_0;
    if b.len() == 0 {
        assert(b =~= encode_pairs(ps));
    } else {
        let step = header_step(b);
        let (name, value, used) = (step->name, step->value, step->used);
        let rest = b.skip(used as int);
        lemma_block_is_its_pairs(rest);
        let qs = scan_headers(rest)->Pairs_0;
        assert(ps == seq![(name, value)] + qs);
        lemma_zero_index_facts(b);
        let i = zero_index(b) as int;
        let after = b.skip(i + 1);
        lemma_zero_index_facts(after);
        let j = zero_index(after) as int;
        assert(ps.drop_first() =~= qs);
        assert(b =~= name + seq![0u8] + value + seq![0u8] + rest);
        assert(valid_run(name)) by {
            assert forall|m: int| 0 <= m < name.len() implies #[trigger] name[m] != 0 by {
                assert(name[m] == b[m]);
            }
        }
        assert(valid_run(value)) by {
            assert forall|m: int| 0 <= m < value.len() implies #[trigger] value[m] != 0 by {
                assert(value[m] == after[m]);
            }
        }
        assert forall|k: int| 0 <= k < ps.len() implies valid_run(#[trigger] ps[k].0) && valid_run(
            ps[k].1,
        ) by {
            if k > 0 {
                assert(ps[k] == qs[k - 1]);
            }
        }
    }
}

/// Each pair spans at least its two terminators, so a visitor is handed at
/// most half as many pairs as the block has bytes.
pub proof fn lemma_leading_pairs_bound(b: Seq<u8>)
    ensures
        2 * leading_pairs(b).len() <= b.len(),
    decreases b.len(),
{
    if b.len() > 0 {
        if let HeaderStep::Pair { name: _, value: _, used } = header_step(b) {
            if 0 < used <= b.len() {
                lemma_leading_pairs_bound(b.skip(used as int));
            }
        }
    }
}

/// Collecting the same block twice gives the same lookup, or the same error.
pub proof fn lemma_collect_deterministic<K: DeepView<V = Seq<char>>, V: DeepView<V = Seq<char>>>(
    b: Seq<u8>,
    r1: Result<BTreeMap<K, V>, ScgiError>,
    r2: Result<BTreeMap<K, V>, ScgiError>,
)
    requires
        collected(b, r1),
        collected(b, r2),
    ensures
        r1 is Ok <==> r2 is Ok,
        r1 matches Ok(m1) ==> (r2 matches Ok(m2) && m1.deep_view() == m2.deep_view()),
        r1 matches Err(e1) ==> (r2 matches Err(e2) && (e1 is WrongHeaders <==> e2 is WrongHeaders)
            && (e1 is Utf8 <==> e2 is Utf8)),
{
}

/// Receives the header pairs of a block, one call per pair, in block order.
pub trait HeaderVisitor<'h> {
    /// The visitor is ready to take pairs.
    spec fn ready(&self) -> bool;

    /// The pairs handed to this visitor so far, as text, in order.
    spec fn seen(&self) -> Seq<(Seq<char>, Seq<char>)>;

    /// Takes the next pair.
    fn visit(&mut self, name: &'h str, value: &'h str)
        requires
            old(self).ready(),
        ensures
            final(self).ready(),
            final(self).seen() == old(self).seen().push((name@, value@)),
    ;
}

/// A visitor made of a closure, which is called with each pair.
pub struct PairFn<F> {
    f: F,
    seen: Ghost<Seq<(Seq<char>, Seq<char>)>>,
}

impl<F> PairFn<F> {
    /// The closure that this visitor calls.
    pub closed spec fn callee(&self) -> F {
        self.f
    }

    /// A visitor that calls `f` with each pair, and has been handed none yet.
    pub fn new<'h>(f: F) -> (v: PairFn<F>) where F: FnMut(&'h str, &'h str)
        requires
            forall|name: &'h str, value: &'h str| call_requires(f, (name, value)),
        ensures
            v.callee() == f,
            <PairFn<F> as HeaderVisitor<'h>>::ready(&v),
            <PairFn<F> as HeaderVisitor<'h>>::seen(&v) == Seq::<(Seq<char>, Seq<char>)>::empty(),
    {
        PairFn { f, seen: Ghost(Seq::empty()) }
    }
}

impl<'h, F: FnMut(&'h str, &'h str)> HeaderVisitor<'h> for PairFn<F> {
    closed spec fn ready(&self) -> bool {
        forall|name: &'h str, value: &'h str| call_requires(self.f, (name, value))
    }

    closed spec fn seen(&self) -> Seq<(Seq<char>, Seq<char>)> {
        self.seen@
    }

    fn visit(&mut self, name: &'h str, value: &'h str) {
        (self.f)(name, value);
        self.seen = Ghost(self.seen@.push((name@, value@)));
    }
}

/// What a visitor of block `b` was handed: the pairs leading the block, all
/// of them when it splits whole, else those before the first fault.
pub open spec fn visited<'h, V: HeaderVisitor<'h>>(b: Seq<u8>, before: V, after: V) -> bool {
    &&& after.ready()
    &&& after.seen() == before.seen() + pairs_text(leading_pairs(b))
}

/// Parses the headers, handing every pair to `visitor`, in block order.
pub fn parse<'h, V: HeaderVisitor<'h>>(raw_headers: &'h [u8], visitor: &mut V) -> (r: Result<(), ScgiError>)
    requires
        old(visitor).ready(),
    ensures
        r is Ok <==> scan_headers(raw_headers@) is Pairs,
        r matches Err(e) ==> scan_error(scan_headers(raw_headers@), e),
        visited(raw_headers@, *old(visitor), *final(visitor)),
{
    let mut pos: usize = 0;
    let ghost mut done: Seq<(Seq<u8>, Seq<u8>)> = seq![];
    let ghost start = visitor.seen();
    assert(raw_headers@.skip(0) =~= raw_headers@);
    assert(done + leading_pairs(raw_headers@) =~= leading_pairs(raw_headers@));
    assert(pairs_text(done) =~= Seq::<(Seq<char>, Seq<char>)>::empty());
    assert(start + pairs_text(done) =~= start);
    while pos < raw_headers.len()
        invariant
            pos <= raw_headers@.len(),
            prefixed(done, scan_headers(raw_headers@.skip(pos as int))) == scan_headers(raw_headers@),
            done + leading_pairs(raw_headers@.skip(pos as int)) == leading_pairs(raw_headers@),
            visitor.ready(),
            visitor.seen() == start + pairs_text(done),
            start == old(visitor).seen(),
        decreases raw_headers@.len() - pos,
    {
        let (name, value, next) = match next_header(raw_headers, pos) {
            Ok(p) => p,
            Err(e) => {
                assert(raw_headers@.skip(pos as int).len() > 0);
                assert(!(header_step(raw_headers@.skip(pos as int)) is Pair));
                assert(leading_pairs(raw_headers@.skip(pos as int)) =~= seq![]);
                assert(done + leading_pairs(raw_headers@.skip(pos as int)) =~= done);
                return Err(e);
            },
        };
        proof {
            lemma_scan_step(raw_headers@, pos as int, done);
            let step = header_step(raw_headers@.skip(pos as int));
            assert(pairs_text(done.push((step->name, step->value))) =~= pairs_text(done).push(
                pair_text((step->name, step->value)),
            ));
            done = done.push((step->name, step->value));
        }
        visitor.visit(name, value);
        pos = next;
    }
    assert(raw_headers@.skip(pos as int) =~= Seq::<u8>::empty());
    assert(done + leading_pairs(raw_headers@.skip(pos as int)) =~= done);
    Ok(())
}

/// Relies on `BTreeMap::insert`: `String` keys are ordered by their text, so
/// the name now maps to the value, replacing any value it had.
#[verifier::external_body]
fn insert_owned(m: &mut BTreeMap<String, String>, name: String, value: String)
    ensures
        final(m).deep_view() == old(m).deep_view().insert(name@, value@),
{
    m.insert(name, value);
}

/// Relies on `BTreeMap::insert`: `&str` keys are ordered by their text, so
/// the name now maps to the value, replacing any value it had.
#[verifier::external_body]
fn insert_borrowed<'h>(m: &mut BTreeMap<&'h str, &'h str>, name: &'h str, value: &'h str)
    ensures
        final(m).deep_view() == old(m).deep_view().insert(name@, value@),
{
    m.insert(name, value);
}

proof fn lemma_text_map_push(ts: Seq<(Seq<char>, Seq<char>)>, t: (Seq<char>, Seq<char>))
    ensures
        text_map(ts.push(t)) == text_map(ts).insert(t.0, t.1),
{
    assert(ts.push(t).drop_last() =~= ts);
}

proof fn lemma_new_map_empty<K: DeepView, V: DeepView>(m: BTreeMap<K, V>)
    requires
        m@ == Map::<K, V>::empty(),
    ensures
        m.deep_view() == Map::<K::V, V::V>::empty(),
{
    vstd::std_specs::btree::lemma_btree_map_deepview_dom(m);
    assert(m.deep_view().dom() =~= Set::<K::V>::empty());
    assert(m.deep_view() =~= Map::<K::V, V::V>::empty());
}

/// Collects pairs into a map of owned strings.
struct OwnedPairs {
    map: BTreeMap<String, String>,
    seen: Ghost<Seq<(Seq<char>, Seq<char>)>>,
}

impl<'h> HeaderVisitor<'h> for OwnedPairs {
    closed spec fn ready(&self) -> bool {
        self.map.deep_view() == text_map(self.seen@)
    }

    closed spec fn seen(&self) -> Seq<(Seq<char>, Seq<char>)> {
        self.seen@
    }

    fn visit(&mut self, name: &'h str, value: &'h str) {
        proof {
            lemma_text_map_push(self.seen@, (name@, value@));
        }
        insert_owned(&mut self.map, name.to_owned(), value.to_owned());
        self.seen = Ghost(self.seen@.push((name@, value@)));
    }
}

/// Collects pairs into a map of slices of the block.
struct BorrowedPairs<'h> {
    map: BTreeMap<&'h str, &'h str>,
    seen: Ghost<Seq<(Seq<char>, Seq<char>)>>,
}

impl<'h> HeaderVisitor<'h> for BorrowedPairs<'h> {
    closed spec fn ready(&self) -> bool {
        self.map.deep_view() == text_map(self.seen@)
    }

    closed spec fn seen(&self) -> Seq<(Seq<char>, Seq<char>)> {
        self.seen@
    }

    fn visit(&mut self, name: &'h str, value: &'h str) {
        proof {
            lemma_text_map_push(self.seen@, (name@, value@));
        }
        insert_borrowed(&mut self.map, name, value);
        self.seen = Ghost(self.seen@.push((name@, value@)));
    }
}

/// Parses the headers and packs them as owned strings into a map; a later
/// pair with a name already seen replaces the earlier value.
pub fn string_map(raw_headers: &[u8]) -> (r: Result<BTreeMap<String, String>, ScgiError>)
    ensures
        collected(raw_headers@, r),
{
    let mut pairs = OwnedPairs { map: BTreeMap::new(), seen: Ghost(Seq::empty()) };
    proof {
        lemma_new_map_empty(pairs.map);
        lemma_pairs_lead(raw_headers@);
        assert(Seq::<(Seq<char>, Seq<char>)>::empty() + pairs_text(leading_pairs(raw_headers@))
            =~= pairs_text(leading_pairs(raw_headers@)));
    }
    match parse(raw_headers, &mut pairs) {
        Ok(()) => Ok(pairs.map),
        Err(e) => Err(e),
    }
}

/// Parses the headers and packs them as slices of the block into a map; a
/// later pair with a name already seen replaces the earlier value.
pub fn str_map<'h>(raw_headers: &'h [u8]) -> (r: Result<BTreeMap<&'h str, &'h str>, ScgiError>)
    ensures
        collected(raw_headers@, r),
{
    let mut pairs = BorrowedPairs { map: BTreeMap::new(), seen: Ghost(Seq::empty()) };
    proof {
        lemma_new_map_empty(pairs.map);
        lemma_pairs_lead(raw_headers@);
        assert(Seq::<(Seq<char>, Seq<char>)>::empty() + pairs_text(leading_pairs(raw_headers@))
            =~= pairs_text(leading_pairs(raw_headers@)));
    }
    match parse(raw_headers, &mut pairs) {
        Ok(()) => Ok(pairs.map),
        Err(e) => Err(e),
    }
}

} // verus!
