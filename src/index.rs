//! The packed hash index: a chained hash table laid out in bytes so that a
//! guest can look keys up directly in shared memory.
//!
//! Layout: a slot table of `u32` offsets (0 for an empty slot), then the chain
//! region, which opens with one bumper byte so that no chain starts at 0. A
//! chain is its pair count followed by its pairs, each a length-prefixed key
//! and a length-prefixed value; all numbers are little-endian `u32`. Within a
//! chain keys ascend by length, then bytewise.
use vstd::prelude::*;
use std::collections::hash_map::DefaultHasher;
use std::hash::Hasher;
use vstd::std_specs::hash::DefaultHasherAdditionalSpecFns;
use crate::table::{Entry, HostTable, find, unique_keys, lemma_find_present, lemma_find_absent, append_bytes, same_bytes, copy_bytes};

verus! {

// ---------------------------------------------------------------- encoding

/// Little-endian bytes of `v`.
pub open spec fn u32_bytes(v: u32) -> Seq<u8> {
    seq![(v & 0xff) as u8, ((v >> 8u32) & 0xff) as u8, ((v >> 16u32) & 0xff) as u8, (v >> 24u32) as u8]
}

/// The little-endian `u32` whose bytes start at `off`.
pub open spec fn u32_at(d: Seq<u8>, off: int) -> u32 {
    (d[off] as u32) | ((d[off + 1] as u32) << 8u32) | ((d[off + 2] as u32) << 16u32) | ((d[off + 3] as u32) << 24u32)
}

/// A byte string preceded by its length.
pub open spec fn length_prefixed(s: Seq<u8>) -> Seq<u8> {
    u32_bytes(s.len() as u32) + s
}

pub open spec fn pair_bytes(e: Entry) -> Seq<u8> {
    length_prefixed(e.0) + length_prefixed(e.1)
}

pub open spec fn pairs_bytes(c: Seq<Entry>) -> Seq<u8>
    decreases c.len(),
{
    if c.len() == 0 {
        Seq::empty()
    } else {
        pair_bytes(c[0]) + pairs_bytes(c.drop_first())
    }
}

/// A chain: its pair count, then its pairs.
pub open spec fn chain_bytes(c: Seq<Entry>) -> Seq<u8> {
    u32_bytes(c.len() as u32) + pairs_bytes(c)
}

/// The chain region for the chains `bs`, one per slot: the bumper byte, then
/// each non-empty chain in slot order.
pub open spec fn region_bytes(bs: Seq<Seq<Entry>>) -> Seq<u8>
    decreases bs.len(),
{
    if bs.len() == 0 {
        seq![0u8]
    } else {
        region_bytes(bs.drop_last()) + (if bs.last().len() == 0 {
            Seq::empty()
        } else {
            chain_bytes(bs.last())
        })
    }
}

/// The slot table for the chains `bs`: where each non-empty chain starts in
/// the chain region, and 0 for an empty one.
pub open spec fn slot_table(bs: Seq<Seq<Entry>>) -> Seq<u32> {
    Seq::new(bs.len(), |i: int| if bs[i].len() == 0 { 0u32 } else { region_bytes(bs.take(i)).len() as u32 })
}

/// The slot table as bytes.
pub open spec fn slot_table_bytes(slots: Seq<u32>) -> Seq<u8>
    decreases slots.len(),
{
    if slots.len() == 0 {
        Seq::empty()
    } else {
        slot_table_bytes(slots.drop_last()) + u32_bytes(slots.last())
    }
}

proof fn lemma_u32_round_trip(v: u32, b0: u8, b1: u8, b2: u8, b3: u8)
    requires
        b0 == (v & 0xff) as u8,
        b1 == ((v >> 8u32) & 0xff) as u8,
        b2 == ((v >> 16u32) & 0xff) as u8,
        b3 == (v >> 24u32) as u8,
    ensures
        (b0 as u32) | ((b1 as u32) << 8u32) | ((b2 as u32) << 16u32) | ((b3 as u32) << 24u32) == v,
{
    assert((b0 as u32) | ((b1 as u32) << 8u32) | ((b2 as u32) << 16u32) | ((b3 as u32) << 24u32) == v)
        by (bit_vector)
        requires
            b0 == (v & 0xff) as u8,
            b1 == ((v >> 8u32) & 0xff) as u8,
            b2 == ((v >> 16u32) & 0xff) as u8,
            b3 == (v >> 24u32) as u8,
    ;
}

/// Reading back a `u32` that was written at `off` gives the same number.
pub proof fn lemma_u32_at(d: Seq<u8>, off: int, v: u32)
    requires
        0 <= off,
        off + 4 <= d.len(),
        d.subrange(off, off + 4) == u32_bytes(v),
    ensures
        u32_at(d, off) == v,
{
    let w = u32_bytes(v);
    assert(d[off] == w[0] && d[off + 1] == w[1] && d[off + 2] == w[2] && d[off + 3] == w[3]) by {
        assert(d.subrange(off, off + 4)[0] == d[off]);
        assert(d.subrange(off, off + 4)[1] == d[off + 1]);
        assert(d.subrange(off, off + 4)[2] == d[off + 2]);
        assert(d.subrange(off, off + 4)[3] == d[off + 3]);
    }
    lemma_u32_round_trip(v, d[off], d[off + 1], d[off + 2], d[off + 3]);
}

/// Appends the little-endian bytes of `v`.
pub fn push_u32(out: &mut Vec<u8>, v: u32)
    ensures
        final(out)@ == old(out)@ + u32_bytes(v),
{
    out.push((v & 0xff) as u8);
    out.push(((v >> 8) & 0xff) as u8);
    out.push(((v >> 16) & 0xff) as u8);
    out.push((v >> 24) as u8);
    assert(final(out)@ =~= old(out)@ + u32_bytes(v));
}

/// Reads the little-endian `u32` at `off`, if four bytes are there.
pub fn read_u32(d: &[u8], off: usize) -> (r: Option<u32>)
    ensures
        match r {
            Some(v) => off + 4 <= d@.len() && v == u32_at(d@, off as int),
            None => off + 4 > d@.len(),
        },
{
    if off > d.len() || d.len() - off < 4 {
        return None;
    }
    Some((d[off] as u32) | ((d[off + 1] as u32) << 8) | ((d[off + 2] as u32) << 16) | ((d[off + 3] as u32) << 24))
}

// --------------------------------------------------------------- key order

/// Bytewise order on byte strings of one length.
pub open spec fn lex_less(a: Seq<u8>, b: Seq<u8>) -> bool
    decreases a.len(),
{
    if a.len() == 0 || b.len() == 0 {
        false
    } else if a[0] != b[0] {
        a[0] < b[0]
    } else {
        lex_less(a.drop_first(), b.drop_first())
    }
}

/// The order of keys within a chain: shorter first, then bytewise.
pub open spec fn key_precedes(a: Seq<u8>, b: Seq<u8>) -> bool {
    a.len() < b.len() || (a.len() == b.len() && lex_less(a, b))
}

/// Within the chain, keys strictly ascend.
pub open spec fn chain_sorted(c: Seq<Entry>) -> bool {
    forall|i: int, j: int| 0 <= i < j < c.len() ==> key_precedes(c[i].0, c[j].0)
}

proof fn lemma_lex_total(a: Seq<u8>, b: Seq<u8>)
    requires
        a.len() == b.len(),
        a != b,
    ensures
        lex_less(a, b) || lex_less(b, a),
    decreases a.len(),
{
    if a.len() > 0 && a[0] == b[0] {
        if a.drop_first() == b.drop_first() {
            assert(a =~= seq![a[0]] + a.drop_first());
            assert(b =~= seq![b[0]] + b.drop_first());
        }
        lemma_lex_total(a.drop_first(), b.drop_first());
    } else if a.len() == 0 {
        assert(a =~= b);
    }
}

proof fn lemma_lex_irreflexive(a: Seq<u8>)
    ensures
        !lex_less(a, a),
    decreases a.len(),
{
    if a.len() > 0 {
        lemma_lex_irreflexive(a.drop_first());
    }
}

proof fn lemma_lex_transitive(a: Seq<u8>, b: Seq<u8>, c: Seq<u8>)
    requires
        a.len() == b.len(),
        b.len() == c.len(),
        lex_less(a, b),
        lex_less(b, c),
    ensures
        lex_less(a, c),
    decreases a.len(),
{
    if a[0] == b[0] && b[0] == c[0] {
        lemma_lex_transitive(a.drop_first(), b.drop_first(), c.drop_first());
    }
}

pub proof fn lemma_key_total(a: Seq<u8>, b: Seq<u8>)
    requires
        a != b,
    ensures
        key_precedes(a, b) || key_precedes(b, a),
{
    if a.len() == b.len() {
        lemma_lex_total(a, b);
    }
}

pub proof fn lemma_key_irreflexive(a: Seq<u8>)
    ensures
        !key_precedes(a, a),
{
    lemma_lex_irreflexive(a);
}

pub proof fn lemma_key_transitive(a: Seq<u8>, b: Seq<u8>, c: Seq<u8>)
    requires
        key_precedes(a, b),
        key_precedes(b, c),
    ensures
        key_precedes(a, c),
{
    if a.len() == b.len() && b.len() == c.len() {
        lemma_lex_transitive(a, b, c);
    }
}

/// Whether key `a` comes before key `b` in a chain.
pub fn key_less(a: &[u8], b: &[u8]) -> (r: bool)
    ensures
        r == key_precedes(a@, b@),
{
    if a.len() != b.len() {
        return a.len() < b.len();
    }
    let mut i: usize = 0;
    assert(a@.skip(0) =~= a@ && b@.skip(0) =~= b@);
    while i < a.len()
        invariant
            a@.len() == b@.len(),
            i <= a@.len(),
            lex_less(a@, b@) == lex_less(a@.skip(i as int), b@.skip(i as int)),
        decreases a@.len() - i,
    {
        let ghost sa = a@.skip(i as int);
        let ghost sb = b@.skip(i as int);
        assert(sa[0] == a@[i as int] && sb[0] == b@[i as int]);
        if a[i] != b[i] {
            return a[i] < b[i];
        }
        assert(sa.drop_first() =~= a@.skip(i + 1));
        assert(sb.drop_first() =~= b@.skip(i + 1));
        i = i + 1;
    }
    false
}

// ---------------------------------------------------------------- hashing

/// The content hash of a key: std's `DefaultHasher` fed the key's bytes in
/// one write.
pub open spec fn key_hash(key: Seq<u8>) -> u64 {
    DefaultHasher::spec_finish(seq![key])
}

/// The slot that holds `key` in a table of `slot_count` slots.
pub open spec fn slot_of(key: Seq<u8>, slot_count: nat) -> int {
    (key_hash(key) as nat % slot_count) as int
}

/// The slot of `key` among `slot_count` slots.
pub fn slot_for(key: &[u8], slot_count: usize) -> (r: usize)
    requires
        slot_count > 0,
    ensures
        r == slot_of(key@, slot_count as nat),
        r < slot_count,
{
    let mut hasher = DefaultHasher::new();
    hasher.write(key);
    assert(hasher@ =~= seq![key@]);
    let h = hasher.finish();
    (h % (slot_count as u64)) as usize
}

// ---------------------------------------------------------------- building

/// `c` is the chain of slot `slot`: exactly the pairs of `es` whose keys hash
/// there, in key order.
pub open spec fn is_chain_of(c: Seq<Entry>, es: Seq<Entry>, slot_count: nat, slot: int) -> bool {
    &&& chain_sorted(c)
    &&& forall|e: Entry| c.contains(e) <==> (es.contains(e) && slot_of(e.0, slot_count) == slot)
}

/// `bs` holds, slot by slot, the chains of `es` in a table of `slot_count` slots.
pub open spec fn chains_of(bs: Seq<Seq<Entry>>, es: Seq<Entry>, slot_count: nat) -> bool {
    &&& bs.len() == slot_count
    &&& forall|i: int| 0 <= i < slot_count ==> #[trigger] is_chain_of(bs[i], es, slot_count, i)
}

proof fn lemma_key_asymmetric(a: Seq<u8>, b: Seq<u8>)
    ensures
        !(key_precedes(a, b) && key_precedes(b, a)),
{
    if key_precedes(a, b) && key_precedes(b, a) {
        lemma_key_transitive(a, b, a);
        lemma_key_irreflexive(a);
    }
}

/// Two chains in key order that hold the same pairs are the same chain.
proof fn lemma_sorted_unique_seq(a: Seq<Entry>, b: Seq<Entry>)
    requires
        chain_sorted(a),
        chain_sorted(b),
        forall|e: Entry| a.contains(e) <==> b.contains(e),
    ensures
        a == b,
    decreases a.len(),
{
    if a.len() == 0 {
        if b.len() > 0 {
            assert(b.contains(b[0]));
        }
        assert(a =~= b);
    } else {
        assert(a.contains(a[0]));
        let j = choose|j: int| 0 <= j < b.len() && b[j] == a[0];
        assert(b.contains(b[0]));
        let i = choose|i: int| 0 <= i < a.len() && a[i] == b[0];
        if j > 0 {
            if i > 0 {
                lemma_key_asymmetric(a[0].0, a[i].0);
            } else {
                lemma_key_irreflexive(a[0].0);
            }
        }
        assert(b[0] == a[0]);
        let ra = a.drop_first();
        let rb = b.drop_first();
        assert forall|e: Entry| ra.contains(e) <==> rb.contains(e) by {
            if ra.contains(e) {
                let p = choose|p: int| 0 <= p < ra.len() && ra[p] == e;
                assert(a[p + 1] == e);
                if e == a[0] {
                    lemma_key_irreflexive(e.0);
                }
                assert(b.contains(e));
                let q = choose|q: int| 0 <= q < b.len() && b[q] == e;
                assert(q != 0);
                assert(rb[q - 1] == e);
            }
            if rb.contains(e) {
                let p = choose|p: int| 0 <= p < rb.len() && rb[p] == e;
                assert(b[p + 1] == e);
                if e == b[0] {
                    lemma_key_irreflexive(e.0);
                }
                assert(a.contains(e));
                let q = choose|q: int| 0 <= q < a.len() && a[q] == e;
                assert(q != 0);
                assert(ra[q - 1] == e);
            }
        }
        assert forall|x: int, y: int| 0 <= x < y < ra.len() implies key_precedes(ra[x].0, ra[y].0) by {
            assert(ra[x] == a[x + 1] && ra[y] == a[y + 1]);
        }
        assert forall|x: int, y: int| 0 <= x < y < rb.len() implies key_precedes(rb[x].0, rb[y].0) by {
            assert(rb[x] == b[x + 1] && rb[y] == b[y + 1]);
        }
        lemma_sorted_unique_seq(ra, rb);
        assert(a =~= seq![a[0]] + ra);
        assert(b =~= seq![b[0]] + rb);
    }
}

/// The chains of a table are determined by its pairs and the slot count.
pub proof fn lemma_chains_unique(bs1: Seq<Seq<Entry>>, bs2: Seq<Seq<Entry>>, es: Seq<Entry>, slot_count: nat)
    requires
        chains_of(bs1, es, slot_count),
        chains_of(bs2, es, slot_count),
    ensures
        bs1 == bs2,
{
    assert forall|i: int| 0 <= i < bs1.len() implies bs1[i] == bs2[i] by {
        assert(is_chain_of(bs1[i], es, slot_count, i));
        assert(is_chain_of(bs2[i], es, slot_count, i));
        lemma_sorted_unique_seq(bs1[i], bs2[i]);
    }
    assert(bs1 =~= bs2);
}

/// Why an index could not be built.
#[derive(Clone, Copy, Debug, PartialEq, Eq)]
pub enum IndexError {
    /// The chain region would not fit the `u32` offsets of the slot table.
    TooLarge,
}

/// Why a lookup in packed bytes failed.
#[derive(Clone, Copy, Debug, PartialEq, Eq)]
pub enum LayoutError {
    /// An offset or a length points past the end of the chain region.
    Malformed,
}

const OFFSET_LIMIT: usize = 0xffff_ffff;

proof fn lemma_pairs_push(c: Seq<Entry>, e: Entry)
    ensures
        pairs_bytes(c.push(e)) == pairs_bytes(c) + pair_bytes(e),
    decreases c.len(),
{
    if c.len() == 0 {
        assert(c.push(e).drop_first() =~= Seq::<Entry>::empty());
        assert(c.push(e)[0] == e);
        assert(c =~= Seq::<Entry>::empty());
        assert(pairs_bytes(c.push(e).drop_first()) == Seq::<u8>::empty());
        assert(pairs_bytes(c) == Seq::<u8>::empty());
        assert(pairs_bytes(c.push(e)) =~= pairs_bytes(c) + pair_bytes(e));
    } else {
        lemma_pairs_push(c.drop_first(), e);
        assert(c.push(e).drop_first() =~= c.drop_first().push(e));
        assert(pairs_bytes(c.push(e)) =~= pairs_bytes(c) + pair_bytes(e));
    }
}

proof fn lemma_pairs_take(c: Seq<Entry>, q: int)
    requires
        0 <= q < c.len(),
    ensures
        pairs_bytes(c.take(q + 1)) == pairs_bytes(c.take(q)) + pair_bytes(c[q]),
{
    assert(c.take(q + 1) =~= c.take(q).push(c[q]));
    lemma_pairs_push(c.take(q), c[q]);
}

proof fn lemma_pairs_grow(c: Seq<Entry>, q: int)
    requires
        0 <= q <= c.len(),
    ensures
        pairs_bytes(c.take(q)).len() <= pairs_bytes(c).len(),
        8 * (c.len() - q) + pairs_bytes(c.take(q)).len() <= pairs_bytes(c).len(),
    decreases c.len() - q,
{
    if q == c.len() {
        assert(c.take(q) =~= c);
    } else {
        lemma_pairs_take(c, q);
        lemma_pairs_grow(c, q + 1);
    }
}

proof fn lemma_region_take(bs: Seq<Seq<Entry>>, i: int)
    requires
        0 <= i < bs.len(),
    ensures
        region_bytes(bs.take(i + 1)) == region_bytes(bs.take(i)) + (if bs[i].len() == 0 {
            Seq::<u8>::empty()
        } else {
            chain_bytes(bs[i])
        }),
{
    assert(bs.take(i + 1).drop_last() =~= bs.take(i));
}

proof fn lemma_region_grow(bs: Seq<Seq<Entry>>, i: int)
    requires
        0 <= i <= bs.len(),
    ensures
        region_bytes(bs.take(i)).len() <= region_bytes(bs).len(),
    decreases bs.len() - i,
{
    if i == bs.len() {
        assert(bs.take(i) =~= bs);
    } else {
        lemma_region_take(bs, i);
        lemma_region_grow(bs, i + 1);
    }
}

/// A region that grows past the offset limit while chain `i` is written
/// is too large as a whole.
proof fn lemma_overflow_whole(bs: Seq<Seq<Entry>>, i: int, q: int, extra: int)
    requires
        0 <= i < bs.len(),
        bs[i].len() > 0,
        0 <= q < bs[i].len(),
        0 <= extra <= pair_bytes(bs[i][q]).len(),
    ensures
        region_bytes(bs.take(i)).len() + 4 + pairs_bytes(bs[i].take(q)).len() + extra <= region_bytes(bs).len(),
{
    lemma_region_take(bs, i);
    lemma_region_grow(bs, i + 1);
    lemma_pairs_take(bs[i], q);
    lemma_pairs_grow(bs[i], q + 1);
}

proof fn lemma_count_overflow(bs: Seq<Seq<Entry>>, i: int)
    requires
        0 <= i < bs.len(),
        bs[i].len() > 0,
    ensures
        region_bytes(bs.take(i)).len() + 4 + 8 * bs[i].len() <= region_bytes(bs).len(),
{
    lemma_region_take(bs, i);
    lemma_region_grow(bs, i + 1);
    lemma_pairs_grow(bs[i], 0);
    assert(bs[i].take(0) =~= Seq::<Entry>::empty());
}

/// The indexes in `b` name pairs of `es` in strictly ascending key order.
spec fn sorted_indexes(b: Seq<usize>, es: Seq<Entry>) -> bool {
    forall|p: int, q: int| 0 <= p < q < b.len() ==> key_precedes(es[b[p] as int].0, es[b[q] as int].0)
}

/// A packed hash index: the slot table and the chain region, together with
/// the chains they encode.
pub struct PackedHashIndex {
    slots: Vec<u32>,
    region: Vec<u8>,
    chains: Ghost<Seq<Seq<Entry>>>,
}

impl PackedHashIndex {
    /// The chains, one per slot.
    pub closed spec fn chains(&self) -> Seq<Seq<Entry>> {
        self.chains@
    }

    /// The slot table.
    pub closed spec fn slot_view(&self) -> Seq<u32> {
        self.slots@
    }

    /// The chain region, bumper byte first.
    pub closed spec fn region_view(&self) -> Seq<u8> {
        self.region@
    }

    /// The two parts encode the chains, and every offset fits a `u32`.
    pub open spec fn wf(&self) -> bool {
        &&& self.chains().len() > 0
        &&& self.slot_view() == slot_table(self.chains())
        &&& self.region_view() == region_bytes(self.chains())
        &&& self.region_view().len() <= u32::MAX
    }

    /// Builds the index of `table` with `slot_count` slots. It fails when the
    /// chain region would outgrow the `u32` offsets.
    pub fn build(table: &HostTable, slot_count: usize) -> (r: Result<PackedHashIndex, IndexError>)
        requires
            table.wf(),
            slot_count > 0,
        ensures
            match r {
                Ok(idx) => idx.wf() && chains_of(idx.chains(), table.entries(), slot_count as nat),
                Err(e) => e == IndexError::TooLarge && forall|bs: Seq<Seq<Entry>>|
                    #[trigger] chains_of(bs, table.entries(), slot_count as nat) ==> region_bytes(bs).len() > u32::MAX,
            },
    {
        let ghost es = table.entries();
        let ghost n = slot_count as nat;
        let m = table.len();
        let mut buckets: Vec<Vec<usize>> = Vec::new();
        let mut s: usize = 0;
        while s < slot_count
            invariant
                s <= slot_count,
                buckets@.len() == s,
                forall|i: int| 0 <= i < s ==> (#[trigger] buckets@[i])@.len() == 0,
            decreases slot_count - s,
        {
            buckets.push(Vec::new());
            s = s + 1;
        }
        let mut j: usize = 0;
        while j < m
            invariant
                table.wf(),
                es == table.entries(),
                m == es.len(),
                n == slot_count as nat,
                j <= m,
                buckets@.len() == slot_count,
                slot_count > 0,
                forall|i: int, p: int| 0 <= i < slot_count && 0 <= p < buckets@[i]@.len() ==>
                    (#[trigger] buckets@[i]@[p]) < j && slot_of(es[buckets@[i]@[p] as int].0, n) == i,
                forall|x: int| 0 <= x < j ==> (#[trigger] buckets@[slot_of(es[x].0, n)]@).contains(x as usize),
                forall|i: int| 0 <= i < slot_count ==> sorted_indexes(#[trigger] buckets@[i]@, es),
            decreases m - j,
        {
            let key = table.entry(j).0;
            let s = slot_for(key, slot_count);
            let mut p: usize = 0;
            while p < buckets[s].len()
                invariant
                    table.wf(),
                    es == table.entries(),
                    key@ == es[j as int].0,
                    m == es.len(),
                    j < m,
                    s < slot_count,
                    buckets@.len() == slot_count,
                    p <= buckets@[s as int]@.len(),
                    forall|q: int| 0 <= q < buckets@[s as int]@.len() ==> (#[trigger] buckets@[s as int]@[q]) < j,
                    forall|q: int| 0 <= q < p ==> key_precedes(es[(#[trigger] buckets@[s as int]@[q]) as int].0, key@),
                ensures
                    p <= buckets@[s as int]@.len(),
                    forall|q: int| 0 <= q < p ==> key_precedes(es[(#[trigger] buckets@[s as int]@[q]) as int].0, key@),
                    p < buckets@[s as int]@.len() ==> key_precedes(key@, es[buckets@[s as int]@[p as int] as int].0),
                decreases buckets@[s as int]@.len() - p,
            {
                let other = buckets[s][p];
                if key_less(key, table.entry(other).0) {
                    break;
                }
                proof {
                    assert(es[other as int].0 != es[j as int].0);
                    lemma_key_total(key@, es[other as int].0);
                }
                p = p + 1;
            }
            let ghost old_b = buckets@[s as int]@;
            proof {
                if p < old_b.len() {
                    assert forall|q: int| p <= q < old_b.len() implies key_precedes(key@, es[old_b[q] as int].0) by {
                        if q > p {
                            lemma_key_transitive(key@, es[old_b[p as int] as int].0, es[old_b[q] as int].0);
                        }
                    }
                }
            }
            let ghost old_buckets = buckets@;
            buckets[s].insert(p, j);
            proof {
                let nb = buckets@[s as int]@;
                assert(nb == old_b.insert(p as int, j));
                assert forall|q: int| 0 <= q < nb.len() implies #[trigger] nb[q] == (if q < p { old_b[q] } else if q == p { j } else { old_b[q - 1] }) by {}
                assert(sorted_indexes(nb, es)) by {
                    assert forall|a: int, b: int| 0 <= a < b < nb.len() implies key_precedes(es[nb[a] as int].0, es[nb[b] as int].0) by {
                        if a < p && b == p {
                        } else if a == p {
                        } else if a < p && b > p {
                            lemma_key_transitive(es[old_b[a] as int].0, key@, es[old_b[b - 1] as int].0);
                        }
                    }
                }
                assert forall|i: int| 0 <= i < slot_count && i != s implies buckets@[i] == old_buckets[i] by {}
                assert forall|i: int, q: int| 0 <= i < slot_count && 0 <= q < buckets@[i]@.len() implies
                    (#[trigger] buckets@[i]@[q]) < j + 1 && slot_of(es[buckets@[i]@[q] as int].0, n) == i by {
                    if i == s {
                        assert(buckets@[i]@ == nb);
                        if q < p {
                            assert(old_buckets[i]@[q] == nb[q]);
                        } else if q > p {
                            assert(old_buckets[i]@[q - 1] == nb[q]);
                        } else {
                            assert(nb[q] == j);
                            assert(slot_of(es[j as int].0, n) == s);
                        }
                    } else {
                        assert(old_buckets[i]@[q] == buckets@[i]@[q]);
                    }
                }
                assert forall|x: int| 0 <= x < j + 1 implies (#[trigger] buckets@[slot_of(es[x].0, n)]@).contains(x as usize) by {
                    if x < j {
                        let i = slot_of(es[x].0, n);
                        assert(old_buckets[i]@.contains(x as usize));
                        if i == s {
                            let q = choose|q: int| 0 <= q < old_b.len() && old_b[q] == x as usize;
                            if q < p {
                                assert(nb[q] == x as usize);
                            } else {
                                assert(nb[q + 1] == x as usize);
                            }
                        }
                    } else {
                        assert(nb[p as int] == j);
                    }
                }
            }
            j = j + 1;
        }
        let ghost bs = Seq::new(slot_count as nat, |i: int| buckets@[i]@.map_values(|x: usize| es[x as int]));
        proof {
            assert forall|i: int| 0 <= i < slot_count implies #[trigger] is_chain_of(bs[i], es, n, i) by {
                let c = bs[i];
                assert forall|e: Entry| c.contains(e) <==> (es.contains(e) && slot_of(e.0, n) == i) by {
                    if c.contains(e) {
                        let q = choose|q: int| 0 <= q < c.len() && c[q] == e;
                        assert(c[q] == es[buckets@[i]@[q] as int]);
                    }
                    if es.contains(e) && slot_of(e.0, n) == i {
                        let x = choose|x: int| 0 <= x < es.len() && es[x] == e;
                        let q = choose|q: int| 0 <= q < buckets@[i]@.len() && buckets@[i]@[q] == x as usize;
                        assert(c[q] == e);
                    }
                }
            }
        }
        let mut region: Vec<u8> = Vec::new();
        region.push(0u8);
        let mut slots: Vec<u32> = Vec::new();
        proof {
            assert(bs.take(0) =~= Seq::<Seq<Entry>>::empty());
            assert(region@ =~= region_bytes(bs.take(0)));
        }
        let mut i: usize = 0;
        while i < slot_count
            invariant
                table.wf(),
                es == table.entries(),
                chains_of(bs, es, n),
                n == slot_count,
                i <= slot_count,
                buckets@.len() == slot_count,
                forall|k: int| 0 <= k < slot_count ==> (#[trigger] bs[k]) == buckets@[k]@.map_values(|x: usize| es[x as int]),
                forall|k: int, p: int| 0 <= k < slot_count && 0 <= p < buckets@[k]@.len() ==>
                    (#[trigger] buckets@[k]@[p]) < es.len(),
                region@ == region_bytes(bs.take(i as int)),
                region@.len() <= u32::MAX,
                slots@ == slot_table(bs).take(i as int),
            decreases slot_count - i,
        {
            let b = &buckets[i];
            let ghost c = bs[i as int];
            proof {
                lemma_region_take(bs, i as int);
                assert(slot_table(bs).take(i + 1) =~= slot_table(bs).take(i as int).push(slot_table(bs)[i as int]));
            }
            if b.len() == 0 {
                slots.push(0u32);
            } else {
                slots.push(region.len() as u32);
                if region.len() > OFFSET_LIMIT - 4 || b.len() > (OFFSET_LIMIT - 4 - region.len()) / 8 {
                    proof {
                        lemma_count_overflow(bs, i as int);
                        let x = OFFSET_LIMIT - 4 - region@.len();
                        if region@.len() <= OFFSET_LIMIT - 4 {
                            assert(8 * b@.len() > x) by (nonlinear_arith)
                                requires b@.len() > x / 8, x >= 0;
                        }
                        assert(chains_of(bs, es, n) && region_bytes(bs).len() > u32::MAX);
                        assert forall|other: Seq<Seq<Entry>>| #[trigger] chains_of(other, es, n) implies region_bytes(other).len() > u32::MAX by {
                            lemma_chains_unique(other, bs, es, n);
                        }
                    }
                    return Err(IndexError::TooLarge);
                }
                push_u32(&mut region, b.len() as u32);
                let ghost start = region_bytes(bs.take(i as int));
                proof {
                    assert(c.take(0) =~= Seq::<Entry>::empty());
                    assert(region@ =~= start + u32_bytes(c.len() as u32) + pairs_bytes(c.take(0)));
                }
                let mut q: usize = 0;
                while q < b.len()
                    invariant
                        table.wf(),
                        es == table.entries(),
                        chains_of(bs, es, n),
                        n == slot_count,
                        i < slot_count,
                        c == bs[i as int],
                        c == b@.map_values(|x: usize| es[x as int]),
                        c.len() > 0,
                        forall|p: int| 0 <= p < b@.len() ==> (#[trigger] b@[p]) < es.len(),
                        start == region_bytes(bs.take(i as int)),
                        q <= b@.len(),
                        region@ == start + u32_bytes(c.len() as u32) + pairs_bytes(c.take(q as int)),
                        region@.len() <= u32::MAX,
                    decreases b@.len() - q,
                {
                    let (k, v) = table.entry(b[q]);
                    proof {
                        assert(c[q as int] == es[b@[q as int] as int]);
                        lemma_pairs_take(c, q as int);
                    }
                    if k.len() > OFFSET_LIMIT - region.len() || 8 > OFFSET_LIMIT - region.len() - k.len()
                        || v.len() > OFFSET_LIMIT - region.len() - k.len() - 8 {
                        proof {
                            let extra = if k@.len() > OFFSET_LIMIT - region@.len() {
                                k@.len() as int
                            } else if 8 > OFFSET_LIMIT - region@.len() - k@.len() {
                                k@.len() + 8 as int
                            } else {
                                k@.len() + v@.len() + 8 as int
                            };
                            lemma_overflow_whole(bs, i as int, q as int, extra);
                            assert(chains_of(bs, es, n) && region_bytes(bs).len() > u32::MAX);
                            assert forall|other: Seq<Seq<Entry>>| #[trigger] chains_of(other, es, n) implies region_bytes(other).len() > u32::MAX by {
                                lemma_chains_unique(other, bs, es, n);
                            }
                        }
                        return Err(IndexError::TooLarge);
                    }
                    push_u32(&mut region, k.len() as u32);
                    append_bytes(&mut region, k);
                    push_u32(&mut region, v.len() as u32);
                    append_bytes(&mut region, v);
                    proof {
                        assert(region@ =~= start + u32_bytes(c.len() as u32) + pairs_bytes(c.take(q + 1)));
                    }
                    q = q + 1;
                }
                proof {
                    assert(c.take(q as int) =~= c);
                }
            }
            proof {
                assert(region@ =~= region_bytes(bs.take(i + 1)));
            }
            i = i + 1;
        }
        proof {
            assert(bs.take(slot_count as int) =~= bs);
            assert(slot_table(bs).take(slot_count as int) =~= slot_table(bs));
        }
        Ok(PackedHashIndex { slots, region, chains: Ghost(bs) })
    }
}

// ---------------------------------------------------------------- lookup

/// The value of a key as a byte sequence.
pub open spec fn opt_bytes(o: Option<Vec<u8>>) -> Option<Seq<u8>> {
    match o {
        Some(v) => Some(v@),
        None => None,
    }
}

/// Reads `remaining` pairs of a chain from `off`, stopping at the first whose
/// key is `key`: `Some(Some(value))` on a match, `Some(None)` when the pairs
/// run out, `None` when a length or an offset points past the end of `d`.
pub open spec fn scan_chain(d: Seq<u8>, off: int, remaining: nat, key: Seq<u8>) -> Option<Option<Seq<u8>>>
    decreases remaining,
{
    if remaining == 0 {
        Some(None)
    } else if off < 0 || off + 4 > d.len() {
        None
    } else {
        let kstart = off + 4;
        let voff = kstart + u32_at(d, off) as int;
        if voff + 4 > d.len() {
            None
        } else {
            let vstart = voff + 4;
            let vend = vstart + u32_at(d, voff) as int;
            if vend > d.len() {
                None
            } else if d.subrange(kstart, voff) == key {
                Some(Some(d.subrange(vstart, vend)))
            } else {
                scan_chain(d, vend, (remaining - 1) as nat, key)
            }
        }
    }
}

/// Looks `key` up in a slot table and chain region: an empty slot has no
/// value; otherwise the chain at the slot's offset is scanned.
pub open spec fn lookup_spec(slots: Seq<u32>, region: Seq<u8>, key: Seq<u8>) -> Option<Option<Seq<u8>>> {
    let off = slots[slot_of(key, slots.len())] as int;
    if off == 0 {
        Some(None)
    } else if off + 4 > region.len() {
        None
    } else {
        scan_chain(region, off + 4, u32_at(region, off) as nat, key)
    }
}

/// Looks `key` up directly in packed bytes: `slots` is the slot table and
/// `region` the chain region that follows it. A layout that points past the
/// end of `region` is reported, never read.
pub fn lookup_direct(slots: &[u32], region: &[u8], key: &[u8]) -> (r: Result<Option<Vec<u8>>, LayoutError>)
    requires
        slots@.len() > 0,
    ensures
        match lookup_spec(slots@, region@, key@) {
            Some(o) => r is Ok && opt_bytes(r->Ok_0) == o,
            None => r == Err::<Option<Vec<u8>>, LayoutError>(LayoutError::Malformed),
        },
{
    let region_len = region.len();
    let slot = slot_for(key, slots.len());
    let start = slots[slot] as usize;
    if start == 0 {
        return Ok(None);
    }
    let count = match read_u32(region, start) {
        Some(c) => c,
        None => return Err(LayoutError::Malformed),
    };
    let mut off: usize = start + 4;
    let mut i: u32 = 0;
    while i < count
        invariant
            i <= count,
            region_len == region@.len(),
            off <= region@.len(),
            lookup_spec(slots@, region@, key@) == scan_chain(region@, off as int, (count - i) as nat, key@),
        decreases count - i,
    {
        let klen = match read_u32(region, off) {
            Some(k) => k as usize,
            None => return Err(LayoutError::Malformed),
        };
        let kstart = off + 4;
        if klen > region.len() - kstart || region.len() - kstart - klen < 4 {
            return Err(LayoutError::Malformed);
        }
        let voff = kstart + klen;
        let vlen = match read_u32(region, voff) {
            Some(v) => v as usize,
            None => return Err(LayoutError::Malformed),
        };
        let vstart = voff + 4;
        if vlen > region.len() - vstart {
            return Err(LayoutError::Malformed);
        }
        let vend = vstart + vlen;
        if same_bytes(&region[kstart..voff], key) {
            return Ok(Some(copy_bytes(&region[vstart..vend])));
        }
        off = vend;
        i = i + 1;
    }
    Ok(None)
}

impl PackedHashIndex {
    /// The slot table.
    pub fn slots(&self) -> (r: &[u32])
        ensures
            r@ == self.slot_view(),
    {
        self.slots.as_slice()
    }

    /// The chain region, bumper byte first.
    pub fn region(&self) -> (r: &[u8])
        ensures
            r@ == self.region_view(),
    {
        self.region.as_slice()
    }

    /// The whole index as it is shared: the slot table as little-endian
    /// `u32`s, then the chain region.
    pub fn to_bytes(&self) -> (r: Vec<u8>)
        ensures
            r@ == slot_table_bytes(self.slot_view()) + self.region_view(),
    {
        let mut out: Vec<u8> = Vec::new();
        let mut i: usize = 0;
        while i < self.slots.len()
            invariant
                i <= self.slots@.len(),
                out@ == slot_table_bytes(self.slots@.take(i as int)),
            decreases self.slots@.len() - i,
        {
            proof {
                assert(self.slots@.take(i + 1).drop_last() =~= self.slots@.take(i as int));
            }
            push_u32(&mut out, self.slots[i]);
            i = i + 1;
        }
        proof {
            assert(self.slots@.take(i as int) =~= self.slots@);
        }
        append_bytes(&mut out, self.region.as_slice());
        out
    }

    /// Looks `key` up in this index.
    pub fn lookup(&self, key: &[u8]) -> (r: Result<Option<Vec<u8>>, LayoutError>)
        requires
            self.wf(),
        ensures
            match lookup_spec(self.slot_view(), self.region_view(), key@) {
                Some(o) => r is Ok && opt_bytes(r->Ok_0) == o,
                None => r == Err::<Option<Vec<u8>>, LayoutError>(LayoutError::Malformed),
            },
    {
        lookup_direct(self.slots.as_slice(), self.region.as_slice(), key)
    }
}

// ------------------------------------------------------------- round trip

proof fn lemma_embedded(d: Seq<u8>, off: int, p: Seq<u8>, a: int, x: Seq<u8>)
    requires
        0 <= off,
        off + p.len() <= d.len(),
        d.subrange(off, off + p.len()) == p,
        0 <= a,
        a + x.len() <= p.len(),
        p.subrange(a, a + x.len()) == x,
    ensures
        d.subrange(off + a, off + a + x.len()) == x,
{
    assert forall|t: int| 0 <= t < x.len() implies d.subrange(off + a, off + a + x.len())[t] == x[t] by {
        assert(d.subrange(off, off + p.len())[a + t] == d[off + a + t]);
        assert(p.subrange(a, a + x.len())[t] == p[a + t]);
    }
    assert(d.subrange(off + a, off + a + x.len()) =~= x);
}

proof fn lemma_scan_pairs(d: Seq<u8>, off: int, c: Seq<Entry>, key: Seq<u8>)
    requires
        0 <= off,
        off + pairs_bytes(c).len() <= d.len(),
        d.len() <= u32::MAX,
        d.subrange(off, off + pairs_bytes(c).len()) == pairs_bytes(c),
    ensures
        scan_chain(d, off, c.len(), key) == Some(find(c, key)),
    decreases c.len(),
{
    if c.len() > 0 {
        let k = c[0].0;
        let v = c[0].1;
        let rest = pairs_bytes(c.drop_first());
        let p = pairs_bytes(c);
        let kl = k.len() as int;
        let vl = v.len() as int;
        assert(p == u32_bytes(k.len() as u32) + k + (u32_bytes(v.len() as u32) + v) + rest);
        assert(p.len() == 8 + kl + vl + rest.len());
        assert(p.subrange(0, 4) =~= u32_bytes(k.len() as u32));
        assert(p.subrange(4, 4 + kl) =~= k);
        assert(p.subrange(4 + kl, 8 + kl) =~= u32_bytes(v.len() as u32));
        assert(p.subrange(8 + kl, 8 + kl + vl) =~= v);
        assert(p.subrange(8 + kl + vl, 8 + kl + vl + rest.len()) =~= rest);
        lemma_embedded(d, off, p, 0, u32_bytes(k.len() as u32));
        lemma_embedded(d, off, p, 4, k);
        lemma_embedded(d, off, p, 4 + kl, u32_bytes(v.len() as u32));
        lemma_embedded(d, off, p, 8 + kl, v);
        lemma_embedded(d, off, p, 8 + kl + vl, rest);
        lemma_u32_at(d, off, k.len() as u32);
        lemma_u32_at(d, off + 4 + kl, v.len() as u32);
        if k != key {
            lemma_scan_pairs(d, off + 8 + kl + vl, c.drop_first(), key);
        }
    }
}

proof fn lemma_region_starts_with_bumper(bs: Seq<Seq<Entry>>)
    ensures
        region_bytes(bs).len() >= 1,
    decreases bs.len(),
{
    if bs.len() > 0 {
        lemma_region_starts_with_bumper(bs.drop_last());
    }
}

proof fn lemma_region_prefix(bs: Seq<Seq<Entry>>, i: int)
    requires
        0 <= i <= bs.len(),
    ensures
        region_bytes(bs.take(i)).len() <= region_bytes(bs).len(),
        region_bytes(bs).subrange(0, region_bytes(bs.take(i)).len() as int) == region_bytes(bs.take(i)),
    decreases bs.len() - i,
{
    if i == bs.len() {
        assert(bs.take(i) =~= bs);
        assert(region_bytes(bs).subrange(0, region_bytes(bs).len() as int) =~= region_bytes(bs));
    } else {
        lemma_region_take(bs, i);
        lemma_region_prefix(bs, i + 1);
        let a = region_bytes(bs.take(i));
        let b = region_bytes(bs.take(i + 1));
        assert(b.subrange(0, a.len() as int) =~= a);
        assert(region_bytes(bs).subrange(0, a.len() as int) =~= a) by {
            assert forall|t: int| 0 <= t < a.len() implies region_bytes(bs).subrange(0, a.len() as int)[t] == a[t] by {
                assert(region_bytes(bs).subrange(0, b.len() as int)[t] == b[t]);
            }
        }
    }
}

/// Where chain `i` stands in the region.
proof fn lemma_chain_in_region(bs: Seq<Seq<Entry>>, i: int)
    requires
        0 <= i < bs.len(),
        bs[i].len() > 0,
    ensures
        ({
            let o = region_bytes(bs.take(i)).len() as int;
            let ch = chain_bytes(bs[i]);
            &&& o >= 1
            &&& o + ch.len() <= region_bytes(bs).len()
            &&& region_bytes(bs).subrange(o, o + ch.len()) == ch
        }),
{
    let o = region_bytes(bs.take(i)).len() as int;
    let ch = chain_bytes(bs[i]);
    lemma_region_starts_with_bumper(bs.take(i));
    lemma_region_take(bs, i);
    lemma_region_prefix(bs, i + 1);
    let b = region_bytes(bs.take(i + 1));
    assert(b.subrange(o, o + ch.len()) =~= ch);
    assert(region_bytes(bs).subrange(0, b.len() as int) == b);
    lemma_embedded(region_bytes(bs), 0, b, o, ch);
}

proof fn lemma_sorted_unique(c: Seq<Entry>)
    requires
        chain_sorted(c),
    ensures
        unique_keys(c),
{
    assert forall|i: int, j: int| 0 <= i < j < c.len() implies c[i].0 != c[j].0 by {
        if c[i].0 == c[j].0 {
            lemma_key_irreflexive(c[i].0);
        }
    }
}

/// Looking a key up in an index built from `es` gives the value that `es`
/// holds for it, and no value for a key that `es` does not hold.
pub proof fn lemma_lookup_finds(idx: PackedHashIndex, es: Seq<Entry>, key: Seq<u8>)
    requires
        idx.wf(),
        chains_of(idx.chains(), es, idx.chains().len()),
        unique_keys(es),
    ensures
        lookup_spec(idx.slot_view(), idx.region_view(), key) == Some(find(es, key)),
{
    let bs = idx.chains();
    let n = bs.len();
    let s = slot_of(key, n);
    let c = bs[s];
    let d = idx.region_view();
    assert(is_chain_of(c, es, n, s));
    lemma_sorted_unique(c);
    if c.len() > 0 {
        lemma_chain_in_region(bs, s);
        let o = region_bytes(bs.take(s)).len() as int;
        let ch = chain_bytes(c);
        assert(idx.slot_view()[s] == o as u32);
        assert(ch.subrange(0, 4) =~= u32_bytes(c.len() as u32));
        assert(ch.subrange(4, ch.len() as int) =~= pairs_bytes(c));
        lemma_embedded(d, o, ch, 0, u32_bytes(c.len() as u32));
        lemma_embedded(d, o, ch, 4, pairs_bytes(c));
        lemma_pairs_grow(c, 0);
        lemma_u32_at(d, o, c.len() as u32);
        lemma_scan_pairs(d, o + 4, c, key);
    }
    match find(es, key) {
        Some(v) => {
            crate::table::lemma_find_some(es, key);
            let i = choose|i: int| 0 <= i < es.len() && es[i] == (key, v);
            assert(es.contains((key, v)));
            assert(c.contains((key, v)));
            let q = choose|q: int| 0 <= q < c.len() && c[q] == (key, v);
            lemma_find_present(c, q);
        },
        None => {
            assert forall|q: int| 0 <= q < c.len() implies c[q].0 != key by {
                assert(c.contains(c[q]));
                assert(es.contains(c[q]));
                let i = choose|i: int| 0 <= i < es.len() && es[i] == c[q];
                if c[q].0 == key {
                    lemma_find_present(es, i);
                }
            }
            lemma_find_absent(c, key);
        },
    }
}

// ---------------------------------------------------------- packed strings

/// Byte strings one after another, each preceded by its length.
pub open spec fn packed_strings(keys: Seq<Seq<u8>>) -> Seq<u8>
    decreases keys.len(),
{
    if keys.len() == 0 {
        Seq::empty()
    } else {
        packed_strings(keys.drop_last()) + length_prefixed(keys.last())
    }
}

/// Packs `keys` as length-prefixed strings, the form in which a guest
/// receives its list of keys. `None` when a key is too long for its prefix.
pub fn pack_strings(keys: &Vec<Vec<u8>>) -> (r: Option<Vec<u8>>)
    ensures
        match r {
            Some(b) => b@ == packed_strings(keys@.map_values(|k: Vec<u8>| k@)),
            None => exists|i: int| 0 <= i < keys@.len() && (#[trigger] keys@[i])@.len() > u32::MAX,
        },
{
    let ghost ks = keys@.map_values(|k: Vec<u8>| k@);
    let mut out: Vec<u8> = Vec::new();
    let mut i: usize = 0;
    while i < keys.len()
        invariant
            i <= keys@.len(),
            ks == keys@.map_values(|k: Vec<u8>| k@),
            out@ == packed_strings(ks.take(i as int)),
        decreases keys@.len() - i,
    {
        let k = keys[i].as_slice();
        if k.len() > OFFSET_LIMIT {
            assert(keys@[i as int]@.len() > u32::MAX);
            return None;
        }
        proof {
            assert(ks.take(i + 1).drop_last() =~= ks.take(i as int));
            assert(ks.take(i + 1).last() == k@);
        }
        push_u32(&mut out, k.len() as u32);
        append_bytes(&mut out, k);
        proof {
            assert(out@ =~= packed_strings(ks.take(i + 1)));
        }
        i = i + 1;
    }
    proof {
        assert(ks.take(i as int) =~= ks);
    }
    Some(out)
}

/// Reads `count` length-prefixed strings from the front of `d`; `None` when
/// they run past its end.
pub open spec fn unpack_from(d: Seq<u8>, off: int, count: nat) -> Option<Seq<Seq<u8>>>
    decreases count,
{
    if count == 0 {
        Some(Seq::empty())
    } else if off < 0 || off + 4 > d.len() || off + 4 + u32_at(d, off) > d.len() {
        None
    } else {
        let end = off + 4 + u32_at(d, off);
        match unpack_from(d, end, (count - 1) as nat) {
            Some(rest) => Some(seq![d.subrange(off + 4, end)] + rest),
            None => None,
        }
    }
}

/// Reads `count` length-prefixed strings from the front of `d`.
pub fn read_packed_strings(d: &[u8], count: u32) -> (r: Result<Vec<Vec<u8>>, LayoutError>)
    ensures
        match unpack_from(d@, 0, count as nat) {
            Some(ks) => r is Ok && r->Ok_0@.map_values(|k: Vec<u8>| k@) == ks,
            None => r == Err::<Vec<Vec<u8>>, LayoutError>(LayoutError::Malformed),
        },
{
    let len = d.len();
    let mut out: Vec<Vec<u8>> = Vec::new();
    let mut off: usize = 0;
    let mut i: u32 = 0;
    while i < count
        invariant
            len == d@.len(),
            i <= count,
            off <= d@.len(),
            unpack_from(d@, 0, count as nat) == match unpack_from(d@, off as int, (count - i) as nat) {
                Some(rest) => Some(out@.map_values(|k: Vec<u8>| k@) + rest),
                None => None::<Seq<Seq<u8>>>,
            },
        decreases count - i,
    {
        let n = match read_u32(d, off) {
            Some(n) => n as usize,
            None => return Err(LayoutError::Malformed),
        };
        if n > len - off - 4 {
            return Err(LayoutError::Malformed);
        }
        let end = off + 4 + n;
        let key = copy_bytes(&d[off + 4..end]);
        let ghost before = out@.map_values(|k: Vec<u8>| k@);
        out.push(key);
        proof {
            assert(out@.map_values(|k: Vec<u8>| k@) =~= before.push(d@.subrange(off + 4, end as int)));
            match unpack_from(d@, end as int, (count - i - 1) as nat) {
                Some(rest) => {
                    assert(before + (seq![d@.subrange(off + 4, end as int)] + rest)
                        =~= before.push(d@.subrange(off + 4, end as int)) + rest);
                },
                None => {},
            }
        }
        off = end;
        i = i + 1;
    }
    proof {
        assert(out@.map_values(|k: Vec<u8>| k@) + Seq::<Seq<u8>>::empty() =~= out@.map_values(|k: Vec<u8>| k@));
    }
    Ok(out)
}

} // verus!
