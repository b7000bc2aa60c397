//! Interval model: aligned blocks with their derived target and query
//! coordinates, query regions, and the per-chromosome interval index with
//! the liftover arithmetic.

use crate::parser::{copy_bytes, lemma_spec_next_progress, record_wf, spec_next, spec_records, ChainRecord, ChainRecords, ParseError, RecordV, Strand};
use vstd::prelude::*;

verus! {

broadcast use vstd::seq_lib::group_seq_lib_default, vstd::seq_lib::group_filter_ensures;

/// One side of an aligned block: a half-open range on a named sequence.
#[derive(Debug, Clone)]
pub struct Block {
    pub name: Vec<u8>,
    pub start: usize,
    pub end: usize,
    pub strand: Strand,
}

/// Mathematical model of a [`Block`].
#[verifier::ext_equal]
pub struct BlockV {
    pub name: Seq<u8>,
    pub start: int,
    pub end: int,
    pub strand: Strand,
}

impl View for Block {
    type V = BlockV;

    open spec fn view(&self) -> BlockV {
        BlockV {
            name: self.name@,
            start: self.start as int,
            end: self.end as int,
            strand: self.strand,
        }
    }
}

/// A derived interval: the target-side half-open range `[start, stop)`,
/// carrying the query-side block it maps to. The query range in `val` is
/// always expressed in the forward orientation of the query sequence, and
/// `val.strand` records the true orientation.
#[derive(Debug, Clone)]
pub struct BlockIvl {
    pub start: usize,
    pub stop: usize,
    pub val: Block,
}

/// Mathematical model of a [`BlockIvl`].
#[verifier::ext_equal]
pub struct BlockIvlV {
    pub start: int,
    pub stop: int,
    pub val: BlockV,
}

impl View for BlockIvl {
    type V = BlockIvlV;

    open spec fn view(&self) -> BlockIvlV {
        BlockIvlV { start: self.start as int, stop: self.stop as int, val: self.val@ }
    }
}

/// Every block a record derives satisfies this: both ranges are ordered and
/// of equal length (colinearity).
pub open spec fn block_ivl_wf(b: BlockIvlV) -> bool {
    &&& 0 <= b.start <= b.stop <= usize::MAX as int
    &&& 0 <= b.val.start <= b.val.end <= usize::MAX as int
    &&& b.stop - b.start == b.val.end - b.val.start
}

/// Pair the target side of a block with its query side: the interval covers
/// the target range and carries the whole query block as its value.
pub fn get_block_ivl(block_target: Block, block_query: Block) -> (r: BlockIvl)
    ensures
        r.start == block_target.start,
        r.stop == block_target.end,
        r.val == block_query,
{
    BlockIvl { start: block_target.start, stop: block_target.end, val: block_query }
}

/// A caller's query range or an emitted match endpoint: a half-open range
/// on a named sequence, with an orientation.
#[derive(Debug, Clone)]
pub struct Region {
    pub chrom: Vec<u8>,
    pub start: usize,
    pub end: usize,
    pub strand: Strand,
}

/// Mathematical model of a [`Region`].
#[verifier::ext_equal]
pub struct RegionV {
    pub chrom: Seq<u8>,
    pub start: int,
    pub end: int,
    pub strand: Strand,
}

impl View for Region {
    type V = RegionV;

    open spec fn view(&self) -> RegionV {
        RegionV {
            chrom: self.chrom@,
            start: self.start as int,
            end: self.end as int,
            strand: self.strand,
        }
    }
}

/// Clip `[start1, end1)` to `[start2, end2)`, the way the liftover engine
/// intersects a query with a block: `None` only when one range lies strictly
/// beyond the other's endpoint.
pub fn intersect_two_region(start1: usize, end1: usize, start2: usize, end2: usize) -> (r: Option<
    (usize, usize),
>)
    ensures
        r == if start1 > end2 || start2 > end1 {
            None::<(usize, usize)>
        } else {
            Some(
                (
                    if start1 >= start2 {
                        start1
                    } else {
                        start2
                    },
                    if end1 <= end2 {
                        end1
                    } else {
                        end2
                    },
                ),
            )
        },
{
    if start1 > end2 || start2 > end1 {
        return None;
    }
    let s = if start1 >= start2 {
        start1
    } else {
        start2
    };
    let e = if end1 <= end2 {
        end1
    } else {
        end2
    };
    Some((s, e))
}

// ---------------------------------------------------------------------------
// The liftover arithmetic and its laws.
// ---------------------------------------------------------------------------

/// Two half-open ranges intersect.
pub open spec fn spec_overlap(s1: int, e1: int, s2: int, e2: int) -> bool {
    s1 < e2 && s2 < e1
}

/// Orientation of a lifted match: the block's query strand, flipped when the
/// caller's region was itself reversed. Strands compose by exclusive-or of
/// "is reverse".
pub open spec fn compose_strand(q: Strand, b: Strand) -> Strand {
    if q == Strand::Positive {
        b
    } else {
        b.spec_reverse()
    }
}

/// What lifting one query region through one overlapping block yields: the
/// source-overlap region (the query clipped to the block's target range) and
/// the mapped region on the query sequence, offset from the block's query
/// range, mirrored from its far end when the block's query strand is
/// reversed.
pub open spec fn lift_pair(b: BlockIvlV, q: RegionV) -> (RegionV, RegionV) {
    let os = if q.start >= b.start {
        q.start
    } else {
        b.start
    };
    let oe = if q.end <= b.stop {
        q.end
    } else {
        b.stop
    };
    let off = os - b.start;
    let span = oe - os;
    let ms = if b.val.strand == Strand::Positive {
        b.val.start + off
    } else {
        b.val.end - off - span
    };
    let me = if b.val.strand == Strand::Positive {
        b.val.start + off + span
    } else {
        b.val.end - off
    };
    (
        (RegionV { chrom: q.chrom, start: os, end: oe, strand: q.strand }),
        (RegionV {
            chrom: b.val.name,
            start: ms,
            end: me,
            strand: compose_strand(q.strand, b.val.strand),
        }),
    )
}

/// A block overlaps the query's range.
pub open spec fn block_overlaps(b: BlockIvlV, q: RegionV) -> bool {
    spec_overlap(b.start, b.stop, q.start, q.end)
}

/// What lifting a query region through a sequence of blocks yields: one pair
/// per overlapping block, in the order the blocks stand in.
pub open spec fn lift_pairs(blocks: Seq<BlockIvlV>, q: RegionV) -> Seq<(RegionV, RegionV)> {
    blocks.filter(|b: BlockIvlV| block_overlaps(b, q)).map_values(|b: BlockIvlV| lift_pair(b, q))
}

/// The views of a vector of region pairs.
pub open spec fn pairs_view(v: Seq<(Region, Region)>) -> Seq<(RegionV, RegionV)> {
    v.map_values(|p: (Region, Region)| (p.0@, p.1@))
}

/// The views of a vector of derived intervals.
pub open spec fn ivls_view(v: Seq<BlockIvl>) -> Seq<BlockIvlV> {
    v.map_values(|b: BlockIvl| b@)
}

/// Strand composition: lifting a forward query through a forward block is
/// forward; forward through reverse is reverse; reverse through reverse is
/// forward; and in general the output strand is the exclusive-or composition
/// of the query's and the block's.
pub proof fn lemma_strand_composition(b: BlockIvlV, q: RegionV)
    ensures
        lift_pair(b, q).1.strand == compose_strand(q.strand, b.val.strand),
        q.strand == Strand::Positive && b.val.strand == Strand::Positive ==> lift_pair(
            b,
            q,
        ).1.strand == Strand::Positive,
        q.strand == Strand::Positive && b.val.strand == Strand::Negative ==> lift_pair(
            b,
            q,
        ).1.strand == Strand::Negative,
        q.strand == Strand::Negative && b.val.strand == Strand::Negative ==> lift_pair(
            b,
            q,
        ).1.strand == Strand::Positive,
        q.strand == Strand::Negative && b.val.strand == Strand::Positive ==> lift_pair(
            b,
            q,
        ).1.strand == Strand::Negative,
{
}

/// The inverse of a block: the same alignment read with target and query
/// roles swapped. The mapped side keeps the block's orientation, and the
/// target side of the inverse lies on the query sequence.
pub open spec fn invert_block(b: BlockIvlV, target_name: Seq<u8>) -> BlockIvlV {
    BlockIvlV {
        start: b.val.start,
        stop: b.val.end,
        val: (BlockV {
            name: target_name,
            start: b.start,
            end: b.stop,
            strand: b.val.strand,
        }),
    }
}

/// Round-trip idempotence: for a query lying within one block, lifting it
/// and then lifting the mapped region back through the inverse block (target
/// and query roles swapped) reconstructs the original overlap region exactly,
/// on the original strand.
pub proof fn lemma_round_trip(b: BlockIvlV, q: RegionV, target_name: Seq<u8>)
    requires
        block_ivl_wf(b),
        b.start <= q.start < q.end <= b.stop,
    ensures
        ({
            let m = lift_pair(b, q).1;
            let back = lift_pair(invert_block(b, target_name), m).1;
            back.start == q.start && back.end == q.end && back.strand == q.strand && back.chrom
                == target_name
        }),
{
    let m = lift_pair(b, q).1;
    assert(b.val.start <= m.start < m.end <= b.val.end);
    let bi = invert_block(b, target_name);
    let back = lift_pair(bi, m).1;
    assert(back.start == q.start && back.end == q.end) by {
        assert(bi.start == b.val.start && bi.stop == b.val.end);
    }
}

proof fn lemma_filter_all<A>(s: Seq<A>, p: spec_fn(A) -> bool)
    requires
        forall|k: int| 0 <= k < s.len() ==> p(#[trigger] s[k]),
    ensures
        s.filter(p) == s,
    decreases s.len(),
{
    reveal(Seq::filter);
    if s.len() > 0 {
        lemma_filter_all(s.drop_last(), p);
        assert(s.drop_last().push(s.last()) =~= s);
    }
}

proof fn lemma_filter_remove<A>(s: Seq<A>, p: spec_fn(A) -> bool, j: int)
    requires
        0 <= j < s.len(),
    ensures
        s.filter(p).len() == s.remove(j).filter(p).len() + (if p(s[j]) {
            1int
        } else {
            0
        }),
    decreases s.len(),
{
    reveal(Seq::filter);
    if j == s.len() - 1 {
        assert(s.remove(j) =~= s.drop_last());
    } else {
        let x = s.last();
        let t = s.drop_last();
        assert(s.remove(j).drop_last() =~= t.remove(j));
        assert(s.remove(j).last() == x);
        assert(s.remove(j) =~= t.remove(j).push(x));
        lemma_filter_remove(t, p, j);
        assert(s.remove(j).drop_last() == t.remove(j));
        assert(t[j] == s[j]);
    }
}

/// Sequences with the same contents keep the same number of elements under
/// any filter, whatever their order.
proof fn lemma_filter_len_perm<A>(s1: Seq<A>, s2: Seq<A>, p: spec_fn(A) -> bool)
    requires
        s1.to_multiset() == s2.to_multiset(),
    ensures
        s1.filter(p).len() == s2.filter(p).len(),
    decreases s1.len(),
{
    broadcast use vstd::seq_lib::group_to_multiset_ensures;

    reveal(Seq::filter);
    if s1.len() == 0 {
        assert(s2.to_multiset().len() == 0);
        assert(s2.len() == 0);
    } else {
        let x = s1.last();
        let t1 = s1.drop_last();
        assert(s1 =~= t1.push(x));
        assert(s1.contains(x));
        assert(s1.to_multiset().count(x) > 0);
        assert(s2.to_multiset().count(x) > 0);
        assert(s2.contains(x));
        let j = choose|j: int| 0 <= j < s2.len() && s2[j] == x;
        let t2 = s2.remove(j);
        assert(t1.push(x).to_multiset() =~= t1.to_multiset().insert(x));
        assert(t2.to_multiset() =~= s2.to_multiset().remove(x));
        assert(t1.to_multiset() =~= t2.to_multiset()) by {
            assert forall|a: A| t1.to_multiset().count(a) == t2.to_multiset().count(a) by {
                assert(s1.to_multiset().count(a) == t1.to_multiset().insert(x).count(a));
            }
        }
        lemma_filter_len_perm(t1, t2, p);
        lemma_filter_remove(s2, p, j);
    }
}

/// Lift one query region through every block of a list that overlaps it:
/// one `(source overlap, mapped region)` pair per overlapping block, in the
/// list's order. This is the whole remap-and-split computation on a given
/// set of candidate blocks.
pub fn lift_with_blocks(blocks: &Vec<BlockIvl>, q: &Region) -> (r: Vec<(Region, Region)>)
    requires
        q.start <= q.end,
        forall|k: int| 0 <= k < blocks@.len() ==> block_ivl_wf(#[trigger] blocks@[k]@),
    ensures
        pairs_view(r@) == lift_pairs(ivls_view(blocks@), q@),
{
    let ghost bv = ivls_view(blocks@);
    let mut r: Vec<(Region, Region)> = Vec::new();
    let mut i: usize = 0;
    proof {
        reveal(Seq::filter);
        assert(bv.take(0) =~= Seq::<BlockIvlV>::empty());
        assert(pairs_view(r@) =~= lift_pairs(bv.take(0), q@));
    }
    while i < blocks.len()
        invariant
            0 <= i <= blocks@.len(),
            bv == ivls_view(blocks@),
            bv.len() == blocks@.len(),
            forall|k: int| 0 <= k < blocks@.len() ==> bv[k] == #[trigger] blocks@[k]@,
            q.start <= q.end,
            forall|k: int| 0 <= k < blocks@.len() ==> block_ivl_wf(#[trigger] blocks@[k]@),
            pairs_view(r@) == lift_pairs(bv.take(i as int), q@),
        decreases blocks@.len() - i,
    {
        let b = &blocks[i];
        let ghost taken = bv.take(i as int);
        let ghost grown = bv.take(i as int + 1);
        proof {
            reveal(Seq::filter);
            assert(grown.drop_last() =~= taken);
            assert(grown.last() == bv[i as int]);
        }
        if b.start < q.end && q.start < b.stop {
            // the clip cannot be empty here: the ranges overlap
            let (os, oe) = match intersect_two_region(q.start, q.end, b.start, b.stop) {
                Some(p) => p,
                None => {
                    proof {
                        assert(false);
                    }
                    (0, 0)
                },
            };
            proof {
                assert(block_ivl_wf(blocks@[i as int]@));
                assert(os <= oe);
            }
            let off = os - b.start;
            let span = oe - os;
            let src = Region { chrom: copy_bytes(&q.chrom), start: os, end: oe, strand: q.strand };
            let (ms, me) = match b.val.strand {
                Strand::Positive => (b.val.start + off, b.val.start + off + span),
                Strand::Negative => (b.val.end - off - span, b.val.end - off),
            };
            let out_strand = match q.strand {
                Strand::Positive => b.val.strand,
                Strand::Negative => b.val.strand.reverse(),
            };
            let dst = Region {
                chrom: copy_bytes(&b.val.name),
                start: ms,
                end: me,
                strand: out_strand,
            };
            let ghost r0 = pairs_view(r@);
            r.push((src, dst));
            proof {
                assert(pairs_view(r@) =~= r0.push((src@, dst@)));
                assert(src@ =~= lift_pair(bv[i as int], q@).0);
                assert(dst@ =~= lift_pair(bv[i as int], q@).1);
                assert(grown.filter(|b0: BlockIvlV| block_overlaps(b0, q@)) == taken.filter(
                    |b0: BlockIvlV| block_overlaps(b0, q@),
                ).push(bv[i as int]));
                assert(lift_pairs(grown, q@) =~= lift_pairs(taken, q@).push(
                    lift_pair(bv[i as int], q@),
                ));
            }
        } else {
            proof {
                assert(!block_overlaps(bv[i as int], q@));
                assert(grown.filter(|b0: BlockIvlV| block_overlaps(b0, q@)) == taken.filter(
                    |b0: BlockIvlV| block_overlaps(b0, q@),
                ));
                assert(lift_pairs(grown, q@) =~= lift_pairs(taken, q@));
            }
        }
        i = i + 1;
    }
    proof {
        assert(bv.take(blocks@.len() as int) =~= bv);
    }
    r
}

// ---------------------------------------------------------------------------
// The per-chromosome index: an outside interval structure over the blocks.
// ---------------------------------------------------------------------------

/// The interval structure of the outside crate, held opaquely: a lapper
/// over `[start, stop)` ranges whose values index the blocks they came from.
/// (The lapper's own type cannot be declared to the verifier, since its
/// generic bounds name traits the verifier has not seen.)
#[verifier::external_body]
pub struct BlockLapper {
    inner: rust_lapper::Lapper<usize, u64>,
}

/// The intervals a lapper holds, in their stored order, each as
/// `(start, stop, value)`.
pub uninterp spec fn lapper_model(l: BlockLapper) -> Seq<(usize, usize, u64)>;

/// An interval's range intersects `[qs, qe)`.
pub open spec fn tri_overlaps(t: (usize, usize, u64), qs: int, qe: int) -> bool {
    (t.0 as int) < qe && (t.1 as int) > qs
}

/// Non-decreasing in `(start, stop)`.
pub open spec fn sorted_by_range(s: Seq<(usize, usize, u64)>) -> bool {
    forall|i: int, j: int|
        0 <= i < j < s.len() ==> (#[trigger] s[i]).0 < (#[trigger] s[j]).0 || (s[i].0 == s[j].0
            && s[i].1 <= s[j].1)
}

/// Relies on rust_lapper::Lapper::new: it stores exactly the given
/// intervals, sorted by (start, stop).
#[verifier::external_body]
fn lapper_new(ivls: &Vec<(usize, usize, u64)>) -> (l: BlockLapper)
    ensures
        lapper_model(l).to_multiset() == ivls@.to_multiset(),
        sorted_by_range(lapper_model(l)),
{
    BlockLapper {
        inner: rust_lapper::Lapper::new(
            ivls.iter().map(|t| rust_lapper::Interval { start: t.0, stop: t.1, val: t.2 }).collect(),
        ),
    }
}

/// Relies on rust_lapper::Lapper::find: it yields, in stored order, exactly
/// the intervals whose half-open range intersects `[start, stop)`.
#[verifier::external_body]
fn lapper_find(l: &BlockLapper, start: usize, stop: usize) -> (r: Vec<(usize, usize, u64)>)
    ensures
        r@ == lapper_model(*l).filter(
            |t: (usize, usize, u64)| tri_overlaps(t, start as int, stop as int),
        ),
{
    l.inner.find(start, stop).map(|iv| (iv.start, iv.stop, iv.val)).collect()
}

/// The `(start, stop, index)` triple of every block, in block order.
pub open spec fn index_triples(blocks: Seq<BlockIvl>) -> Seq<(usize, usize, u64)> {
    Seq::new(blocks.len(), |i: int| (blocks[i].start, blocks[i].stop, i as u64))
}

/// The read-only interval index over all blocks aligned to one target
/// sequence: the blocks themselves, and an interval structure keyed by their
/// target ranges whose values index into `blocks`.
pub struct ChromLapper {
    pub blocks: Vec<BlockIvl>,
    pub lapper: BlockLapper,
}

impl ChromLapper {
    /// The stored intervals of the index structure.
    pub closed spec fn model(self) -> Seq<(usize, usize, u64)> {
        lapper_model(self.lapper)
    }

    /// The index is an exact mirror of the blocks: its intervals are the
    /// blocks' target ranges with their positions, sorted by range, every
    /// stored value is a valid position carrying that block's range, and
    /// every block is colinear.
    pub open spec fn wf(self) -> bool {
        &&& self.model().to_multiset() == index_triples(self.blocks@).to_multiset()
        &&& sorted_by_range(self.model())
        &&& forall|t: (usize, usize, u64)|
            #[trigger] self.model().contains(t) ==> (t.2 as int) < self.blocks@.len()
                && self.blocks@[t.2 as int].start == t.0 && self.blocks@[t.2 as int].stop == t.1
        &&& forall|k: int| 0 <= k < self.blocks@.len() ==> block_ivl_wf(
            #[trigger] self.blocks@[k]@,
        )
    }

    /// Freeze an index over the blocks of one target sequence.
    pub fn new(blocks: Vec<BlockIvl>) -> (c: ChromLapper)
        requires
            forall|k: int| 0 <= k < blocks@.len() ==> block_ivl_wf(#[trigger] blocks@[k]@),
        ensures
            c.wf(),
            c.blocks@ == blocks@,
    {
        let mut triples: Vec<(usize, usize, u64)> = Vec::new();
        let mut i: usize = 0;
        proof {
            assert(triples@ =~= index_triples(blocks@).take(0));
        }
        while i < blocks.len()
            invariant
                0 <= i <= blocks@.len(),
                triples@ == index_triples(blocks@).take(i as int),
            decreases blocks@.len() - i,
        {
            let b = &blocks[i];
            triples.push((b.start, b.stop, i as u64));
            proof {
                assert(triples@ =~= index_triples(blocks@).take(i as int + 1));
            }
            i = i + 1;
        }
        proof {
            assert(triples@ =~= index_triples(blocks@));
        }
        let lapper = lapper_new(&triples);
        let c = ChromLapper { blocks, lapper };
        proof {
            broadcast use vstd::seq_lib::group_to_multiset_ensures;

            let tri = index_triples(c.blocks@);
            assert forall|t: (usize, usize, u64)| c.model().contains(t) implies (t.2 as int)
                < c.blocks@.len() && (c.blocks@[t.2 as int]).start == t.0 && c.blocks@[t.2
                as int].stop == t.1 by {
                assert(c.model().to_multiset().count(t) > 0);
                assert(tri.to_multiset().count(t) > 0);
                assert(tri.contains(t));
                let k = choose|k: int| 0 <= k < tri.len() && tri[k] == t;
                assert(t.2 == k as u64);
                assert(t.2 as int == k);
            }
        }
        c
    }
}

proof fn lemma_filter_subset<A>(s: Seq<A>, p: spec_fn(A) -> bool)
    ensures
        forall|x: A| s.filter(p).contains(x) ==> s.contains(x),
    decreases s.len(),
{
    reveal(Seq::filter);
    if s.len() > 0 {
        lemma_filter_subset(s.drop_last(), p);
        assert forall|x: A| s.filter(p).contains(x) implies s.contains(x) by {
            if s.drop_last().filter(p).contains(x) {
                assert(s.drop_last().contains(x));
                let k = choose|k: int| 0 <= k < s.drop_last().len() && s.drop_last()[k] == x;
                assert(s[k] == x);
            } else {
                assert(x == s.last());
            }
        }
    }
}

proof fn lemma_filter_ext<A>(s: Seq<A>, p1: spec_fn(A) -> bool, p2: spec_fn(A) -> bool)
    requires
        forall|x: A| #[trigger] p1(x) == p2(x),
    ensures
        s.filter(p1) == s.filter(p2),
    decreases s.len(),
{
    reveal(Seq::filter);
    if s.len() > 0 {
        lemma_filter_ext(s.drop_last(), p1, p2);
    }
}

/// Copy one derived interval.
fn copy_ivl(b: &BlockIvl) -> (r: BlockIvl)
    ensures
        r@ == b@,
{
    let r = BlockIvl {
        start: b.start,
        stop: b.stop,
        val: Block {
            name: copy_bytes(&b.val.name),
            start: b.val.start,
            end: b.val.end,
            strand: b.val.strand,
        },
    };
    proof {
        assert(r@ =~= b@);
    }
    r
}

// ---------------------------------------------------------------------------
// The index over all target sequences, and the liftover engine.
// ---------------------------------------------------------------------------

/// The whole liftover index: one frozen per-chromosome index per target
/// sequence name, names unique.
pub struct LapperMap {
    pub entries: Vec<(Vec<u8>, ChromLapper)>,
}

/// Position of the first pair named `name` at or after `i`, if any.
pub open spec fn find_from<T>(entries: Seq<(Vec<u8>, T)>, name: Seq<u8>, i: int) -> Option<int>
    decreases entries.len() - i when 0 <= i <= entries.len()
{
    if i >= entries.len() {
        None
    } else if entries[i].0@ == name {
        Some(i)
    } else {
        find_from(entries, name, i + 1)
    }
}

/// Position of the pair named `name`, if any.
pub open spec fn find_entry<T>(entries: Seq<(Vec<u8>, T)>, name: Seq<u8>) -> Option<int> {
    find_from(entries, name, 0)
}

/// A lookup finds the first pair carrying the name, exactly when one does.
pub proof fn lemma_find_props<T>(entries: Seq<(Vec<u8>, T)>, name: Seq<u8>, i: int)
    requires
        0 <= i <= entries.len(),
    ensures
        match find_from(entries, name, i) {
            Some(k) => i <= k < entries.len() && entries[k].0@ == name && (forall|j: int|
                i <= j < k ==> (#[trigger] entries[j]).0@ != name),
            None => forall|j: int| i <= j < entries.len() ==> (#[trigger] entries[j]).0@ != name,
        },
    decreases entries.len() - i,
{
    if i < entries.len() && entries[i].0@ != name {
        lemma_find_props(entries, name, i + 1);
    }
}

/// Appending a pair leaves every earlier lookup alone; a name found nowhere
/// before is found at the end exactly when the new pair carries it.
proof fn lemma_find_push<T>(entries: Seq<(Vec<u8>, T)>, p: (Vec<u8>, T), name: Seq<u8>, i: int)
    requires
        0 <= i <= entries.len(),
    ensures
        find_from(entries.push(p), name, i) == (match find_from(entries, name, i) {
            Some(k) => Some(k),
            None => if p.0@ == name {
                Some(entries.len() as int)
            } else {
                None::<int>
            },
        }),
    decreases entries.len() - i,
{
    assert(entries.push(p).len() == entries.len() + 1);
    if i < entries.len() {
        assert(entries.push(p)[i] == entries[i]);
        if entries[i].0@ != name {
            lemma_find_push(entries, p, name, i + 1);
        }
    } else {
        assert(entries.push(p)[i] == p);
    }
}

/// Replacing a pair by one with the same name leaves every lookup alone.
proof fn lemma_find_update<T>(
    entries: Seq<(Vec<u8>, T)>,
    u: int,
    p: (Vec<u8>, T),
    name: Seq<u8>,
    i: int,
)
    requires
        0 <= i <= entries.len(),
        0 <= u < entries.len(),
        entries[u].0@ == p.0@,
    ensures
        find_from(entries.update(u, p), name, i) == find_from(entries, name, i),
    decreases entries.len() - i,
{
    if i < entries.len() {
        if entries.update(u, p)[i].0@ != name {
            lemma_find_update(entries, u, p, name, i + 1);
        }
    }
}

impl LapperMap {
    /// Every per-chromosome index is well-formed and no name repeats.
    pub open spec fn wf(self) -> bool {
        &&& forall|k: int| 0 <= k < self.entries@.len() ==> (#[trigger] self.entries@[k].1).wf()
        &&& forall|i: int, j: int|
            0 <= i < j < self.entries@.len() ==> (#[trigger] self.entries@[i]).0@ != (
            #[trigger] self.entries@[j]).0@
    }
}

/// Decide whether two byte strings are equal.
fn bytes_eq(a: &Vec<u8>, b: &Vec<u8>) -> (r: bool)
    ensures
        r == (a@ == b@),
{
    if a.len() != b.len() {
        return false;
    }
    let mut i: usize = 0;
    while i < a.len()
        invariant
            0 <= i <= a@.len(),
            a@.len() == b@.len(),
            forall|k: int| 0 <= k < i ==> a@[k] == b@[k],
        decreases a@.len() - i,
    {
        if a[i] != b[i] {
            return false;
        }
        i = i + 1;
    }
    proof {
        assert(a@ =~= b@);
    }
    true
}

/// Find the position of a named pair.
fn find_pair_idx<T>(entries: &Vec<(Vec<u8>, T)>, name: &Vec<u8>) -> (r: Option<usize>)
    ensures
        match r {
            Some(k) => find_entry(entries@, name@) == Some(k as int) && (k as int)
                < entries@.len() && entries@[k as int].0@ == name@,
            None => find_entry(entries@, name@) == None::<int>,
        },
{
    let mut i: usize = 0;
    while i < entries.len()
        invariant
            0 <= i <= entries@.len(),
            find_from(entries@, name@, 0) == find_from(entries@, name@, i as int),
        decreases entries@.len() - i,
    {
        if bytes_eq(&entries[i].0, name) {
            return Some(i);
        }
        i = i + 1;
    }
    None
}

/// What the engine yields from one per-chromosome index: one pair per
/// stored interval intersecting the query's range, in stored (ascending
/// target start) order, each lifted through its block.
pub open spec fn found_pairs(c: ChromLapper, q: RegionV) -> Seq<(RegionV, RegionV)> {
    c.model().filter(|t: (usize, usize, u64)| tri_overlaps(t, q.start, q.end)).map_values(
        |t: (usize, usize, u64)| lift_pair(c.blocks@[t.2 as int]@, q),
    )
}

/// Lift one query region through the index: the ordered
/// `(source overlap, mapped region)` pairs of every block on the query's
/// chromosome whose target range intersects it. A chromosome absent from
/// the index gives the empty list, never an error.
pub fn find_in_lapper(map: &LapperMap, q_region: &Region) -> (r: Vec<(Region, Region)>)
    requires
        map.wf(),
        q_region.start <= q_region.end,
    ensures
        match find_entry(map.entries@, q_region.chrom@) {
            Some(k) => pairs_view(r@) == found_pairs(map.entries@[k].1, q_region@),
            None => r@ == Seq::<(Region, Region)>::empty(),
        },
{
    let k = match find_pair_idx(&map.entries, &q_region.chrom) {
        Some(k) => k,
        None => {
            let r: Vec<(Region, Region)> = Vec::new();
            proof {
                assert(r@ =~= Seq::<(Region, Region)>::empty());
            }
            return r;
        },
    };
    let c = &map.entries[k].1;
    let found = lapper_find(&c.lapper, q_region.start, q_region.end);
    let ghost fv = found@;
    let ghost qv = q_region@;
    proof {
        lemma_filter_ext(
            c.model(),
            |t: (usize, usize, u64)| tri_overlaps(t, q_region.start as int, q_region.end as int),
            |t: (usize, usize, u64)| tri_overlaps(t, qv.start, qv.end),
        );
        lemma_filter_subset(
            c.model(),
            |t: (usize, usize, u64)| tri_overlaps(t, qv.start, qv.end),
        );
    }
    // materialize the blocks the index found
    let mut sub: Vec<BlockIvl> = Vec::new();
    let mut i: usize = 0;
    proof {
        assert(ivls_view(sub@) =~= fv.take(0).map_values(
            |t: (usize, usize, u64)| c.blocks@[t.2 as int]@,
        ));
    }
    while i < found.len()
        invariant
            0 <= i <= fv.len(),
            fv == found@,
            map.wf(),
            0 <= k < map.entries@.len(),
            *c == map.entries@[k as int].1,
            fv == c.model().filter(|t: (usize, usize, u64)| tri_overlaps(t, qv.start, qv.end)),
            forall|x: (usize, usize, u64)| fv.contains(x) ==> c.model().contains(x),
            ivls_view(sub@) == fv.take(i as int).map_values(
                |t: (usize, usize, u64)| c.blocks@[t.2 as int]@,
            ),
        decreases fv.len() - i,
    {
        let t = found[i];
        proof {
            assert(fv.contains(fv[i as int]));
            assert(c.model().contains(fv[i as int]));
            assert(map.entries@[k as int].1.wf());
            assert((fv[i as int].2 as int) < c.blocks@.len());
        }
        let blen = c.blocks.len();
        proof {
            assert((fv[i as int].2 as int) < (blen as int));
        }
        let idx = t.2 as usize;
        proof {
            assert(idx as int == fv[i as int].2 as int);
        }
        let ghost sub0 = ivls_view(sub@);
        let ivl = copy_ivl(&c.blocks[idx]);
        sub.push(ivl);
        proof {
            assert(ivl@ == c.blocks@[fv[i as int].2 as int]@);
            assert(ivls_view(sub@) =~= sub0.push(ivl@));
            assert(ivls_view(sub@) =~= sub0.push(c.blocks@[fv[i as int].2 as int]@));
            assert(fv.take(i as int + 1).drop_last() =~= fv.take(i as int));
            assert(fv.take(i as int + 1).map_values(
                |t0: (usize, usize, u64)| c.blocks@[t0.2 as int]@,
            ) =~= fv.take(i as int).map_values(
                |t0: (usize, usize, u64)| c.blocks@[t0.2 as int]@,
            ).push(c.blocks@[fv[i as int].2 as int]@));
        }
        i = i + 1;
    }
    proof {
        assert(fv.take(fv.len() as int) =~= fv);
    }
    // every found block overlaps the query; lift through each
    proof {
        assert(map.entries@[k as int].1.wf());
        assert forall|j: int| 0 <= j < sub@.len() implies block_ivl_wf(#[trigger] sub@[j]@) by {
            assert(sub@[j]@ == ivls_view(sub@)[j]);
            assert(fv.contains(fv[j]));
            assert(c.model().contains(fv[j]));
        }
    }
    let r = lift_with_blocks(&sub, q_region);
    proof {
        let bsub = ivls_view(sub@);
        assert(map.entries@[k as int].1.wf());
        assert forall|j: int| 0 <= j < bsub.len() implies block_overlaps(#[trigger] bsub[j], qv) by {
            assert(tri_overlaps(fv[j], qv.start, qv.end));
            assert(fv.contains(fv[j]));
            assert(c.model().contains(fv[j]));
        }
        lemma_filter_all(bsub, |b: BlockIvlV| block_overlaps(b, qv));
        assert(lift_pairs(bsub, qv) == bsub.map_values(|b: BlockIvlV| lift_pair(b, qv)));
        assert(bsub.map_values(|b: BlockIvlV| lift_pair(b, qv)) =~= found_pairs(
            map.entries@[k as int].1,
            qv,
        ));
    }
    r
}

// ---------------------------------------------------------------------------
// The index builder: aggregate all records' blocks per target name, freeze.
// ---------------------------------------------------------------------------

/// The parse errors among a sequence of parse results, in order.
pub open spec fn errs_of(rs: Seq<Result<RecordV, ParseError>>) -> Seq<ParseError>
    decreases rs.len(),
{
    if rs.len() == 0 {
        Seq::empty()
    } else {
        let rest = errs_of(rs.drop_first());
        match rs[0] {
            Ok(_) => rest,
            Err(e) => seq![e] + rest,
        }
    }
}

/// All blocks of all successfully parsed records whose target sequence is
/// `name`, in record order and block order: what one per-chromosome index
/// must hold.
pub open spec fn gathered(rs: Seq<Result<RecordV, ParseError>>, name: Seq<u8>) -> Seq<BlockIvlV>
    decreases rs.len(),
{
    if rs.len() == 0 {
        Seq::empty()
    } else {
        let rest = gathered(rs.drop_first(), name);
        match rs[0] {
            Ok(rv) => if rv.header.target.name == name {
                rv.blocks + rest
            } else {
                rest
            },
            Err(_) => rest,
        }
    }
}

/// The blocks an aggregation vector holds for one name.
pub open spec fn acc_blocks(entries: Seq<(Vec<u8>, Vec<BlockIvl>)>, name: Seq<u8>) -> Seq<
    BlockIvlV,
> {
    match find_entry(entries, name) {
        Some(k) => ivls_view(entries[k].1@),
        None => Seq::empty(),
    }
}

/// The blocks a vector of frozen indices holds for one name.
pub open spec fn entries_blocks(entries: Seq<(Vec<u8>, ChromLapper)>, name: Seq<u8>) -> Seq<
    BlockIvlV,
> {
    match find_entry(entries, name) {
        Some(k) => ivls_view(entries[k].1.blocks@),
        None => Seq::empty(),
    }
}

/// The blocks the finished index holds for one name.
pub open spec fn map_blocks(m: LapperMap, name: Seq<u8>) -> Seq<BlockIvlV> {
    entries_blocks(m.entries@, name)
}

/// Parse a whole chain-format buffer and freeze one interval index per
/// target sequence name: every index holds exactly the blocks of all
/// successfully parsed records naming that sequence, aggregated before the
/// index is built, and the damaged records' errors come back alongside, in
/// input order.
pub fn get_lapper_hashmap(data: Vec<u8>) -> (r: (LapperMap, Vec<ParseError>))
    ensures
        r.0.wf(),
        forall|name: Seq<u8>| #[trigger] map_blocks(r.0, name) == gathered(
            spec_records(data@, 0),
            name,
        ),
        r.1@ == errs_of(spec_records(data@, 0)),
{
    let ghost s = data@;
    let ghost rs0 = spec_records(s, 0);
    let mut it = ChainRecords::new(data);
    let mut acc: Vec<(Vec<u8>, Vec<BlockIvl>)> = Vec::new();
    let mut errs: Vec<ParseError> = Vec::new();
    proof {
        assert(errs@ + errs_of(spec_records(s, 0)) =~= errs_of(spec_records(s, 0)));
        assert forall|name: Seq<u8>| #[trigger] gathered(rs0, name) == acc_blocks(acc@, name)
            + gathered(spec_records(s, it.pos as int), name) by {
            assert(acc_blocks(acc@, name) =~= Seq::<BlockIvlV>::empty());
            assert(Seq::<BlockIvlV>::empty() + gathered(rs0, name) =~= gathered(rs0, name));
        }
    }
    loop
        invariant
            it.wf(),
            it.data@ == s,
            rs0 == spec_records(s, 0),
            forall|name: Seq<u8>| #[trigger] gathered(rs0, name) == acc_blocks(acc@, name)
                + gathered(spec_records(s, it.pos as int), name),
            errs_of(rs0) == errs@ + errs_of(spec_records(s, it.pos as int)),
            forall|i: int, j: int|
                0 <= i < j < acc@.len() ==> (#[trigger] acc@[i]).0@ != (#[trigger] acc@[j]).0@,
            forall|k: int, l: int|
                0 <= k < acc@.len() && 0 <= l < acc@[k].1@.len() ==> block_ivl_wf(
                    #[trigger] acc@[k].1@[l]@,
                ),
        ensures
            forall|name: Seq<u8>| #[trigger] gathered(rs0, name) == acc_blocks(acc@, name),
            errs_of(rs0) == errs@,
            forall|i: int, j: int|
                0 <= i < j < acc@.len() ==> (#[trigger] acc@[i]).0@ != (#[trigger] acc@[j]).0@,
            forall|k: int, l: int|
                0 <= k < acc@.len() && 0 <= l < acc@[k].1@.len() ==> block_ivl_wf(
                    #[trigger] acc@[k].1@[l]@,
                ),
        decreases s.len() - it.pos,
    {
        let ghost pos0 = it.pos as int;
        let ghost step = spec_next(s, pos0);
        proof {
            lemma_spec_next_progress(s, pos0);
        }
        let nx = it.next();
        match nx {
            None => {
                proof {
                    assert(spec_records(s, pos0) =~= Seq::<Result<RecordV, ParseError>>::empty());
                    assert(spec_records(s, it.pos as int) =~= Seq::<
                        Result<RecordV, ParseError>,
                    >::empty());
                    assert forall|name: Seq<u8>| #[trigger] gathered(rs0, name) == acc_blocks(
                        acc@,
                        name,
                    ) by {
                        assert(gathered(rs0, name) == acc_blocks(acc@, name) + gathered(
                            spec_records(s, it.pos as int),
                            name,
                        ));
                        assert(gathered(spec_records(s, it.pos as int), name) =~= Seq::<
                            BlockIvlV,
                        >::empty());
                        assert(acc_blocks(acc@, name) + Seq::<BlockIvlV>::empty() =~= acc_blocks(
                            acc@,
                            name,
                        ));
                    }
                    assert(errs_of(spec_records(s, it.pos as int)) =~= Seq::<ParseError>::empty());
                    assert(errs@ + Seq::<ParseError>::empty() =~= errs@);
                }
                break;
            },
            Some(res) => {
                let ghost x = step.1.unwrap();
                let ghost old_rest = spec_records(s, pos0);
                let ghost new_rest = spec_records(s, it.pos as int);
                proof {
                    assert(old_rest == seq![x] + spec_records(s, step.0));
                    assert((seq![x] + new_rest).drop_first() =~= new_rest);
                    assert((seq![x] + new_rest)[0] == x);
                }
                match res {
                    Err(e) => {
                        errs.push(e);
                        proof {
                            assert(x == Err::<RecordV, ParseError>(e));
                            assert(errs_of(old_rest) == seq![e] + errs_of(new_rest));
                            assert(errs@.drop_last() + (seq![e] + errs_of(new_rest)) =~= errs@
                                + errs_of(new_rest));
                            assert forall|name: Seq<u8>| #[trigger] gathered(rs0, name)
                                == acc_blocks(acc@, name) + gathered(new_rest, name) by {
                                assert(gathered(rs0, name) == acc_blocks(acc@, name) + gathered(
                                    old_rest,
                                    name,
                                ));
                                assert(gathered(old_rest, name) == gathered(new_rest, name));
                            }
                        }
                    },
                    Ok(rec) => {
                        let ghost rv = rec@;
                        let ChainRecord { header, block_ivls } = rec;
                        let mut blocks = block_ivls;
                        let tname = header.target.name;
                        let ghost tnamev = tname@;
                        let ghost rblocks = blocks@;
                        proof {
                            assert(x == Ok::<RecordV, ParseError>(rv));
                            assert(rv.header.target.name == tnamev);
                            assert(rv.blocks == ivls_view(rblocks));
                            assert(record_wf(rv));
                            assert(errs_of(old_rest) == errs_of(new_rest));
                            assert(errs@ + (Seq::<ParseError>::empty() + errs_of(new_rest)) =~=
                                errs@ + errs_of(new_rest));
                        }
                        let ghost acc_old = acc@;
                        let found_idx = find_pair_idx(&acc, &tname);
                        match found_idx {
                            Some(i) => {
                                let ghost pair_old = acc@[i as int];
                                let entry = &mut acc[i];
                                let ghost blocks_in = entry.1@;
                                entry.1.append(&mut blocks);
                                proof {
                                    let acc_new = acc@;
                                    let p = (pair_old.0, acc_new[i as int].1);
                                    assert(acc_new == acc_old.update(i as int, p)) by {
                                        assert(acc_new =~= acc_old.update(
                                            i as int,
                                            acc_new[i as int],
                                        ));
                                        assert(acc_new[i as int].0 == pair_old.0);
                                    }
                                    assert(acc_new[i as int].1@ == blocks_in + rblocks);
                                    assert(forall|j: int|
                                        0 <= j < acc_new.len() ==> (#[trigger] acc_new[j]).0@
                                            == acc_old[j].0@);
                                    // lookups are unchanged: the entry keeps its name
                                    assert forall|name: Seq<u8>| #[trigger] gathered(rs0, name)
                                        == acc_blocks(acc_new, name) + gathered(
                                        new_rest,
                                        name,
                                    ) by {
                                        assert(gathered(rs0, name) == acc_blocks(acc_old, name)
                                            + gathered(old_rest, name));
                                        lemma_find_update(acc_old, i as int, p, name, 0);
                                        assert(find_entry(acc_new, name) == find_entry(
                                            acc_old,
                                            name,
                                        ));
                                        if name == tnamev {
                                            assert(gathered(old_rest, name) == rv.blocks
                                                + gathered(new_rest, name));
                                            assert(find_entry(acc_old, name) == Some(i as int));
                                            assert(ivls_view(acc_new[i as int].1@)
                                                =~= ivls_view(blocks_in) + rv.blocks);
                                            assert((ivls_view(blocks_in) + rv.blocks)
                                                + gathered(new_rest, name) =~= ivls_view(
                                                blocks_in,
                                            ) + (rv.blocks + gathered(new_rest, name)));
                                        } else {
                                            assert(gathered(old_rest, name) == gathered(
                                                new_rest,
                                                name,
                                            ));
                                            match find_entry(acc_old, name) {
                                                Some(k) => {
                                                    lemma_find_props(acc_old, name, 0);
                                                    assert(acc_old[k].0@ == name);
                                                    assert(k != i as int);
                                                    assert(acc_new[k] == acc_old[k]);
                                                },
                                                None => {},
                                            }
                                        }
                                    }
                                    // the one extended entry holds only colinear blocks
                                    assert forall|k: int, l: int|
                                        0 <= k < acc_new.len() && 0 <= l
                                            < acc_new[k].1@.len() implies block_ivl_wf(
                                        #[trigger] acc_new[k].1@[l]@,
                                    ) by {
                                        if k == i as int {
                                            if l < blocks_in.len() {
                                                assert(acc_new[k].1@[l] == acc_old[k].1@[l]);
                                                assert(block_ivl_wf(acc_old[k].1@[l]@));
                                            } else {
                                                assert(acc_new[k].1@[l] == rblocks[l
                                                    - blocks_in.len()]);
                                                assert(rv.blocks[l - blocks_in.len()] == rblocks[l
                                                    - blocks_in.len()]@);
                                                assert(block_ivl_wf(rv.blocks[l
                                                    - blocks_in.len()]));
                                            }
                                        } else {
                                            assert(acc_new[k].1@ == acc_old[k].1@);
                                            assert(block_ivl_wf(acc_old[k].1@[l]@));
                                        }
                                    }
                                }
                            },
                            None => {
                                acc.push((tname, blocks));
                                proof {
                                    let acc_new = acc@;
                                    let p = acc_new[acc_old.len() as int];
                                    assert(acc_new =~= acc_old.push(p));
                                    assert(p.0@ == tnamev && p.1@ == rblocks);
                                    lemma_find_props(acc_old, tnamev, 0);
                                    // the new name occurs nowhere among the old entries
                                    assert(forall|j: int|
                                        0 <= j < acc_old.len() ==> (#[trigger] acc_old[j]).0@
                                            != tnamev);
                                    assert forall|name: Seq<u8>| #[trigger] gathered(rs0, name)
                                        == acc_blocks(acc_new, name) + gathered(
                                        new_rest,
                                        name,
                                    ) by {
                                        assert(gathered(rs0, name) == acc_blocks(acc_old, name)
                                            + gathered(old_rest, name));
                                        lemma_find_push(acc_old, p, name, 0);
                                        if name == tnamev {
                                            assert(gathered(old_rest, name) == rv.blocks
                                                + gathered(new_rest, name));
                                            assert(find_entry(acc_old, name) == None::<int>);
                                            assert(find_entry(acc_new, name) == Some(
                                                acc_old.len() as int,
                                            ));
                                            assert(ivls_view(p.1@) =~= rv.blocks);
                                            assert(Seq::<BlockIvlV>::empty() + (rv.blocks
                                                + gathered(new_rest, name)) =~= rv.blocks
                                                + gathered(new_rest, name));
                                        } else {
                                            assert(gathered(old_rest, name) == gathered(
                                                new_rest,
                                                name,
                                            ));
                                            match find_entry(acc_old, name) {
                                                Some(k) => {
                                                    lemma_find_props(acc_old, name, 0);
                                                    assert(find_entry(acc_new, name) == Some(k));
                                                    assert(acc_new[k] == acc_old[k]);
                                                },
                                                None => {
                                                    assert(find_entry(acc_new, name) == None::<
                                                        int,
                                                    >);
                                                },
                                            }
                                        }
                                    }
                                    assert forall|k: int, l: int|
                                        0 <= k < acc_new.len() && 0 <= l
                                            < acc_new[k].1@.len() implies block_ivl_wf(
                                        #[trigger] acc_new[k].1@[l]@,
                                    ) by {
                                        if k < acc_old.len() {
                                            assert(acc_new[k] == acc_old[k]);
                                            assert(block_ivl_wf(acc_old[k].1@[l]@));
                                        } else {
                                            assert(acc_new[k].1@[l] == rblocks[l]);
                                            assert(rv.blocks[l] == rblocks[l]@);
                                            assert(block_ivl_wf(rv.blocks[l]));
                                        }
                                    }
                                }
                            },
                        }
                    },
                }
            },
        }
    }
    // freeze one index per target name
    let ghost acc0 = acc@;
    let mut entries: Vec<(Vec<u8>, ChromLapper)> = Vec::new();
    proof {
        assert(acc@ =~= acc0.take(acc@.len() as int));
    }
    loop
        invariant
            acc@.len() <= acc0.len(),
            acc@ == acc0.take(acc@.len() as int),
            forall|i: int, j: int|
                0 <= i < j < acc0.len() ==> (#[trigger] acc0[i]).0@ != (#[trigger] acc0[j]).0@,
            forall|k: int, l: int|
                0 <= k < acc0.len() && 0 <= l < acc0[k].1@.len() ==> block_ivl_wf(
                    #[trigger] acc0[k].1@[l]@,
                ),
            forall|i: int, j: int|
                0 <= i < j < entries@.len() ==> (#[trigger] entries@[i]).0@ != (
                #[trigger] entries@[j]).0@,
            forall|k: int| 0 <= k < entries@.len() ==> (#[trigger] entries@[k].1).wf(),
            forall|i: int, j: int|
                0 <= i < entries@.len() && 0 <= j < acc@.len() ==> (#[trigger] entries@[i]).0@ != (
                #[trigger] acc@[j]).0@,
            forall|name: Seq<u8>| #[trigger] find_entry(entries@, name) is Some ==> find_entry(
                acc@,
                name,
            ) is None,
            forall|name: Seq<u8>| #[trigger] entries_blocks(entries@, name) == (if find_entry(
                acc@,
                name,
            ) is Some {
                Seq::<BlockIvlV>::empty()
            } else {
                acc_blocks(acc0, name)
            }),
        ensures
            forall|i: int, j: int|
                0 <= i < j < entries@.len() ==> (#[trigger] entries@[i]).0@ != (
                #[trigger] entries@[j]).0@,
            forall|k: int| 0 <= k < entries@.len() ==> (#[trigger] entries@[k].1).wf(),
            forall|name: Seq<u8>| #[trigger] entries_blocks(entries@, name) == acc_blocks(
                acc0,
                name,
            ),
        decreases acc@.len(),
    {
        let ghost acc_before = acc@;
        let popped = acc.pop();
        match popped {
            None => {
                proof {
                    assert(acc_before.len() == 0);
                    assert forall|name: Seq<u8>| #[trigger] entries_blocks(entries@, name)
                        == acc_blocks(acc0, name) by {
                        assert(find_entry(acc_before, name) == None::<int>);
                    }
                }
                break;
            },
            Some(pair) => {
                let (name, blocks) = pair;
                let ghost m = acc_before.len() - 1;
                proof {
                    assert(acc@ =~= acc_before.drop_last());
                    assert(acc@ =~= acc0.take(acc@.len() as int));
                    assert(acc_before[m] == acc0[m]);
                    assert forall|l: int| 0 <= l < blocks@.len() implies block_ivl_wf(
                        #[trigger] blocks@[l]@,
                    ) by {
                        assert(block_ivl_wf(acc0[m].1@[l]@));
                    }
                }
                let c = ChromLapper::new(blocks);
                let ghost entries_old = entries@;
                entries.push((name, c));
                proof {
                    let entries_new = entries@;
                    let p = entries_new[entries_old.len() as int];
                    assert(entries_new =~= entries_old.push(p));
                    assert(p.0@ == name@ && p.1.blocks@ == acc0[m].1@) by {
                        assert(acc_before[m] == acc0[m]);
                    }
                    assert(name@ == acc0[m].0@);
                    // the popped name occurs in no other aggregation entry
                    assert forall|j: int| 0 <= j < acc@.len() implies (#[trigger] acc@[j]).0@
                        != name@ by {
                        assert(acc@[j] == acc0[j]);
                        assert(acc0[j].0@ != acc0[m].0@);
                    }
                    // and in no frozen entry
                    assert forall|i2: int| 0 <= i2 < entries_old.len() implies (
                    #[trigger] entries_old[i2]).0@ != name@ by {
                        assert(entries_old[i2].0@ != acc_before[m].0@);
                    }
                    // frozen entries stay well-formed and uniquely named
                    assert forall|k: int| 0 <= k < entries_new.len() implies (
                    #[trigger] entries_new[k].1).wf() by {
                        if k < entries_old.len() {
                            assert(entries_new[k] == entries_old[k]);
                            assert(entries_old[k].1.wf());
                        } else {
                            assert(entries_new[k].1 == c);
                        }
                    }
                    assert forall|i2: int, j2: int|
                        0 <= i2 < j2 < entries_new.len() implies (#[trigger] entries_new[i2]).0@
                        != (#[trigger] entries_new[j2]).0@ by {
                        assert(entries_new[i2] == entries_old[i2]);
                        if j2 < entries_old.len() {
                            assert(entries_new[j2] == entries_old[j2]);
                        } else {
                            assert(entries_new[j2] == p);
                        }
                    }
                    assert forall|i2: int, j2: int|
                        0 <= i2 < entries_new.len() && 0 <= j2 < acc@.len() implies (
                    #[trigger] entries_new[i2]).0@ != (#[trigger] acc@[j2]).0@ by {
                        assert(acc@[j2] == acc_before[j2]);
                        if i2 < entries_old.len() {
                            assert(entries_new[i2] == entries_old[i2]);
                            assert(entries_old[i2].0@ != acc_before[j2].0@);
                        } else {
                            assert(entries_new[i2] == p);
                        }
                    }
                    // per-name contents carry over
                    assert forall|name2: Seq<u8>| (#[trigger] entries_blocks(entries_new, name2)
                        == (if find_entry(acc@, name2) is Some {
                        Seq::<BlockIvlV>::empty()
                    } else {
                        acc_blocks(acc0, name2)
                    }) && (find_entry(entries_new, name2) is Some ==> find_entry(acc@, name2)
                        is None)) by {
                        assert(entries_blocks(entries_old, name2) == (if find_entry(
                            acc_before,
                            name2,
                        ) is Some {
                            Seq::<BlockIvlV>::empty()
                        } else {
                            acc_blocks(acc0, name2)
                        }));
                        lemma_find_push(entries_old, p, name2, 0);
                        lemma_find_props(entries_old, name2, 0);
                        lemma_find_props(acc_before, name2, 0);
                        lemma_find_props(acc@, name2, 0);
                        lemma_find_props(acc0, name2, 0);
                        if name2 == name@ {
                            assert(find_entry(entries_old, name2) == None::<int>) by {
                                if find_entry(entries_old, name2) is Some {
                                    let k = find_entry(entries_old, name2).unwrap();
                                    assert(entries_old[k].0@ == name2);
                                }
                            }
                            assert(find_entry(entries_new, name2) == Some(
                                entries_old.len() as int,
                            ));
                            assert(find_entry(acc@, name2) == None::<int>) by {
                                if find_entry(acc@, name2) is Some {
                                    let k2 = find_entry(acc@, name2).unwrap();
                                    assert(acc@[k2].0@ == name2);
                                }
                            }
                            // the whole aggregation for this name is the popped vector
                            assert(find_entry(acc0, name2) == Some(m)) by {
                                if find_entry(acc0, name2) is None {
                                    assert(acc0[m].0@ != name2);
                                }
                                let k0 = find_entry(acc0, name2).unwrap();
                                assert(acc0[k0].0@ == name2);
                                if k0 != m {
                                    assert(acc0[k0].0@ != acc0[m].0@);
                                }
                            }
                            assert(acc_blocks(acc0, name2) == ivls_view(acc0[m].1@));
                            assert(entries_blocks(entries_new, name2) == ivls_view(
                                p.1.blocks@,
                            ));
                        } else {
                            match find_entry(entries_old, name2) {
                                Some(k) => {
                                    assert(find_entry(entries_new, name2) == Some(k));
                                    assert(entries_new[k] == entries_old[k]);
                                    assert(find_entry(acc_before, name2) is None);
                                    assert(find_entry(acc@, name2) is None) by {
                                        if find_entry(acc@, name2) is Some {
                                            let k2 = find_entry(acc@, name2).unwrap();
                                            assert(acc@[k2] == acc_before[k2]);
                                            assert(acc_before[k2].0@ == name2);
                                        }
                                    }
                                },
                                None => {
                                    assert(find_entry(entries_new, name2) == None::<int>);
                                    assert(entries_blocks(entries_new, name2) =~= Seq::<
                                        BlockIvlV,
                                    >::empty());
                                    assert(entries_blocks(entries_old, name2) =~= Seq::<
                                        BlockIvlV,
                                    >::empty());
                                    match find_entry(acc@, name2) {
                                        Some(k2) => {
                                            assert(acc@[k2] == acc_before[k2]);
                                            assert(acc_before[k2].0@ == name2);
                                            assert(find_entry(acc_before, name2) is Some);
                                        },
                                        None => {
                                            // the name left with no trace: it was never
                                            // in the remaining aggregation
                                            if find_entry(acc_before, name2) is Some {
                                                let k3 = find_entry(acc_before, name2).unwrap();
                                                assert(acc_before[k3].0@ == name2);
                                                assert(k3 == m) by {
                                                    if k3 < m {
                                                        assert(acc@[k3] == acc_before[k3]);
                                                        assert(acc@[k3].0@ != name2);
                                                    }
                                                }
                                                assert(acc_before[m].0@ == name@);
                                                assert(false);
                                            }
                                            assert(find_entry(acc_before, name2) is None);
                                            assert(acc_blocks(acc0, name2) == entries_blocks(
                                                entries_old,
                                                name2,
                                            ));
                                        },
                                    }
                                },
                            }
                        }
                    }
                    assert forall|name2: Seq<u8>| #[trigger] find_entry(entries_new, name2)
                        is Some implies find_entry(acc@, name2) is None by {
                        assert(entries_blocks(entries_new, name2) == (if find_entry(
                            acc@,
                            name2,
                        ) is Some {
                            Seq::<BlockIvlV>::empty()
                        } else {
                            acc_blocks(acc0, name2)
                        }));
                    }
                }
            },
        }
    }
    let map = LapperMap { entries };
    proof {
        assert forall|name: Seq<u8>| #[trigger] map_blocks(map, name) == gathered(rs0, name) by {
            assert(entries_blocks(map.entries@, name) == acc_blocks(acc0, name));
            assert(gathered(rs0, name) == acc_blocks(acc0, name));
        }
    }
    (map, errs)
}

proof fn lemma_filter_remove_multiset<A>(s: Seq<A>, p: spec_fn(A) -> bool, j: int)
    requires
        0 <= j < s.len(),
    ensures
        s.filter(p).to_multiset() == (if p(s[j]) {
            s.remove(j).filter(p).to_multiset().insert(s[j])
        } else {
            s.remove(j).filter(p).to_multiset()
        }),
    decreases s.len(),
{
    broadcast use vstd::seq_lib::group_to_multiset_ensures;

    reveal(Seq::filter);
    if j == s.len() - 1 {
        assert(s.remove(j) =~= s.drop_last());
        if p(s[j]) {
            assert(s.filter(p) == s.drop_last().filter(p).push(s[j]));
            assert(s.drop_last().filter(p).push(s[j]).to_multiset() =~= s.drop_last().filter(
                p,
            ).to_multiset().insert(s[j]));
        }
    } else {
        let x = s.last();
        let t = s.drop_last();
        assert(s.remove(j).drop_last() =~= t.remove(j));
        assert(s.remove(j).last() == x);
        assert(s.remove(j) =~= t.remove(j).push(x));
        lemma_filter_remove_multiset(t, p, j);
        assert(s.remove(j).drop_last() == t.remove(j));
        assert(t[j] == s[j]);
        if p(x) {
            assert(s.filter(p) == t.filter(p).push(x));
            assert(s.remove(j).filter(p) == t.remove(j).filter(p).push(x));
            assert(t.filter(p).push(x).to_multiset() =~= t.filter(p).to_multiset().insert(x));
            assert(t.remove(j).filter(p).push(x).to_multiset() =~= t.remove(j).filter(
                p,
            ).to_multiset().insert(x));
            if p(s[j]) {
                assert(t.filter(p).to_multiset().insert(x) =~= t.remove(j).filter(
                    p,
                ).to_multiset().insert(s[j]).insert(x));
                assert(t.remove(j).filter(p).to_multiset().insert(s[j]).insert(x) =~= t.remove(
                    j,
                ).filter(p).to_multiset().insert(x).insert(s[j]));
            }
        } else {
            assert(s.filter(p) == t.filter(p));
            assert(s.remove(j).filter(p) == t.remove(j).filter(p));
        }
    }
}

/// Sequences with the same contents keep the same contents under any
/// filter, whatever their order.
proof fn lemma_filter_perm<A>(s1: Seq<A>, s2: Seq<A>, p: spec_fn(A) -> bool)
    requires
        s1.to_multiset() == s2.to_multiset(),
    ensures
        s1.filter(p).to_multiset() == s2.filter(p).to_multiset(),
    decreases s1.len(),
{
    broadcast use vstd::seq_lib::group_to_multiset_ensures;

    reveal(Seq::filter);
    if s1.len() == 0 {
        assert(s2.to_multiset().len() == 0);
        assert(s2.len() == 0);
    } else {
        let x = s1.last();
        let t1 = s1.drop_last();
        assert(s1 =~= t1.push(x));
        assert(s1.contains(x));
        assert(s1.to_multiset().count(x) > 0);
        assert(s2.to_multiset().count(x) > 0);
        assert(s2.contains(x));
        let j = choose|j: int| 0 <= j < s2.len() && s2[j] == x;
        let t2 = s2.remove(j);
        assert(t1.push(x).to_multiset() =~= t1.to_multiset().insert(x));
        assert(t2.to_multiset() =~= s2.to_multiset().remove(x));
        assert(t1.to_multiset() =~= t2.to_multiset()) by {
            assert forall|a: A| t1.to_multiset().count(a) == t2.to_multiset().count(a) by {
                assert(s1.to_multiset().count(a) == t1.to_multiset().insert(x).count(a));
            }
        }
        lemma_filter_perm(t1, t2, p);
        lemma_filter_remove_multiset(s2, p, j);
        if p(x) {
            assert(s1.filter(p) == t1.filter(p).push(x));
            assert(t1.filter(p).push(x).to_multiset() =~= t1.filter(p).to_multiset().insert(x));
        } else {
            assert(s1.filter(p) == t1.filter(p));
        }
    }
}

/// Sequences with the same contents keep the same contents under any map,
/// whatever their order.
proof fn lemma_map_perm<A, B>(s1: Seq<A>, s2: Seq<A>, f: spec_fn(A) -> B)
    requires
        s1.to_multiset() == s2.to_multiset(),
    ensures
        s1.map_values(f).to_multiset() == s2.map_values(f).to_multiset(),
    decreases s1.len(),
{
    broadcast use vstd::seq_lib::group_to_multiset_ensures;

    if s1.len() == 0 {
        assert(s2.to_multiset().len() == 0);
        assert(s2.len() == 0);
        assert(s1.map_values(f) =~= s2.map_values(f));
    } else {
        let x = s1.last();
        let t1 = s1.drop_last();
        assert(s1 =~= t1.push(x));
        assert(s1.contains(x));
        assert(s1.to_multiset().count(x) > 0);
        assert(s2.to_multiset().count(x) > 0);
        assert(s2.contains(x));
        let j = choose|j: int| 0 <= j < s2.len() && s2[j] == x;
        let t2 = s2.remove(j);
        assert(t1.push(x).to_multiset() =~= t1.to_multiset().insert(x));
        assert(t2.to_multiset() =~= s2.to_multiset().remove(x));
        assert(t1.to_multiset() =~= t2.to_multiset()) by {
            assert forall|a: A| t1.to_multiset().count(a) == t2.to_multiset().count(a) by {
                assert(s1.to_multiset().count(a) == t1.to_multiset().insert(x).count(a));
            }
        }
        lemma_map_perm(t1, t2, f);
        assert(s1.map_values(f) =~= t1.map_values(f).push(f(x)));
        assert(t1.map_values(f).push(f(x)).to_multiset() =~= t1.map_values(
            f,
        ).to_multiset().insert(f(x)));
        assert(s2.map_values(f).remove(j) =~= t2.map_values(f));
        assert(s2.map_values(f).remove(j).to_multiset() == s2.map_values(f).to_multiset().remove(
            f(s2[j]),
        ));
        assert forall|b: B| s1.map_values(f).to_multiset().count(b) == s2.map_values(
            f,
        ).to_multiset().count(b) by {
            assert(t2.map_values(f).to_multiset().count(b) == s2.map_values(
                f,
            ).to_multiset().remove(f(x)).count(b));
        }
        assert(s1.map_values(f).to_multiset() =~= s2.map_values(f).to_multiset());
    }
}

/// A query's matches are exactly the intersecting blocks' lifted pairs: one
/// pair per stored block whose target range intersects the query, each the
/// lift of its own block.
pub proof fn lemma_matches_cover_overlapping_blocks(c: ChromLapper, q: RegionV)
    requires
        c.wf(),
    ensures
        found_pairs(c, q).to_multiset() == index_triples(c.blocks@).filter(
            |t: (usize, usize, u64)| tri_overlaps(t, q.start, q.end),
        ).map_values(|t: (usize, usize, u64)| lift_pair(c.blocks@[t.2 as int]@, q)).to_multiset(),
{
    let p = |t: (usize, usize, u64)| tri_overlaps(t, q.start, q.end);
    let f = |t: (usize, usize, u64)| lift_pair(c.blocks@[t.2 as int]@, q);
    lemma_filter_perm(c.model(), index_triples(c.blocks@), p);
    lemma_map_perm(c.model().filter(p), index_triples(c.blocks@).filter(p), f);
}

proof fn lemma_filter_keeps_sorted(s: Seq<(usize, usize, u64)>, p: spec_fn((usize, usize, u64)) -> bool)
    requires
        sorted_by_range(s),
    ensures
        sorted_by_range(s.filter(p)),
    decreases s.len(),
{
    reveal(Seq::filter);
    if s.len() > 0 {
        let t = s.drop_last();
        let x = s.last();
        assert(sorted_by_range(t)) by {
            assert(forall|k: int| 0 <= k < t.len() ==> t[k] == s[k]);
        }
        lemma_filter_keeps_sorted(t, p);
        if p(x) {
            assert(s.filter(p) == t.filter(p).push(x));
            lemma_filter_subset(t, p);
            assert forall|i: int, j: int|
                0 <= i < j < s.filter(p).len() implies (#[trigger] s.filter(p)[i]).0 < (
            #[trigger] s.filter(p)[j]).0 || (s.filter(p)[i].0 == s.filter(p)[j].0 && s.filter(
                p,
            )[i].1 <= s.filter(p)[j].1) by {
                if j < t.filter(p).len() {
                    assert(s.filter(p)[i] == t.filter(p)[i]);
                    assert(s.filter(p)[j] == t.filter(p)[j]);
                } else {
                    assert(s.filter(p)[j] == x);
                    assert(s.filter(p)[i] == t.filter(p)[i]);
                    assert(t.filter(p).contains(t.filter(p)[i]));
                    assert(t.contains(t.filter(p)[i]));
                    let k = choose|k: int|
                        0 <= k < t.len() && t[k] == t.filter(p)[i];
                    assert(s[k] == t.filter(p)[i]);
                    assert(s[s.len() - 1] == x);
                }
            }
        }
    }
}

/// Matches come out in the index's scan order: ascending by the matched
/// block's target start (ties ordered by target end).
pub proof fn lemma_matches_in_scan_order(c: ChromLapper, q: RegionV)
    requires
        c.wf(),
    ensures
        sorted_by_range(
            c.model().filter(|t: (usize, usize, u64)| tri_overlaps(t, q.start, q.end)),
        ),
{
    lemma_filter_keeps_sorted(
        c.model(),
        |t: (usize, usize, u64)| tri_overlaps(t, q.start, q.end),
    );
}

/// A query's match count equals exactly the number of stored blocks whose
/// target range intersects it.
pub proof fn lemma_match_count(c: ChromLapper, q: RegionV)
    requires
        c.wf(),
    ensures
        found_pairs(c, q).len() == index_triples(c.blocks@).filter(
            |t: (usize, usize, u64)| tri_overlaps(t, q.start, q.end),
        ).len(),
{
    lemma_filter_len_perm(
        c.model(),
        index_triples(c.blocks@),
        |t: (usize, usize, u64)| tri_overlaps(t, q.start, q.end),
    );
}

} // verus!
