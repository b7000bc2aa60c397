//! The tabular view of parsed records: one row per derived block, with the
//! columns an alignment dump carries.

use crate::interval::ivls_view;
use crate::parser::{copy_bytes, ChainRecord, RecordV, Strand};
use vstd::prelude::*;

verus! {

/// One row of the tabular dump: the block's target range, its
/// forward-normalized query range, and the strands as the dump prints them
/// (the target side always forward).
#[derive(Debug, Clone)]
pub struct ViewRow {
    pub target_name: Vec<u8>,
    pub target_start: usize,
    pub target_end: usize,
    pub target_strand: Strand,
    pub query_name: Vec<u8>,
    pub query_start: usize,
    pub query_end: usize,
    pub query_strand: Strand,
}

/// Mathematical model of a [`ViewRow`].
#[verifier::ext_equal]
pub struct ViewRowV {
    pub target_name: Seq<u8>,
    pub target_start: int,
    pub target_end: int,
    pub target_strand: Strand,
    pub query_name: Seq<u8>,
    pub query_start: int,
    pub query_end: int,
    pub query_strand: Strand,
}

impl View for ViewRow {
    type V = ViewRowV;

    open spec fn view(&self) -> ViewRowV {
        ViewRowV {
            target_name: self.target_name@,
            target_start: self.target_start as int,
            target_end: self.target_end as int,
            target_strand: self.target_strand,
            query_name: self.query_name@,
            query_start: self.query_start as int,
            query_end: self.query_end as int,
            query_strand: self.query_strand,
        }
    }
}

/// The rows of one record: one per block, in block order.
pub open spec fn spec_record_rows(rv: RecordV) -> Seq<ViewRowV> {
    rv.blocks.map_values(
        |b: crate::interval::BlockIvlV| ViewRowV {
            target_name: rv.header.target.name,
            target_start: b.start,
            target_end: b.stop,
            target_strand: Strand::Positive,
            query_name: b.val.name,
            query_start: b.val.start,
            query_end: b.val.end,
            query_strand: b.val.strand,
        },
    )
}

/// The rows of a record sequence, in record order.
pub open spec fn spec_view_rows(rs: Seq<RecordV>) -> Seq<ViewRowV>
    decreases rs.len(),
{
    if rs.len() == 0 {
        Seq::empty()
    } else {
        spec_record_rows(rs[0]) + spec_view_rows(rs.drop_first())
    }
}

/// The views of a vector of rows.
pub open spec fn rows_view(v: Seq<ViewRow>) -> Seq<ViewRowV> {
    v.map_values(|r: ViewRow| r@)
}

/// The views of a vector of records.
pub open spec fn records_view(v: Seq<ChainRecord>) -> Seq<RecordV> {
    v.map_values(|r: ChainRecord| r@)
}

/// Flatten parsed records into the rows of the tabular dump: one row per
/// derived block, record by record, block by block.
pub fn view_chain(records: &Vec<ChainRecord>) -> (r: Vec<ViewRow>)
    ensures
        rows_view(r@) == spec_view_rows(records_view(records@)),
{
    let ghost rsv = records_view(records@);
    let mut out: Vec<ViewRow> = Vec::new();
    let mut i: usize = 0;
    proof {
        assert(rows_view(out@) =~= Seq::<ViewRowV>::empty());
        assert(rsv.skip(0) =~= rsv);
        assert(Seq::<ViewRowV>::empty() + spec_view_rows(rsv) =~= spec_view_rows(rsv));
    }
    while i < records.len()
        invariant
            0 <= i <= records@.len(),
            rsv == records_view(records@),
            rsv.len() == records@.len(),
            forall|k: int| 0 <= k < records@.len() ==> rsv[k] == #[trigger] records@[k]@,
            spec_view_rows(rsv) == rows_view(out@) + spec_view_rows(rsv.skip(i as int)),
        decreases records@.len() - i,
    {
        let rec = &records[i];
        let ghost rv = rsv[i as int];
        proof {
            assert(rsv.skip(i as int).len() > 0 && rsv.skip(i as int)[0] == rv);
            assert(rsv.skip(i as int).drop_first() =~= rsv.skip(i as int + 1));
            assert(spec_view_rows(rsv.skip(i as int)) == spec_record_rows(rv) + spec_view_rows(
                rsv.skip(i as int + 1),
            ));
        }
        let mut j: usize = 0;
        proof {
            assert(rv.blocks == ivls_view(rec.block_ivls@));
            assert(spec_record_rows(rv).take(0) =~= Seq::<ViewRowV>::empty());
            assert(rows_view(out@) + Seq::<ViewRowV>::empty() =~= rows_view(out@));
        }
        let ghost out_rec0 = rows_view(out@);
        while j < rec.block_ivls.len()
            invariant
                0 <= j <= rec.block_ivls@.len(),
                rv == rec@,
                rv.blocks == ivls_view(rec.block_ivls@),
                rv.blocks.len() == rec.block_ivls@.len(),
                spec_record_rows(rv).len() == rec.block_ivls@.len(),
                rows_view(out@) == out_rec0 + spec_record_rows(rv).take(j as int),
            decreases rec.block_ivls@.len() - j,
        {
            let b = &rec.block_ivls[j];
            let row = ViewRow {
                target_name: copy_bytes(&rec.header.target.name),
                target_start: b.start,
                target_end: b.stop,
                target_strand: Strand::Positive,
                query_name: copy_bytes(&b.val.name),
                query_start: b.val.start,
                query_end: b.val.end,
                query_strand: b.val.strand,
            };
            let ghost out0 = rows_view(out@);
            out.push(row);
            proof {
                assert(rows_view(out@) =~= out0.push(row@));
                assert(rv.blocks[j as int] == rec.block_ivls@[j as int]@);
                assert(row@ =~= spec_record_rows(rv)[j as int]);
                assert(spec_record_rows(rv).take(j as int + 1) =~= spec_record_rows(rv).take(
                    j as int,
                ).push(spec_record_rows(rv)[j as int]));
                assert(out0.push(row@) =~= out_rec0 + spec_record_rows(rv).take(j as int + 1));
            }
            j = j + 1;
        }
        proof {
            assert(spec_record_rows(rv).take(rec.block_ivls@.len() as int) =~= spec_record_rows(
                rv,
            ));
            assert(out_rec0 + spec_record_rows(rv) + spec_view_rows(rsv.skip(i as int + 1))
                =~= out_rec0 + (spec_record_rows(rv) + spec_view_rows(rsv.skip(i as int + 1))));
        }
        i = i + 1;
    }
    proof {
        assert(rsv.skip(records@.len() as int) =~= Seq::<RecordV>::empty());
        assert(rows_view(out@) + Seq::<ViewRowV>::empty() =~= rows_view(out@));
    }
    out
}

} // verus!
