//! Region-list records: the tab-separated `chrom start end [aux...]` rows a
//! liftover driver feeds to the engine, with their flexible strand column.

use crate::interval::{Region, RegionV};
use crate::parser::{copy_bytes, Strand};
use vstd::prelude::*;

verus! {

/// One region-list record: a half-open range on a named sequence, and the
/// auxiliary columns after it (the record's fourth column onward).
#[derive(Debug, Clone)]
pub struct BedRecord {
    pub chrom: Vec<u8>,
    pub start: usize,
    pub end: usize,
    pub aux: Vec<Vec<u8>>,
}

impl BedRecord {
    /// The strand the record declares: `+` or `-` in its sixth column.
    /// Any other value, or a missing column, counts as forward.
    pub open spec fn spec_strand(self) -> Strand {
        if self.aux@.len() > 2 && self.aux@[2]@ == seq![43u8] {
            Strand::Positive
        } else if self.aux@.len() > 2 && self.aux@[2]@ == seq![45u8] {
            Strand::Negative
        } else {
            Strand::Positive
        }
    }

    /// Read the strand column, defaulting to forward.
    pub fn strand(&self) -> (r: Strand)
        ensures
            r == self.spec_strand(),
    {
        match self.aux(5) {
            Some(v) => {
                if v.len() == 1 && v[0] == 43 {
                    proof {
                        assert(self.aux@[2]@ =~= seq![43u8]);
                    }
                    Strand::Positive
                } else if v.len() == 1 && v[0] == 45 {
                    proof {
                        assert(self.aux@[2]@ =~= seq![45u8]);
                    }
                    Strand::Negative
                } else {
                    proof {
                        assert(self.aux@[2]@ != seq![43u8] && self.aux@[2]@ != seq![45u8]) by {
                            assert(seq![43u8].len() == 1 && seq![45u8].len() == 1);
                            if v@.len() == 1 {
                                assert(v@[0] != 43 && v@[0] != 45);
                            }
                        }
                    }
                    Strand::Positive
                }
            },
            None => Strand::Positive,
        }
    }

    /// Access an auxiliary column by the record's overall column index,
    /// counting the first (the sequence name) as zero; the auxiliary
    /// columns start at index three.
    pub fn aux(&self, i: usize) -> (r: Option<&Vec<u8>>)
        requires
            i >= 3,
        ensures
            match r {
                Some(v) => i - 3 < self.aux@.len() && v@ == self.aux@[i - 3]@,
                None => i - 3 >= self.aux@.len(),
            },
    {
        let j = i - 3;
        if j < self.aux.len() {
            Some(&self.aux[j])
        } else {
            None
        }
    }

    /// The record's range as a query region, on the strand it declares.
    pub fn into_region(&self) -> (r: Region)
        ensures
            r@ == (RegionV {
                chrom: self.chrom@,
                start: self.start as int,
                end: self.end as int,
                strand: self.spec_strand(),
            }),
    {
        let r = Region {
            chrom: copy_bytes(&self.chrom),
            start: self.start,
            end: self.end,
            strand: self.strand(),
        };
        proof {
            assert(r@ =~= (RegionV {
                chrom: self.chrom@,
                start: self.start as int,
                end: self.end as int,
                strand: self.spec_strand(),
            }));
        }
        r
    }
}

} // verus!
