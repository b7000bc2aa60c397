use crussmap::interval::{find_in_lapper, get_lapper_hashmap, intersect_two_region, Region};
use crussmap::parser::Strand;

fn build(text: &str) -> crussmap::interval::LapperMap {
    let (map, errs) = get_lapper_hashmap(text.as_bytes().to_vec());
    assert!(errs.is_empty());
    map
}

fn region(chrom: &str, start: usize, end: usize, strand: Strand) -> Region {
    Region { chrom: chrom.as_bytes().to_vec(), start, end, strand }
}

#[test]
fn forward_offset_is_exact() {
    // block target [100,200) -> query [500,600), both forward
    let map = build("chain 0 tA 1000 + 100 200 qA 1000 + 500 600 1\n100\n");
    let q = region("tA", 150, 170, Strand::Positive);
    let matches = find_in_lapper(&map, &q);
    assert_eq!(matches.len(), 1);
    let (src, dst) = &matches[0];
    assert_eq!(src.chrom, b"tA".to_vec());
    assert_eq!(src.start, 150);
    assert_eq!(src.end, 170);
    assert!(matches!(src.strand, Strand::Positive));
    assert_eq!(dst.chrom, b"qA".to_vec());
    assert_eq!(dst.start, 550);
    assert_eq!(dst.end, 570);
    assert!(matches!(dst.strand, Strand::Positive));
}

#[test]
fn reverse_block_maps_from_far_end() {
    // block target [100,200) -> forward-normalized query [500,600), tagged reverse:
    // the raw record walks the query cursor from 400 on the minus strand
    let map = build("chain 0 tA 1000 + 100 200 qA 1000 - 400 500 2\n100\n");
    let q = region("tA", 100, 120, Strand::Positive);
    let matches = find_in_lapper(&map, &q);
    assert_eq!(matches.len(), 1);
    let (src, dst) = &matches[0];
    assert_eq!(src.start, 100);
    assert_eq!(src.end, 120);
    // left offset 0, span 20: out_end = 600 - 0, out_start = 600 - 20
    assert_eq!(dst.start, 580);
    assert_eq!(dst.end, 600);
    assert!(matches!(dst.strand, Strand::Negative));
}

#[test]
fn missing_chromosome_is_unmapped_not_an_error() {
    let map = build("chain 0 tA 1000 + 100 200 qA 1000 + 500 600 1\n100\n");
    let q = region("tZ", 150, 170, Strand::Positive);
    assert_eq!(find_in_lapper(&map, &q).len(), 0);
}

#[test]
fn no_overlap_is_unmapped() {
    let map = build("chain 0 tA 1000 + 100 200 qA 1000 + 500 600 1\n100\n");
    let q = region("tA", 300, 400, Strand::Positive);
    assert_eq!(find_in_lapper(&map, &q).len(), 0);
}

#[test]
fn split_query_yields_one_pair_per_block() {
    // two disjoint blocks [100,150) and [200,250), and a third far away
    let map = build(
        "chain 0 tA 1000 + 100 250 qA 1000 + 500 650 1\n50 50 50\n50\n\
         chain 0 tA 1000 + 400 450 qB 1000 + 0 50 2\n50\n",
    );
    let q = region("tA", 120, 220, Strand::Positive);
    let matches = find_in_lapper(&map, &q);
    // match count equals the number of intersecting blocks exactly
    assert_eq!(matches.len(), 2);
    // each pair independently satisfies the offset law
    let (s0, d0) = &matches[0];
    assert_eq!((s0.start, s0.end), (120, 150));
    assert_eq!((d0.start, d0.end), (520, 550));
    let (s1, d1) = &matches[1];
    assert_eq!((s1.start, s1.end), (200, 220));
    assert_eq!((d1.start, d1.end), (600, 620));
    assert_eq!(d1.chrom, b"qA".to_vec());
}

#[test]
fn records_sharing_a_chromosome_aggregate_into_one_index() {
    // two records target the same sequence; a query must see both
    let map = build(
        "chain 0 tA 1000 + 100 150 qA 1000 + 500 550 1\n50\n\
         chain 0 tA 1000 + 200 250 qB 1000 + 700 750 2\n50\n",
    );
    let q = region("tA", 120, 220, Strand::Positive);
    let matches = find_in_lapper(&map, &q);
    assert_eq!(matches.len(), 2);
    assert_eq!(matches[0].1.chrom, b"qA".to_vec());
    assert_eq!(matches[1].1.chrom, b"qB".to_vec());
}

#[test]
fn strand_composition_through_the_engine() {
    let fwd_block = "chain 0 tA 1000 + 100 200 qA 1000 + 500 600 1\n100\n";
    let rev_block = "chain 0 tA 1000 + 100 200 qA 1000 - 400 500 2\n100\n";
    // forward query against forward block: forward
    let m = find_in_lapper(&build(fwd_block), &region("tA", 150, 160, Strand::Positive));
    assert!(matches!(m[0].1.strand, Strand::Positive));
    // forward query against reverse block: reverse
    let m = find_in_lapper(&build(rev_block), &region("tA", 150, 160, Strand::Positive));
    assert!(matches!(m[0].1.strand, Strand::Negative));
    // reverse query against reverse block: forward
    let m = find_in_lapper(&build(rev_block), &region("tA", 150, 160, Strand::Negative));
    assert!(matches!(m[0].1.strand, Strand::Positive));
    // reverse query against forward block: reverse
    let m = find_in_lapper(&build(fwd_block), &region("tA", 150, 160, Strand::Negative));
    assert!(matches!(m[0].1.strand, Strand::Negative));
}

#[test]
fn round_trip_through_the_inverse_mapping_forward() {
    // block tA [100,200) -> qA [500,600), forward; inverse swaps the roles
    let map = build("chain 0 tA 1000 + 100 200 qA 1000 + 500 600 1\n100\n");
    let inv = build("chain 0 qA 1000 + 500 600 tA 1000 + 100 200 1\n100\n");
    let q = region("tA", 130, 180, Strand::Positive);
    let m = find_in_lapper(&map, &q);
    assert_eq!(m.len(), 1);
    let mapped = &m[0].1;
    assert_eq!((mapped.start, mapped.end), (530, 580));
    let back = find_in_lapper(&inv, mapped);
    assert_eq!(back.len(), 1);
    let restored = &back[0].1;
    assert_eq!(restored.chrom, b"tA".to_vec());
    assert_eq!((restored.start, restored.end), (130, 180));
    assert!(matches!(restored.strand, Strand::Positive));
}

#[test]
fn round_trip_through_the_inverse_mapping_reverse() {
    // block tA [100,200) -> forward-normalized qA [500,600), tagged reverse;
    // the inverse record walks tA from 800 on the minus strand
    let map = build("chain 0 tA 1000 + 100 200 qA 1000 - 400 500 1\n100\n");
    let inv = build("chain 0 qA 1000 + 500 600 tA 1000 - 800 900 1\n100\n");
    let q = region("tA", 100, 120, Strand::Positive);
    let m = find_in_lapper(&map, &q);
    assert_eq!(m.len(), 1);
    let mapped = &m[0].1;
    assert_eq!((mapped.start, mapped.end), (580, 600));
    assert!(matches!(mapped.strand, Strand::Negative));
    let back = find_in_lapper(&inv, mapped);
    assert_eq!(back.len(), 1);
    let restored = &back[0].1;
    assert_eq!(restored.chrom, b"tA".to_vec());
    assert_eq!((restored.start, restored.end), (100, 120));
    // reverse composed with reverse is forward: the original strand
    assert!(matches!(restored.strand, Strand::Positive));
}

#[test]
fn parse_errors_are_reported_alongside_the_index() {
    let (map, errs) = get_lapper_hashmap(
        "chain 0 tA 1000 + 100 200 qA 1000 + 500 600 1\n100\n\
         chain nonsense\n\
         chain 0 tB 1000 + 0 50 qC 1000 + 0 50 2\n50\n"
            .as_bytes()
            .to_vec(),
    );
    assert_eq!(errs.len(), 1);
    let q = region("tB", 0, 10, Strand::Positive);
    assert_eq!(find_in_lapper(&map, &q).len(), 1);
}

#[test]
fn intersect_two_region_clips_exactly() {
    assert_eq!(intersect_two_region(100, 200, 150, 300), Some((150, 200)));
    assert_eq!(intersect_two_region(150, 300, 100, 200), Some((150, 200)));
    assert_eq!(intersect_two_region(0, 10, 20, 30), None);
    assert_eq!(intersect_two_region(20, 30, 0, 10), None);
    assert_eq!(intersect_two_region(0, 10, 10, 20), Some((10, 10)));
}

#[test]
fn empty_query_inside_a_block_maps_to_an_empty_range() {
    let map = build("chain 0 tA 1000 + 100 200 qA 1000 + 500 600 1\n100\n");
    let q = region("tA", 150, 150, Strand::Positive);
    let matches = find_in_lapper(&map, &q);
    assert_eq!(matches.len(), 1);
    assert_eq!((matches[0].0.start, matches[0].0.end), (150, 150));
    assert_eq!((matches[0].1.start, matches[0].1.end), (550, 550));
}
