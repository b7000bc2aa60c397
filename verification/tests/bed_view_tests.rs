use crussmap::bed::BedRecord;
use crussmap::parser::{ChainRecords, Strand};
use crussmap::view::view_chain;

fn bed(chrom: &str, start: usize, end: usize, aux: &[&str]) -> BedRecord {
    BedRecord {
        chrom: chrom.as_bytes().to_vec(),
        start,
        end,
        aux: aux.iter().map(|a| a.as_bytes().to_vec()).collect(),
    }
}

#[test]
fn bed_strand_column_is_flexible() {
    assert!(matches!(bed("chr1", 0, 10, &["x", "0", "+"]).strand(), Strand::Positive));
    assert!(matches!(bed("chr1", 0, 10, &["x", "0", "-"]).strand(), Strand::Negative));
    // absent or unrecognizable strands fall back to forward
    assert!(matches!(bed("chr1", 0, 10, &[]).strand(), Strand::Positive));
    assert!(matches!(bed("chr1", 0, 10, &["x", "0", "?"]).strand(), Strand::Positive));
    assert!(matches!(bed("chr1", 0, 10, &["x", "0", "++"]).strand(), Strand::Positive));
}

#[test]
fn bed_aux_counts_from_the_chromosome_column() {
    let r = bed("chr1", 5, 9, &["name", "17", "-"]);
    assert_eq!(r.aux(3).unwrap(), &b"name".to_vec());
    assert_eq!(r.aux(4).unwrap(), &b"17".to_vec());
    assert_eq!(r.aux(5).unwrap(), &b"-".to_vec());
    assert!(r.aux(6).is_none());
}

#[test]
fn bed_into_region_carries_range_and_strand() {
    let r = bed("chr7", 55, 99, &["n", "0", "-"]);
    let region = r.into_region();
    assert_eq!(region.chrom, b"chr7".to_vec());
    assert_eq!(region.start, 55);
    assert_eq!(region.end, 99);
    assert!(matches!(region.strand, Strand::Negative));
}

#[test]
fn view_rows_list_every_block_in_order() {
    let text = "chain 5 tA 1000 + 100 300 qA 2000 - 400 600 3\n50 10 40\n100\n\
                chain 6 tB 500 + 0 20 qB 800 + 30 50 4\n20\n";
    let mut it = ChainRecords::new(text.as_bytes().to_vec());
    let mut records = Vec::new();
    while let Some(r) = it.next() {
        records.push(r.unwrap());
    }
    let rows = view_chain(&records);
    assert_eq!(rows.len(), 3);
    // first record, first block: query mirrored to the forward sense
    assert_eq!(rows[0].target_name, b"tA".to_vec());
    assert_eq!((rows[0].target_start, rows[0].target_end), (100, 150));
    assert!(matches!(rows[0].target_strand, Strand::Positive));
    assert_eq!(rows[0].query_name, b"qA".to_vec());
    assert_eq!((rows[0].query_start, rows[0].query_end), (1550, 1600));
    assert!(matches!(rows[0].query_strand, Strand::Negative));
    // first record, second block: cursors advanced by size + gaps
    assert_eq!((rows[1].target_start, rows[1].target_end), (160, 260));
    assert_eq!((rows[1].query_start, rows[1].query_end), (1410, 1510));
    // second record's only block
    assert_eq!(rows[2].target_name, b"tB".to_vec());
    assert_eq!((rows[2].target_start, rows[2].target_end), (0, 20));
    assert_eq!(rows[2].query_name, b"qB".to_vec());
    assert_eq!((rows[2].query_start, rows[2].query_end), (30, 50));
    assert!(matches!(rows[2].query_strand, Strand::Positive));
}
