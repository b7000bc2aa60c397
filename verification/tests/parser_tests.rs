use crussmap::parser::{ChainRecords, ParseError, Strand};

fn parse_all(
    text: &str,
) -> Vec<Result<crussmap::parser::ChainRecord, ParseError>> {
    let mut it = ChainRecords::new(text.as_bytes().to_vec());
    let mut out = Vec::new();
    while let Some(r) = it.next() {
        out.push(r);
    }
    out
}

#[test]
fn single_forward_record() {
    let text = "chain 100 t1 1000 + 100 300 q1 2000 + 500 700 7\n50 10 10\n100\n";
    let rs = parse_all(text);
    assert_eq!(rs.len(), 1);
    let rec = rs[0].as_ref().unwrap();
    assert_eq!(rec.header.target.name, b"t1".to_vec());
    assert_eq!(rec.header.target.size, 1000);
    assert!(matches!(rec.header.target.strand, Strand::Positive));
    assert_eq!(rec.header.target.start, 100);
    assert_eq!(rec.header.target.end, 300);
    assert_eq!(rec.header.query.name, b"q1".to_vec());
    assert_eq!(rec.header.query.size, 2000);
    assert_eq!(rec.header.query.start, 500);
    assert_eq!(rec.header.query.end, 700);
    assert_eq!(rec.header.chain_id, 7);
    assert_eq!(rec.header.score, b"100".to_vec());
    assert_eq!(rec.block_ivls.len(), 2);
    // first block: target [100,150), query [500,550)
    assert_eq!(rec.block_ivls[0].start, 100);
    assert_eq!(rec.block_ivls[0].stop, 150);
    assert_eq!(rec.block_ivls[0].val.start, 500);
    assert_eq!(rec.block_ivls[0].val.end, 550);
    // cursors advance by size + gaps: second block target [160,260), query [560,660)
    assert_eq!(rec.block_ivls[1].start, 160);
    assert_eq!(rec.block_ivls[1].stop, 260);
    assert_eq!(rec.block_ivls[1].val.start, 560);
    assert_eq!(rec.block_ivls[1].val.end, 660);
    assert_eq!(rec.block_ivls[1].val.name, b"q1".to_vec());
}

#[test]
fn colinearity_of_parsed_blocks() {
    let text = "chain 4900 chrY 58368225 + 25985403 25985638 chr5 151006098 - 43257292 43257528 1\n9 1 0\n10 0 5\n61 4 0\n16 0 4\n42 3 0\n16 0 8\n14 1 0\n3 7 0\n48\n";
    let rs = parse_all(text);
    assert_eq!(rs.len(), 1);
    let rec = rs[0].as_ref().unwrap();
    assert_eq!(rec.block_ivls.len(), 9);
    for b in &rec.block_ivls {
        // target and query ranges of every block have equal length
        assert_eq!(b.stop - b.start, b.val.end - b.val.start);
        assert!(b.start <= b.stop);
        assert!(b.val.start <= b.val.end);
    }
}

#[test]
fn reverse_query_is_mirrored() {
    let text = "chain 1 t1 1000 + 100 200 q1 1000 - 100 200 2\n100\n";
    let rs = parse_all(text);
    assert_eq!(rs.len(), 1);
    let rec = rs[0].as_ref().unwrap();
    assert_eq!(rec.block_ivls.len(), 1);
    let b = &rec.block_ivls[0];
    assert_eq!(b.start, 100);
    assert_eq!(b.stop, 200);
    // reported in the forward sense of the query: size - x mirroring
    assert_eq!(b.val.start, 800);
    assert_eq!(b.val.end, 900);
    assert!(matches!(b.val.strand, Strand::Negative));
}

#[test]
fn resync_after_malformed_header() {
    let text = "chain 1 t1 1000 + 0 10 q1 1000 + 0 10 1\n10\n\
                chain bogus\n17 3\n\
                chain 2 t2 1000 + 0 10 q2 1000 + 0 10 3\n10\n";
    let rs = parse_all(text);
    assert_eq!(rs.len(), 3);
    assert!(rs[0].is_ok());
    assert_eq!(rs[1].as_ref().unwrap_err(), &ParseError::BadHeader);
    let rec = rs[2].as_ref().unwrap();
    assert_eq!(rec.header.target.name, b"t2".to_vec());
    assert_eq!(rs.iter().filter(|r| r.is_err()).count(), 1);
    assert_eq!(rs.iter().filter(|r| r.is_ok()).count(), 2);
}

#[test]
fn bad_block_line() {
    let text = "chain 1 t1 1000 + 0 10 q1 1000 + 0 10 1\nxyz\n";
    let rs = parse_all(text);
    assert_eq!(rs.len(), 1);
    assert_eq!(rs[0].as_ref().unwrap_err(), &ParseError::BadBlock);
}

#[test]
fn header_without_blocks() {
    let text = "chain 1 t1 1000 + 0 10 q1 1000 + 0 10 1\n";
    let rs = parse_all(text);
    assert_eq!(rs.len(), 1);
    assert_eq!(rs[0].as_ref().unwrap_err(), &ParseError::BadBlock);
}

#[test]
fn header_field_errors() {
    let one_bad_header = |text: &str| {
        let rs = parse_all(text);
        assert_eq!(rs.len(), 1);
        assert_eq!(rs[0].as_ref().unwrap_err(), &ParseError::BadHeader);
    };
    // eleven fields
    one_bad_header("chain 1 t1 1000 + 0 10 q1 1000 + 0 10\n5\n");
    // a strand that is neither + nor -
    one_bad_header("chain 1 t1 1000 x 0 10 q1 1000 + 0 10 1\n5\n");
    // a score that is not a number
    one_bad_header("chain abc t1 1000 + 0 10 q1 1000 + 0 10 1\n5\n");
    // a numeric field too large for the machine
    one_bad_header("chain 1 t1 99999999999999999999999999 + 0 10 q1 1000 + 0 10 1\n5\n");
    // an extent beyond the sequence size
    one_bad_header("chain 1 t1 1000 + 0 2000 q1 1000 + 0 10 1\n5\n");
}

#[test]
fn signed_fraction_exponent_scores_are_accepted() {
    let rs = parse_all("chain -12.5e3 t1 1000 + 0 10 q1 1000 + 0 10 1\n10\n");
    assert_eq!(rs.len(), 1);
    assert_eq!(rs[0].as_ref().unwrap().header.score, b"-12.5e3".to_vec());
}

#[test]
fn empty_and_blank_inputs_yield_nothing() {
    assert_eq!(parse_all("").len(), 0);
    assert_eq!(parse_all("\n\n   \n\t\n").len(), 0);
}

#[test]
fn blank_lines_between_records_are_tolerated() {
    let text = "\nchain 1 t1 1000 + 0 10 q1 1000 + 0 10 1\n10\n\n\n\
                chain 2 t1 1000 + 20 30 q1 1000 + 20 30 2\n10\n\n";
    let rs = parse_all(text);
    assert_eq!(rs.len(), 2);
    assert!(rs[0].is_ok() && rs[1].is_ok());
}

#[test]
fn strand_reverse_is_an_involution() {
    assert!(matches!(Strand::Positive.reverse(), Strand::Negative));
    assert!(matches!(Strand::Negative.reverse(), Strand::Positive));
    assert!(matches!(Strand::Positive.reverse().reverse(), Strand::Positive));
    assert!(matches!(Strand::Negative.reverse().reverse(), Strand::Negative));
}

#[test]
fn two_field_block_line_defaults_the_query_gap() {
    let text = "chain 1 t1 1000 + 0 120 q1 1000 + 0 120 1\n50 20\n50\n";
    let rs = parse_all(text);
    let rec = rs[0].as_ref().unwrap();
    assert_eq!(rec.block_ivls.len(), 2);
    // the target cursor skips the gap, the query cursor does not
    assert_eq!((rec.block_ivls[1].start, rec.block_ivls[1].stop), (70, 120));
    assert_eq!((rec.block_ivls[1].val.start, rec.block_ivls[1].val.end), (50, 100));
}

#[test]
fn reverse_cursor_beyond_the_sequence_is_a_bad_block() {
    // the walk would leave [0, querySize) on the minus strand
    let text = "chain 1 t1 1000 + 0 10 q1 5 - 0 5 1\n10\n";
    let rs = parse_all(text);
    assert_eq!(rs.len(), 1);
    assert_eq!(rs[0].as_ref().unwrap_err(), &ParseError::BadBlock);
}
