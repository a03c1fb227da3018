use chunk_tally::agg::Aggregate;
use chunk_tally::mapping::Mapping;
use chunk_tally::pipeline::{run_pipeline, reduce, finalize, PipelineError};
use chunk_tally::splitter::realign_block;
use chunk_tally::tally::{tally_chunk, ParseError};

fn run(data: &[u8], block_size: usize, margin: usize) -> Result<Mapping, PipelineError> {
    let v: Vec<u8> = data.to_vec();
    run_pipeline(&v, block_size, margin)
}

fn agg_of(m: &Mapping, key: &[u8]) -> Aggregate {
    let k: Vec<u8> = key.to_vec();
    *m.get(&k).expect("key should be present")
}

#[test]
fn empty_input_yields_empty_mapping() {
    let m = run(b"", 8, 8).expect("empty input is not an error");
    assert_eq!(m.key_count(), 0);
}

#[test]
fn single_record() {
    let m = run(b"Paris;21.5\n", 4, 64).expect("single record parses");
    assert_eq!(m.key_count(), 1);
    let a = agg_of(&m, b"Paris");
    assert_eq!(a.low, 215);
    assert_eq!(a.high, 215);
    assert_eq!(a.count, 1);
    assert_eq!(a.sum, 215);
    assert_eq!(a.mean_tenths(), 215);
}

#[test]
fn two_records_same_key_one_chunk() {
    let m = run(b"Paris;10.0\nParis;30.0\n", 1024, 1024).expect("two records parse");
    let a = agg_of(&m, b"Paris");
    assert_eq!(a.low, 100);
    assert_eq!(a.high, 300);
    assert_eq!(a.count, 2);
    assert_eq!(a.sum, 400);
    assert_eq!(a.mean_tenths(), 200);
}

#[test]
fn two_records_same_key_split_chunks() {
    // a tiny block size forces the two records into different chunks
    let m = run(b"Paris;10.0\nParis;30.0\n", 1, 16).expect("two records parse");
    let a = agg_of(&m, b"Paris");
    assert_eq!(a.low, 100);
    assert_eq!(a.high, 300);
    assert_eq!(a.count, 2);
    assert_eq!(a.mean_tenths(), 200);
}

#[test]
fn chunking_invariance_over_many_block_sizes() {
    let data: &[u8] = b"Oslo;-3.5\nParis;21.5\nOslo;2.0\nRome;30.0\nParis;19.5\nRome;28.5\n";
    let whole = run(data, data.len(), 64).expect("whole-file run");
    for bs in 1..data.len() + 4 {
        let m = run(data, bs, 64).expect("chunked run");
        assert_eq!(m.key_count(), whole.key_count());
        for key in [&b"Oslo"[..], &b"Paris"[..], &b"Rome"[..]] {
            let a = agg_of(&m, key);
            let b = agg_of(&whole, key);
            assert_eq!(a.low, b.low);
            assert_eq!(a.high, b.high);
            assert_eq!(a.sum, b.sum);
            assert_eq!(a.count, b.count);
        }
    }
}

#[test]
fn uneven_final_chunk_matches_exact_multiple() {
    // 22 bytes of records: block size 7 leaves a ragged final block,
    // block size 11 divides it exactly; both agree
    let data: &[u8] = b"Aa;10.0\nBb;2.0\nAa;4.0\n";
    let ragged = run(data, 7, 32).expect("ragged run");
    let exact = run(data, 11, 32).expect("exact run");
    for key in [&b"Aa"[..], &b"Bb"[..]] {
        let a = agg_of(&ragged, key);
        let b = agg_of(&exact, key);
        assert_eq!(a.low, b.low);
        assert_eq!(a.high, b.high);
        assert_eq!(a.sum, b.sum);
        assert_eq!(a.count, b.count);
    }
}

#[test]
fn missing_delimiter_fails_whole_pipeline() {
    let r = run(b"Paris;1.0\nRome30.0\nOslo;2.0\n", 1024, 1024);
    assert_eq!(r.err(), Some(PipelineError::Parse(ParseError::MissingDelimiter)));
}

#[test]
fn bad_value_fails_whole_pipeline() {
    let r = run(b"Paris;warm\n", 1024, 1024);
    assert_eq!(r.err(), Some(PipelineError::Parse(ParseError::BadValue)));
}

#[test]
fn margin_too_small_is_an_alignment_error() {
    // the first record is far longer than block size plus margin
    let r = run(b"Somewhere-Very-Long;1.0\nB;2.0\n", 1, 2);
    assert_eq!(r.err(), Some(PipelineError::Alignment));
}

#[test]
fn negative_values() {
    let m = run(b"Oslo;-12.5\nOslo;-2.0\n", 1024, 1024).expect("negative values parse");
    let a = agg_of(&m, b"Oslo");
    assert_eq!(a.low, -125);
    assert_eq!(a.high, -20);
    assert_eq!(a.sum, -145);
    assert_eq!(a.count, 2);
    assert_eq!(a.mean_tenths(), -72);
}

#[test]
fn integer_values_without_fraction() {
    let m = run(b"K;3\nK;-4\n", 1024, 1024).expect("integer values parse");
    let a = agg_of(&m, b"K");
    assert_eq!(a.low, -40);
    assert_eq!(a.high, 30);
    assert_eq!(a.sum, -10);
}

#[test]
fn mean_of_identical_values_is_exact() {
    let m = run(b"X;7.3\nX;7.3\nX;7.3\n", 1024, 1024).expect("identical values parse");
    let a = agg_of(&m, b"X");
    assert_eq!(a.mean_tenths(), 73);
}

#[test]
fn mean_rounds_toward_zero() {
    let m = run(b"X;1.0\nX;2.0\nX;2.0\n", 1024, 1024).expect("values parse");
    let a = agg_of(&m, b"X");
    assert_eq!(a.sum, 50);
    assert_eq!(a.count, 3);
    assert_eq!(a.mean_tenths(), 16);
}

#[test]
fn trailing_partial_record_is_ignored() {
    let m = run(b"A;1.0\nB;2.0", 1024, 1024).expect("run succeeds");
    assert_eq!(m.key_count(), 1);
    let a = agg_of(&m, b"A");
    assert_eq!(a.low, 10);
}

#[test]
fn value_with_too_many_digits_is_rejected() {
    let r = run(b"K;1234567890123456\n", 1024, 1024);
    assert_eq!(r.err(), Some(PipelineError::Parse(ParseError::BadValue)));
}

#[test]
fn fifteen_digit_value_is_accepted() {
    let m = run(b"K;999999999999999.9\n", 1024, 1024).expect("fifteen digits parse");
    let a = agg_of(&m, b"K");
    assert_eq!(a.high, 9_999_999_999_999_999);
}

#[test]
fn malformed_value_shapes_are_rejected() {
    for bad in [
        &b"K;\n"[..],      // empty value
        &b"K;1.\n"[..],    // dot with no fraction digit
        &b"K;1.23\n"[..],  // more than one fraction digit
        &b"K;+1\n"[..],    // explicit plus sign
        &b"K;--1\n"[..],   // doubled sign
        &b"K; 1\n"[..],    // leading space
        &b"K;.5\n"[..],    // no integer digits
        &b"K;-\n"[..],     // sign alone
    ] {
        let r = run(bad, 1024, 1024);
        assert_eq!(r.err(), Some(PipelineError::Parse(ParseError::BadValue)));
    }
}

#[test]
fn leading_zeros_are_accepted() {
    let m = run(b"K;007.5\nK;0.0\n", 1024, 1024).expect("leading zeros parse");
    let a = agg_of(&m, b"K");
    assert_eq!(a.low, 0);
    assert_eq!(a.high, 75);
}

#[test]
fn tally_chunk_covers_exactly_the_complete_records() {
    let m = tally_chunk(b"A;1.5\nB;2.5\nA;0.5\n".to_vec()).expect("chunk parses");
    let a = agg_of(&m, b"A");
    assert_eq!(a.low, 5);
    assert_eq!(a.high, 15);
    assert_eq!(a.count, 2);
    let b = agg_of(&m, b"B");
    assert_eq!(b.low, 25);
    assert_eq!(b.count, 1);
}

#[test]
fn merge_is_commutative_on_disjoint_and_shared_keys() {
    let part_a = tally_chunk(b"A;1.0\nB;5.0\n".to_vec()).expect("first partial");
    let part_b = tally_chunk(b"B;3.0\nC;2.0\n".to_vec()).expect("second partial");
    let mut left = Mapping::new();
    left.merge_from(&part_a);
    left.merge_from(&part_b);
    let mut right = Mapping::new();
    right.merge_from(&part_b);
    right.merge_from(&part_a);
    for key in [&b"A"[..], &b"B"[..], &b"C"[..]] {
        let a = agg_of(&left, key);
        let b = agg_of(&right, key);
        assert_eq!(a.low, b.low);
        assert_eq!(a.high, b.high);
        assert_eq!(a.sum, b.sum);
        assert_eq!(a.count, b.count);
    }
    let b = agg_of(&left, b"B");
    assert_eq!(b.low, 30);
    assert_eq!(b.high, 50);
    assert_eq!(b.count, 2);
}

#[test]
fn reduce_tolerates_zero_and_one_input() {
    let none: Vec<Mapping> = Vec::new();
    let r0 = reduce(&none);
    assert_eq!(r0.key_count(), 0);

    let p = tally_chunk(b"A;1.0\n".to_vec()).expect("partial");
    let one = vec![p];
    let r1 = reduce(&one);
    let a = agg_of(&r1, b"A");
    assert_eq!(a.low, 10);
    assert_eq!(a.count, 1);
}

#[test]
fn realign_carries_partial_record_forward() {
    let (chunk, carry) = realign_block(b"A;1.0\nB;2".to_vec(), true).expect("block realigns");
    assert_eq!(chunk, b"A;1.0\n".to_vec());
    assert_eq!(carry, b"B;2".to_vec());

    let (last, rest) = realign_block(b"B;2.0\n".to_vec(), false).expect("final block");
    assert_eq!(last, b"B;2.0\n".to_vec());
    assert!(rest.is_empty());

    assert!(realign_block(b"no-newline-here".to_vec(), true).is_err());
}

#[test]
fn finalize_reports_every_key_once() {
    let m = run(b"Paris;10.0\nOslo;-4.0\nParis;30.0\n", 1024, 1024).expect("run succeeds");
    let stats = finalize(&m);
    assert_eq!(stats.len(), 2);
    let paris = stats.iter().find(|s| s.key == b"Paris".to_vec()).expect("Paris present");
    assert_eq!(paris.low, 100);
    assert_eq!(paris.high, 300);
    assert_eq!(paris.mean_tenths, 200);
    assert_eq!(paris.count, 2);
    let oslo = stats.iter().find(|s| s.key == b"Oslo".to_vec()).expect("Oslo present");
    assert_eq!(oslo.mean_tenths, -40);
}

#[test]
fn empty_key_is_tolerated() {
    let m = run(b";5.0\n", 1024, 1024).expect("empty key parses");
    let a = agg_of(&m, b"");
    assert_eq!(a.high, 50);
}
