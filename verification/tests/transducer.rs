use epoch_rewrite::codec::emit_date;
use epoch_rewrite::codec::emit_date_or_buffer;
use epoch_rewrite::emit;
use epoch_rewrite::scanner::transduce_bytes;
use epoch_rewrite::scanner::Scanner;
use epoch_rewrite::writer::emit_buffer;

fn run(input: &[u8]) -> Vec<u8> {
    transduce_bytes(input)
}

fn run_chunks(chunks: &[&[u8]]) -> Vec<u8> {
    let mut scanner = Scanner::new();
    let mut out: Vec<u8> = Vec::new();
    for chunk in chunks {
        scanner.feed(chunk, &mut out);
    }
    scanner.finish(&mut out);
    out
}

#[test]
fn passthrough_no_digit_runs() {
    let input = b"hello, world! no numbers here...\n";
    assert_eq!(run(input), input.to_vec());
}

#[test]
fn passthrough_empty_input() {
    assert_eq!(run(b""), Vec::<u8>::new());
}

#[test]
fn range_boundary_low_is_token() {
    assert_eq!(run(b"1400000000"), b"2014-05-13T16:53:20Z".to_vec());
}

#[test]
fn range_boundary_high_is_token() {
    assert_eq!(run(b"1599999999"), b"2020-09-13T12:26:39Z".to_vec());
}

#[test]
fn range_below_is_literal() {
    assert_eq!(run(b"1399999999"), b"1399999999".to_vec());
}

#[test]
fn range_above_is_literal() {
    assert_eq!(run(b"1600000000"), b"1600000000".to_vec());
}

#[test]
fn nine_digit_run_is_literal() {
    assert_eq!(run(b"142345678"), b"142345678".to_vec());
}

#[test]
fn nineteen_digit_run_is_token() {
    assert_eq!(
        run(b"1420070400123456789"),
        b"2015-01-01T00:00:00.123456789Z".to_vec()
    );
}

#[test]
fn twenty_digit_run_is_literal() {
    assert_eq!(
        run(b"14200704001234567890"),
        b"14200704001234567890".to_vec()
    );
}

#[test]
fn adjacent_digits_extend_the_candidate() {
    // A qualifying 10-digit value with three more digits attached is one
    // 13-digit token, not a token followed by a literal.
    assert_eq!(run(b"1420070400123"), b"2015-01-01T00:00:00.123Z".to_vec());
    // Attached digits that push a qualifying 19-digit run past the cap make
    // the whole run a literal.
    assert_eq!(
        run(b"14200704001234567891"),
        b"14200704001234567891".to_vec()
    );
}

#[test]
fn round_trip_sample() {
    assert_eq!(
        run(b"ts=1420070400 done"),
        b"ts=2015-01-01T00:00:00Z done".to_vec()
    );
}

#[test]
fn fractional_sample() {
    assert_eq!(run(b"1420070400123"), b"2015-01-01T00:00:00.123Z".to_vec());
}

#[test]
fn fractional_leading_zeros_kept() {
    assert_eq!(
        run(b"14200704000099"),
        b"2015-01-01T00:00:00.0099Z".to_vec()
    );
}

#[test]
fn leap_day() {
    assert_eq!(run(b"1456704000"), b"2016-02-29T00:00:00Z".to_vec());
}

#[test]
fn non_match_adjacency() {
    // Letters are non-digit boundaries, so the 11 digits between them are
    // one candidate, which qualifies.
    assert_eq!(run(b"x14200704001y"), b"x2015-01-01T00:00:00.1Zy".to_vec());
}

#[test]
fn oversized_run_passes_through_verbatim() {
    // 25 consecutive digits exceed the 19-digit cap: the whole run is
    // emitted unchanged, with no partial or truncated token output.
    let input = b"1444444444444444444444444";
    assert_eq!(input.len(), 25);
    assert_eq!(run(input), input.to_vec());
}

#[test]
fn chunk_boundary_invariance() {
    let input = b"ts=1420070400123 x1456 999 1599999999end 14";
    let whole = run(input);
    for cut in 0..=input.len() {
        let (a, b) = input.split_at(cut);
        assert_eq!(run_chunks(&[a, b]), whole);
    }
    for cut1 in 0..=input.len() {
        let (a, rest) = input.split_at(cut1);
        for cut2 in 0..=rest.len() {
            let (b, c) = rest.split_at(cut2);
            assert_eq!(run_chunks(&[a, b, c]), whole);
        }
    }
    let singles: Vec<&[u8]> = input.chunks(1).collect();
    assert_eq!(run_chunks(&singles), whole);
}

#[test]
fn token_spanning_chunks() {
    assert_eq!(
        run_chunks(&[b"ts=14200", b"70400 done"]),
        b"ts=2015-01-01T00:00:00Z done".to_vec()
    );
}

#[test]
fn held_one_at_end_of_input() {
    assert_eq!(run(b"x1"), b"x1".to_vec());
}

#[test]
fn lone_one_between_literals() {
    assert_eq!(run(b"a1b"), b"a1b".to_vec());
}

#[test]
fn embedded_oversized_run_is_literal() {
    assert_eq!(
        run(b"ts=14200704001234567891end"),
        b"ts=14200704001234567891end".to_vec()
    );
}

#[test]
fn short_candidate_at_end_of_input() {
    assert_eq!(run(b"x14567"), b"x14567".to_vec());
}

#[test]
fn non_qualifying_run_is_literal() {
    assert_eq!(run(b"2223334445"), b"2223334445".to_vec());
    assert_eq!(run(b"1620070400"), b"1620070400".to_vec());
}

#[test]
fn tokens_between_literals() {
    assert_eq!(
        run(b"a=1420070400,b=1456704000;"),
        b"a=2015-01-01T00:00:00Z,b=2016-02-29T00:00:00Z;".to_vec()
    );
}

#[test]
fn emit_appends_one_byte() {
    let mut out: Vec<u8> = vec![1, 2];
    emit(&mut out, 3);
    assert_eq!(out, vec![1, 2, 3]);
}

#[test]
fn emit_buffer_flushes_and_clears() {
    let mut out: Vec<u8> = b"pre".to_vec();
    let mut buffer: Vec<u8> = b"1234".to_vec();
    emit_buffer(&mut out, &mut buffer);
    assert_eq!(out, b"pre1234".to_vec());
    assert!(buffer.is_empty());
}

#[test]
fn emit_date_formats_and_clears() {
    let mut out: Vec<u8> = Vec::new();
    let mut buffer: Vec<u8> = b"1420070400".to_vec();
    emit_date(&mut out, &mut buffer);
    assert_eq!(out, b"2015-01-01T00:00:00Z".to_vec());
    assert!(buffer.is_empty());
}

#[test]
fn emit_date_or_buffer_splits_on_length() {
    let mut out: Vec<u8> = Vec::new();
    let mut short: Vec<u8> = b"149".to_vec();
    emit_date_or_buffer(&mut out, &mut short);
    assert_eq!(out, b"149".to_vec());
    assert!(short.is_empty());

    let mut long: Vec<u8> = b"15999999990".to_vec();
    let mut out2: Vec<u8> = Vec::new();
    emit_date_or_buffer(&mut out2, &mut long);
    assert_eq!(out2, b"2020-09-13T12:26:39.0Z".to_vec());
    assert!(long.is_empty());
}
