use lzma::properties;
use lzma::reader::{BitTree, Cache, Length, Probabilities, Range, State, Stream, Window};
use lzma::{Error, Properties};

#[test]
fn header_is_parsed() {
    let mut s = Stream::new(vec![0x5d, 0x00, 0x00, 0x80, 0x00, 5, 0, 0, 0, 0, 0, 0, 0, 0xAA]);
    let p = properties::read(&mut s).unwrap();
    assert_eq!(
        p,
        Properties { lc: 3, lp: 0, pb: 2, dictionary: 0x0080_0000, uncompressed: Some(5) }
    );
    assert_eq!(s.into_remaining(), vec![0xAA]);
}

#[test]
fn header_with_unknown_length_and_small_dictionary() {
    let mut bytes = vec![224u8, 0x10, 0x00, 0x00, 0x00];
    bytes.extend_from_slice(&[0xff; 8]);
    let p = properties::read(&mut Stream::new(bytes)).unwrap();
    assert_eq!(p, Properties { lc: 8, lp: 4, pb: 4, dictionary: 4096, uncompressed: None });
}

#[test]
fn header_byte_too_large_is_invalid() {
    let mut bytes = vec![225u8];
    bytes.extend_from_slice(&[0; 12]);
    assert_eq!(properties::read(&mut Stream::new(bytes)), Err(Error::InvalidProperties));
    assert!(matches!(lzma::read(vec![255u8; 20]), Err(Error::InvalidProperties)));
}

#[test]
fn header_too_short_is_an_input_error() {
    assert_eq!(properties::read(&mut Stream::new(vec![])), Err(Error::IO));
    assert_eq!(properties::read(&mut Stream::new(vec![0x5d, 0, 0])), Err(Error::IO));
    assert!(matches!(lzma::read(vec![0x5d; 12]), Err(Error::IO)));
}

#[test]
fn little_endian_fields_are_read_in_order() {
    let bytes = vec![0u8, 0x01, 0x20, 0x03, 0x40, 0x05, 0x06, 0x07, 0x08, 0x09, 0x0a, 0x0b, 0x0c];
    let p = properties::read(&mut Stream::new(bytes)).unwrap();
    assert_eq!(p.dictionary, 0x4003_2001);
    assert_eq!(p.uncompressed, Some(0x0c0b_0a09_0807_0605));
    assert_eq!((p.lc, p.lp, p.pb), (0, 0, 0));
}

#[test]
fn state_transitions() {
    let literal: Vec<u32> = (0..12).map(|s| State::Literal(s).update()).collect();
    assert_eq!(literal, vec![0, 0, 0, 0, 1, 2, 3, 4, 5, 6, 4, 5]);
    let matched: Vec<u32> = (0..12).map(|s| State::Match(s).update()).collect();
    assert_eq!(matched, vec![7, 7, 7, 7, 7, 7, 7, 10, 10, 10, 10, 10]);
    let rep: Vec<u32> = (0..12).map(|s| State::Repetition(s).update()).collect();
    assert_eq!(rep, vec![8, 8, 8, 8, 8, 8, 8, 11, 11, 11, 11, 11]);
    let short: Vec<u32> = (0..12).map(|s| State::ShortRepetition(s).update()).collect();
    assert_eq!(short, vec![9, 9, 9, 9, 9, 9, 9, 11, 11, 11, 11, 11]);
}

#[test]
fn modeled_bit_zero_moves_probability_up() {
    let mut range = Range::new(0xffff_ffff, 0);
    let mut stream = Stream::new(vec![]);
    let mut p: u16 = 1024;
    assert_eq!(range.probabilistic(&mut stream, &mut p), Ok(false));
    assert_eq!(p, 1056);
    assert!(range.is_finished());
}

#[test]
fn modeled_bit_one_moves_probability_down() {
    let mut range = Range::new(0xffff_ffff, 0xffff_fff0);
    let mut stream = Stream::new(vec![]);
    let mut p: u16 = 1024;
    assert_eq!(range.probabilistic(&mut stream, &mut p), Ok(true));
    assert_eq!(p, 992);
    assert!(!range.is_finished());
}

#[test]
fn normalisation_without_input_is_corrupted() {
    // the range falls below 2^24 after this bit, and no byte is left to shift in
    let mut range = Range::new(0x0100_0000, 0);
    let mut stream = Stream::new(vec![]);
    let mut p: u16 = 1024;
    assert_eq!(range.probabilistic(&mut stream, &mut p), Err(Error::Corrupted));
}

#[test]
fn direct_bits_read_the_code() {
    // 0x60000000 lies in the upper half of 0x80000000, leaving 0x20000000; that lies in the
    // upper half of 0x40000000, leaving 0, which lies in the lower half of 0x20000000
    let mut range = Range::new(0x8000_0000, 0x6000_0000);
    let mut stream = Stream::new(vec![]);
    assert_eq!(range.direct(&mut stream, 3), Ok(0b110));
    assert!(range.is_finished());
}

#[test]
fn direct_bit_on_the_range_is_corrupted() {
    let mut range = Range::new(0x8000_0000, 0x7fff_ffff);
    let mut stream = Stream::new(vec![]);
    // halving gives 0x40000000; the code minus that equals it
    let mut other = Range::new(0x8000_0001, 0x8000_0000);
    assert_eq!(other.direct(&mut stream, 1), Err(Error::Corrupted));
    assert!(range.direct(&mut stream, 1).is_ok());
}

#[test]
fn seed_reads_control_byte_and_code() {
    let mut range = Range::empty();
    assert!(!range.is_seeded());
    let mut stream = Stream::new(vec![0, 0, 0, 0, 0]);
    assert_eq!(range.seed(&mut stream), Ok(()));
    assert!(range.is_seeded());
    assert!(range.is_finished());

    let mut bad = Range::empty();
    assert_eq!(bad.seed(&mut Stream::new(vec![1, 0, 0, 0, 0])), Err(Error::Corrupted));
    let mut full = Range::empty();
    assert_eq!(full.seed(&mut Stream::new(vec![0, 0xff, 0xff, 0xff, 0xff])), Err(Error::Corrupted));
    let mut short = Range::empty();
    assert_eq!(short.seed(&mut Stream::new(vec![0, 1])), Err(Error::IO));
}

#[test]
fn window_push_get_and_wrap() {
    let mut w = Window::new(4);
    let mut sink = Cache::new(100);
    assert!(w.is_empty());
    assert!(w.check(0));
    assert!(!w.check(1));
    for b in [1u8, 2, 3] {
        w.push(&mut sink, b);
    }
    assert_eq!((w.get(1), w.get(2), w.get(3), w.get(4)), (3, 2, 1, 0));
    assert_eq!(w.position(), 3);
    assert!(!w.is_full());
    assert!(w.check(3) && !w.check(4));
    w.push(&mut sink, 4);
    w.push(&mut sink, 5);
    assert!(w.is_full());
    assert_eq!(w.position(), 1);
    assert_eq!(w.total(), 5);
    assert_eq!((w.get(1), w.get(2), w.get(3), w.get(4)), (5, 4, 3, 2));
    assert!(w.check(3));
    assert_eq!(w.size(), 4);
    assert_eq!(sink.written(), &vec![1, 2, 3, 4, 5]);
}

#[test]
fn window_copy_repeats_the_pattern() {
    let mut w = Window::new(16);
    let mut sink = Cache::new(3);
    w.push(&mut sink, b'a');
    w.push(&mut sink, b'b');
    w.copy(&mut sink, 2, 5);
    assert_eq!(w.get(1), b'a');
    assert_eq!(w.total(), 7);
    assert_eq!(sink.written(), &b"aba".to_vec());
    assert_eq!(sink.into_inner(), Some(b"baba".to_vec()));
}

#[test]
fn cache_without_overflow_has_no_spill() {
    let mut c = Cache::new(4);
    c.write(1);
    c.write(2);
    assert_eq!(c.written(), &vec![1, 2]);
    assert_eq!(c.into_inner(), None);
}

#[test]
fn fresh_tables() {
    let p = Probabilities::new(7);
    assert_eq!(p.len(), 7);
    let t = BitTree::new(6);
    assert_eq!(t.bits(), 6);
    let _ = Length::new();
}

#[test]
fn bit_tree_on_a_zero_code_reads_zero() {
    let mut range = Range::new(0xffff_ffff, 0);
    let mut stream = Stream::new(vec![0; 8]);
    let mut t = BitTree::new(3);
    assert_eq!(t.decode(&mut stream, &mut range), Ok(0));
    let mut r = BitTree::new(4);
    assert_eq!(r.reverse(&mut stream, &mut range), Ok(0));
}

#[test]
fn bit_tree_on_a_high_code_reads_all_ones() {
    let mut range = Range::new(0xffff_ffff, 0xffff_fffe);
    let mut stream = Stream::new(vec![0xff; 8]);
    let mut t = BitTree::new(2);
    assert_eq!(t.decode(&mut stream, &mut range), Ok(3));
}

#[test]
fn error_descriptions() {
    assert_eq!(Error::Corrupted.description(), "The LZMA stream is corrupted.");
    assert_eq!(Error::InvalidProperties.description(), "Invalid model values.");
    assert_eq!(Error::MissingMarker.description(), "The EOS marker is missing.");
    assert_ne!(Error::HasMoreData.description(), Error::NeedMoreData.description());
    assert!(!Error::FinishedWithMarker.description().is_empty());
    assert!(!Error::IO.description().is_empty());
}

#[test]
fn reader_exposes_properties() {
    let mut bytes = vec![0x5du8, 0x00, 0x00, 0x01, 0x00];
    bytes.extend_from_slice(&[0xff; 8]);
    bytes.extend_from_slice(&[0, 0, 0, 0, 0]);
    let reader = lzma::read(bytes).unwrap();
    assert_eq!(reader.properties().dictionary, 0x0001_0000);
    assert_eq!(reader.properties().uncompressed, None);
    assert_eq!(reader.cached(), 0);
}

#[test]
fn reader_new_with_properties() {
    let props = Properties { lc: 3, lp: 0, pb: 2, dictionary: 4096, uncompressed: Some(0) };
    let mut reader = lzma::Reader::new(Stream::new(vec![0, 1, 2, 3, 4]), props).unwrap();
    let mut buf = [0u8; 4];
    assert_eq!(reader.read(&mut buf), Ok(0));
}

#[test]
fn probabilities_stay_strictly_inside() {
    let mut stream = Stream::new(vec![0; 4096]);
    let mut range = Range::new(0xffff_ffff, 0);
    let mut p: u16 = 1024;
    for _ in 0..2000 {
        assert_eq!(range.probabilistic(&mut stream, &mut p), Ok(false));
        assert!(p > 0 && p < 2048);
    }
    assert_eq!(p, 2017);
    let mut high = Stream::new(vec![0xff; 4096]);
    let mut range = Range::new(0xffff_ffff, 0xffff_fffe);
    let mut q: u16 = 1024;
    for _ in 0..2000 {
        let _ = range.probabilistic(&mut high, &mut q);
        assert!(q > 0 && q < 2048);
    }
    assert_eq!(q, 31);
}

#[test]
fn invalid_header_byte_consumes_only_that_byte() {
    let mut s = Stream::new(vec![230u8, 1, 2, 3]);
    assert_eq!(properties::read(&mut s), Err(Error::InvalidProperties));
    assert_eq!(s.into_remaining(), vec![1, 2, 3]);
}
