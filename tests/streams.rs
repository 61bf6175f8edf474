use lzma::{Error, Reader};

// A small LZMA encoder that builds the streams these tests decode.

struct RangeEncoder {
    low: u64,
    range: u32,
    cache: u8,
    cache_size: u64,
    out: Vec<u8>,
}

impl RangeEncoder {
    fn new() -> Self {
        RangeEncoder { low: 0, range: 0xFFFF_FFFF, cache: 0, cache_size: 1, out: Vec::new() }
    }

    fn shift_low(&mut self) {
        if (self.low as u32) < 0xFF00_0000 || (self.low >> 32) != 0 {
            let carry = (self.low >> 32) as u8;
            let mut temp = self.cache;
            loop {
                self.out.push(temp.wrapping_add(carry));
                temp = 0xFF;
                self.cache_size -= 1;
                if self.cache_size == 0 {
                    break;
                }
            }
            self.cache = ((self.low >> 24) & 0xFF) as u8;
        }
        self.cache_size += 1;
        self.low = (self.low & 0x00FF_FFFF) << 8;
    }

    fn normalize(&mut self) {
        while self.range < (1 << 24) {
            self.range <<= 8;
            self.shift_low();
        }
    }

    fn bit(&mut self, p: &mut u16, bit: u32) {
        let bound = (self.range >> 11) * (*p as u32);
        if bit == 0 {
            self.range = bound;
            *p += (2048 - *p) >> 5;
        } else {
            self.low += bound as u64;
            self.range -= bound;
            *p -= *p >> 5;
        }
        self.normalize();
    }

    fn direct(&mut self, value: u32, count: u32) {
        for i in (0..count).rev() {
            self.range >>= 1;
            if (value >> i) & 1 == 1 {
                self.low += self.range as u64;
            }
            self.normalize();
        }
    }

    fn finish(mut self) -> Vec<u8> {
        for _ in 0..5 {
            self.shift_low();
        }
        self.out
    }
}

fn tree(rc: &mut RangeEncoder, probs: &mut [u16], bits: u32, value: u32) {
    let mut m = 1usize;
    for i in (0..bits).rev() {
        let b = (value >> i) & 1;
        rc.bit(&mut probs[m], b);
        m = (m << 1) | b as usize;
    }
}

fn tree_reverse(rc: &mut RangeEncoder, probs: &mut [u16], bits: u32, value: u32) {
    let mut m = 1usize;
    for i in 0..bits {
        let b = (value >> i) & 1;
        rc.bit(&mut probs[m], b);
        m = (m << 1) | b as usize;
    }
}

struct LengthModel {
    choice: [u16; 2],
    low: Vec<Vec<u16>>,
    mid: Vec<Vec<u16>>,
    high: Vec<u16>,
}

impl LengthModel {
    fn new() -> Self {
        LengthModel {
            choice: [1024; 2],
            low: vec![vec![1024; 8]; 16],
            mid: vec![vec![1024; 8]; 16],
            high: vec![1024; 256],
        }
    }

    fn encode(&mut self, rc: &mut RangeEncoder, v: u32, pos: usize) {
        if v < 8 {
            rc.bit(&mut self.choice[0], 0);
            tree(rc, &mut self.low[pos], 3, v);
        } else if v < 16 {
            rc.bit(&mut self.choice[0], 1);
            rc.bit(&mut self.choice[1], 0);
            tree(rc, &mut self.mid[pos], 3, v - 8);
        } else {
            rc.bit(&mut self.choice[0], 1);
            rc.bit(&mut self.choice[1], 1);
            tree(rc, &mut self.high, 8, v - 16);
        }
    }
}

#[derive(Clone, Copy)]
enum Item {
    Literal,
    ShortRep,
    Rep(usize, usize),
    Match(u32, usize),
}

struct Encoder {
    lc: u32,
    lp: u32,
    pb: u32,
    rc: RangeEncoder,
    literal: Vec<u16>,
    is_match: Vec<u16>,
    is_rep: Vec<u16>,
    is_rep_g0: Vec<u16>,
    is_rep_g1: Vec<u16>,
    is_rep_g2: Vec<u16>,
    is_rep0_long: Vec<u16>,
    slot: Vec<Vec<u16>>,
    position: Vec<u16>,
    align: Vec<u16>,
    length: LengthModel,
    repeat: LengthModel,
    state: u32,
    reps: [u32; 4],
    hist: Vec<u8>,
}

impl Encoder {
    fn new(lc: u32, lp: u32, pb: u32) -> Self {
        Encoder {
            lc,
            lp,
            pb,
            rc: RangeEncoder::new(),
            literal: vec![1024; 0x300 << (lc + lp)],
            is_match: vec![1024; 256],
            is_rep: vec![1024; 12],
            is_rep_g0: vec![1024; 12],
            is_rep_g1: vec![1024; 12],
            is_rep_g2: vec![1024; 12],
            is_rep0_long: vec![1024; 192],
            slot: vec![vec![1024; 64]; 4],
            position: vec![1024; 115],
            align: vec![1024; 16],
            length: LengthModel::new(),
            repeat: LengthModel::new(),
            state: 0,
            reps: [0; 4],
            hist: Vec::new(),
        }
    }

    fn pos(&self) -> usize {
        (self.hist.len() as u32 & ((1 << self.pb) - 1)) as usize
    }

    fn literal(&mut self, byte: u8) {
        let pos = self.pos();
        let st = self.state as usize;
        self.rc.bit(&mut self.is_match[(pos << 4) + st], 0);
        let total = self.hist.len() as u32;
        let prev = *self.hist.last().unwrap_or(&0) as u32;
        let lit = ((total & ((1 << self.lp) - 1)) << self.lc) + (prev >> (8 - self.lc));
        let base = 0x300 * lit as usize;
        let mut sym: u32 = 1;
        let mut i: u32 = 8;
        if self.state >= 7 {
            let match_byte = self.hist[self.hist.len() - self.reps[0] as usize - 1] as u32;
            let mut same = true;
            while i > 0 && same {
                i -= 1;
                let mb = (match_byte >> i) & 1;
                let b = (byte as u32 >> i) & 1;
                self.rc.bit(&mut self.literal[base + (((1 + mb) << 8) + sym) as usize], b);
                sym = (sym << 1) | b;
                if mb != b {
                    same = false;
                }
            }
        }
        while i > 0 {
            i -= 1;
            let b = (byte as u32 >> i) & 1;
            self.rc.bit(&mut self.literal[base + sym as usize], b);
            sym = (sym << 1) | b;
        }
        self.hist.push(byte);
        self.state = if self.state < 4 { 0 } else if self.state < 10 { self.state - 3 } else { self.state - 6 };
    }

    fn copy(&mut self, len: usize) {
        for _ in 0..len {
            let b = self.hist[self.hist.len() - self.reps[0] as usize - 1];
            self.hist.push(b);
        }
    }

    fn distance(&mut self, dist: u32, len: usize) {
        let ls = std::cmp::min(len - 2, 3);
        if dist < 4 {
            tree(&mut self.rc, &mut self.slot[ls], 6, dist);
            return;
        }
        let h = 31 - dist.leading_zeros();
        let slot = 2 * h + ((dist >> (h - 1)) & 1);
        tree(&mut self.rc, &mut self.slot[ls], 6, slot);
        let direct = h - 1;
        let base = (2 | (slot & 1)) << direct;
        let rem = dist - base;
        if slot < 14 {
            tree_reverse(&mut self.rc, &mut self.position[(base - slot) as usize..], direct, rem);
        } else {
            self.rc.direct(rem >> 4, direct - 4);
            tree_reverse(&mut self.rc, &mut self.align, 4, rem & 15);
        }
    }

    fn new_match(&mut self, dist: u32, len: usize) {
        let pos = self.pos();
        let st = self.state as usize;
        self.rc.bit(&mut self.is_match[(pos << 4) + st], 1);
        self.rc.bit(&mut self.is_rep[st], 0);
        self.length.encode(&mut self.rc, (len - 2) as u32, pos);
        self.distance(dist, len);
        self.reps = [dist, self.reps[0], self.reps[1], self.reps[2]];
        self.state = if self.state < 7 { 7 } else { 10 };
        self.copy(len);
    }

    fn short_rep(&mut self) {
        let pos = self.pos();
        let st = self.state as usize;
        self.rc.bit(&mut self.is_match[(pos << 4) + st], 1);
        self.rc.bit(&mut self.is_rep[st], 1);
        self.rc.bit(&mut self.is_rep_g0[st], 0);
        self.rc.bit(&mut self.is_rep0_long[(st << 4) + pos], 0);
        self.state = if self.state < 7 { 9 } else { 11 };
        self.copy(1);
    }

    fn rep(&mut self, k: usize, len: usize) {
        let pos = self.pos();
        let st = self.state as usize;
        self.rc.bit(&mut self.is_match[(pos << 4) + st], 1);
        self.rc.bit(&mut self.is_rep[st], 1);
        if k == 0 {
            self.rc.bit(&mut self.is_rep_g0[st], 0);
            self.rc.bit(&mut self.is_rep0_long[(st << 4) + pos], 1);
        } else {
            self.rc.bit(&mut self.is_rep_g0[st], 1);
            if k == 1 {
                self.rc.bit(&mut self.is_rep_g1[st], 0);
            } else {
                self.rc.bit(&mut self.is_rep_g1[st], 1);
                self.rc.bit(&mut self.is_rep_g2[st], if k == 2 { 0 } else { 1 });
            }
            let d = self.reps[k];
            let mut j = k;
            while j > 0 {
                self.reps[j] = self.reps[j - 1];
                j -= 1;
            }
            self.reps[0] = d;
        }
        self.repeat.encode(&mut self.rc, (len - 2) as u32, pos);
        self.state = if self.state < 7 { 8 } else { 11 };
        self.copy(len);
    }

    // a match whose distance the decoder must refuse; the stream ends after it
    fn bad_match(&mut self, dist: u32, len: usize) {
        let pos = self.pos();
        let st = self.state as usize;
        self.rc.bit(&mut self.is_match[(pos << 4) + st], 1);
        self.rc.bit(&mut self.is_rep[st], 0);
        self.length.encode(&mut self.rc, (len - 2) as u32, pos);
        self.distance(dist, len);
    }

    fn end_marker(&mut self) {
        let pos = self.pos();
        let st = self.state as usize;
        self.rc.bit(&mut self.is_match[(pos << 4) + st], 1);
        self.rc.bit(&mut self.is_rep[st], 0);
        self.length.encode(&mut self.rc, 0, pos);
        self.distance(0xFFFF_FFFF, 2);
    }

    fn item(&mut self, item: Item, text: &[u8]) {
        match item {
            Item::Literal => {
                let b = text[self.hist.len()];
                self.literal(b)
            }
            Item::ShortRep => self.short_rep(),
            Item::Rep(k, len) => self.rep(k, len),
            Item::Match(dist, len) => self.new_match(dist, len),
        }
    }
}

fn match_len(text: &[u8], at: usize, d: usize) -> usize {
    let mut n = 0;
    while at + n < text.len() && n < 273 && text[at + n] == text[at + n - d] {
        n += 1;
    }
    n
}

// Greedy choice of the next item at `at`, trying repeated distances first.
fn next_item(enc: &Encoder, text: &[u8], at: usize, dictionary: usize) -> Item {
    if at == 0 {
        return Item::Literal;
    }
    let mut best_rep = (0usize, 0usize);
    for k in 0..4 {
        let d = enc.reps[k] as usize + 1;
        if d <= at {
            let n = match_len(text, at, d);
            if n > best_rep.1 {
                best_rep = (k, n);
            }
        }
    }
    let mut best = (0usize, 0usize);
    let far = std::cmp::min(at, dictionary);
    let mut d = 1;
    while d <= far {
        let n = match_len(text, at, d);
        if n > best.1 {
            best = (d, n);
        }
        d = if d < 512 || d + 64 >= far { d + 1 } else { d + 61 };
    }
    if best_rep.1 >= 2 && best_rep.1 + 1 >= best.1 {
        return Item::Rep(best_rep.0, best_rep.1);
    }
    if best.1 >= 3 {
        return Item::Match((best.0 - 1) as u32, best.1);
    }
    if text[at] == text[at - enc.reps[0] as usize - 1] {
        return Item::ShortRep;
    }
    Item::Literal
}

fn header(lc: u32, lp: u32, pb: u32, dictionary: u32, size: Option<u64>) -> Vec<u8> {
    let mut h = vec![((pb * 5 + lp) * 9 + lc) as u8];
    h.extend_from_slice(&dictionary.to_le_bytes());
    h.extend_from_slice(&size.unwrap_or(u64::MAX).to_le_bytes());
    h
}

// Encodes `text` with the given properties; `size` goes in the header as it is.
fn encode_with(text: &[u8], lc: u32, lp: u32, pb: u32, dictionary: u32, size: Option<u64>, marker: bool) -> Vec<u8> {
    let mut enc = Encoder::new(lc, lp, pb);
    while enc.hist.len() < text.len() {
        let item = next_item(&enc, text, enc.hist.len(), dictionary as usize - 1);
        enc.item(item, text);
    }
    assert_eq!(&enc.hist[..], text);
    if marker {
        enc.end_marker();
    }
    let mut out = header(lc, lp, pb, dictionary, size);
    out.extend_from_slice(&enc.rc.finish());
    out
}

fn encode(text: &[u8], size: Option<u64>, marker: bool) -> Vec<u8> {
    encode_with(text, 3, 0, 2, 1 << 16, size, marker)
}

fn sample_text() -> Vec<u8> {
    let mut t = Vec::new();
    let words = ["lorem ", "ipsum ", "dolor ", "sit ", "amet, ", "consectetur ", "adipiscing ", "elit. "];
    let mut x: u32 = 7;
    for i in 0..900 {
        x = x.wrapping_mul(1103515245).wrapping_add(12345);
        t.extend_from_slice(words[((x >> 16) % 8) as usize].as_bytes());
        if i % 37 == 0 {
            t.push(b'\n');
        }
        if i % 101 == 0 {
            t.extend_from_slice(&[0u8, 255, 17, 200, (x >> 8) as u8]);
        }
    }
    t.extend(std::iter::repeat(b'a').take(700));
    t.extend_from_slice(b"abcabcabcabcabcabcabcab The end.\n");
    t
}

fn decode_all(data: Vec<u8>, chunk: usize) -> Result<Vec<u8>, Error> {
    let mut reader = lzma::read(data)?;
    let mut out = Vec::new();
    let mut buf = vec![0u8; chunk];
    loop {
        let n = reader.read(&mut buf)?;
        if n == 0 {
            return Ok(out);
        }
        out.extend_from_slice(&buf[..n]);
    }
}

fn check(result: Result<Vec<u8>, Error>) {
    assert_eq!(result.unwrap(), sample_text());
}

fn decode(data: Vec<u8>) -> Result<Vec<u8>, Error> {
    decode_all(data, 4096)
}

#[test]
fn a() {
    let text = sample_text();
    check(decode(encode(&text, Some(text.len() as u64), false)));
}

#[test]
fn a_eos() {
    let text = sample_text();
    check(decode(encode(&text, None, true)));
}

#[test]
fn a_eos_and_size() {
    let text = sample_text();
    check(decode(encode(&text, Some(text.len() as u64), true)));
}

#[test]
#[should_panic]
fn bad_corrupted() {
    let text = sample_text();
    let mut data = encode(&text, Some(text.len() as u64), false);
    data[13] = 0x5a;
    check(decode(data));
}

#[test]
#[should_panic]
fn bad_incorrect_size() {
    let text = sample_text();
    check(decode(encode(&text, Some(text.len() as u64 + 10), false)));
}

#[test]
#[should_panic]
fn bad_eos_incorrect_size() {
    let text = sample_text();
    check(decode(encode(&text, Some(text.len() as u64 + 1), true)));
}

#[test]
fn corrupted_control_byte_is_an_error() {
    let text = sample_text();
    let mut data = encode(&text, Some(text.len() as u64), false);
    data[13] = 0x5a;
    assert_eq!(decode(data), Err(Error::Corrupted));
}

#[test]
fn declared_length_too_large_is_an_error() {
    let text = sample_text();
    assert!(decode(encode(&text, Some(text.len() as u64 + 10), false)).is_err());
}

#[test]
fn marker_before_declared_length_needs_more_data() {
    let text = sample_text();
    assert_eq!(decode(encode(&text, Some(text.len() as u64 + 1), true)), Err(Error::NeedMoreData));
}

#[test]
fn empty_content_with_length_zero_and_marker() {
    let data = encode(b"", Some(0), true);
    let mut reader = lzma::read(data).unwrap();
    let mut buf = [0u8; 16];
    assert_eq!(reader.read(&mut buf), Ok(0));
}

#[test]
fn empty_content_with_marker_only() {
    let data = encode(b"", None, true);
    assert_eq!(decode(data), Ok(Vec::new()));
}

#[test]
fn known_length_without_marker_ends_cleanly() {
    let text = b"hello hello hello, world".to_vec();
    let data = encode(&text, Some(text.len() as u64), false);
    let mut reader = lzma::read(data).unwrap();
    let mut out = Vec::new();
    let mut buf = [0u8; 5];
    loop {
        let n = reader.read(&mut buf).unwrap();
        if n == 0 {
            break;
        }
        out.extend_from_slice(&buf[..n]);
    }
    assert_eq!(out, text);
    assert_eq!(reader.read(&mut buf), Ok(0));
}

#[test]
fn zero_length_read_returns_zero() {
    let text = sample_text();
    let data = encode(&text, None, true);
    let mut reader = lzma::read(data).unwrap();
    let mut empty: [u8; 0] = [];
    assert_eq!(reader.read(&mut empty), Ok(0));
    assert_eq!(reader.cached(), 0);
    // the engine was not started: the whole stream still decodes
    let mut out = Vec::new();
    let mut buf = [0u8; 100];
    loop {
        let n = reader.read(&mut buf).unwrap();
        if n == 0 {
            break;
        }
        out.extend_from_slice(&buf[..n]);
    }
    assert_eq!(out, text);
}

#[test]
fn small_buffer_keeps_the_rest_of_a_match() {
    let text = vec![b'x'; 40];
    let data = encode(&text, Some(40), false);
    let mut reader = lzma::read(data).unwrap();
    let mut buf = [0u8; 4];
    // the first item is a literal
    assert_eq!(reader.read(&mut buf), Ok(1));
    assert_eq!(reader.cached(), 0);
    // the second is a match of 39 bytes, of which 4 fit
    assert_eq!(reader.read(&mut buf), Ok(4));
    assert_eq!(reader.cached(), 35);
    assert_eq!(buf, [b'x'; 4]);
    let mut big = [0u8; 100];
    assert_eq!(reader.read(&mut big), Ok(35));
    assert_eq!(reader.cached(), 0);
    assert_eq!(reader.read(&mut big), Ok(0));
}

#[test]
fn read_sizes_do_not_change_the_output() {
    let text = sample_text();
    let data = encode(&text, None, true);
    for chunk in [1usize, 2, 3, 7, 64, 273, 274, 5000] {
        assert_eq!(decode_all(data.clone(), chunk), Ok(text.clone()), "chunk {}", chunk);
    }
}

#[test]
fn small_dictionary_wraps_the_window() {
    let mut text = Vec::new();
    for round in 0..4u32 {
        for i in 0..3000u32 {
            text.push(((i * 7 + round) % 251) as u8);
        }
        text.extend_from_slice(b"a marker that repeats far back");
    }
    let data = encode_with(&text, 3, 0, 2, 4096, Some(text.len() as u64), false);
    assert_eq!(decode(data), Ok(text));
}

#[test]
fn all_position_bits_and_literal_bits() {
    let text = sample_text();
    for (lc, lp, pb) in [(0u32, 0u32, 0u32), (0, 2, 4), (8, 4, 4), (4, 0, 3), (1, 3, 1)] {
        let data = encode_with(&text, lc, lp, pb, 1 << 20, None, true);
        assert_eq!(decode(data), Ok(text.clone()), "lc {} lp {} pb {}", lc, lp, pb);
    }
}

#[test]
fn unknown_length_without_marker_is_missing_the_marker() {
    let text = b"no marker here, no marker here".to_vec();
    let data = encode(&text, None, false);
    let mut reader = lzma::read(data).unwrap();
    let mut out = Vec::new();
    let mut buf = [0u8; 64];
    let err = loop {
        match reader.read(&mut buf) {
            Ok(0) => panic!("ended without an error"),
            Ok(n) => out.extend_from_slice(&buf[..n]),
            Err(e) => break e,
        }
    };
    assert_eq!(out, text);
    assert_eq!(err, Error::MissingMarker);
}

#[test]
fn truncated_payload_is_an_error() {
    let text = sample_text();
    let mut data = encode(&text, None, true);
    data.truncate(data.len() / 2);
    assert!(decode(data).is_err());
}

#[test]
fn unused_input_is_given_back() {
    let mut data = encode(b"abc", Some(3), false);
    data.extend_from_slice(b"TAIL");
    let mut reader = lzma::read(data).unwrap();
    let mut buf = [0u8; 8];
    let mut n = 0;
    loop {
        let k = reader.read(&mut buf[n..]).unwrap();
        if k == 0 {
            break;
        }
        n += k;
    }
    assert_eq!(&buf[..3], b"abc");
    let rest = reader.into_inner();
    assert!(rest.ends_with(b"TAIL"));
}

#[test]
fn decode_reports_items() {
    let text = vec![b'z'; 10];
    let data = encode(&text, Some(10), false);
    let mut reader: Reader = lzma::read(data).unwrap();
    let mut cache = lzma::reader::Cache::new(100);
    assert_eq!(reader.decode(&mut cache), Ok(1));
    assert_eq!(reader.decode(&mut cache), Ok(9));
    assert_eq!(reader.decode(&mut cache), Ok(0));
    assert!(cache.into_inner().is_none());
}

fn stream_with_bad_match(dictionary: u32, dist: u32) -> Vec<u8> {
    let mut enc = Encoder::new(3, 0, 2);
    for &b in b"abcdefgh" {
        enc.literal(b);
    }
    enc.bad_match(dist, 4);
    let mut out = header(3, 0, 2, dictionary, None);
    out.extend_from_slice(&enc.rc.finish());
    out
}

#[test]
fn match_before_the_start_is_corrupted() {
    // eight bytes are written: distance index 9 is past the window's position
    let data = stream_with_bad_match(1 << 16, 9);
    assert_eq!(decode(data), Err(Error::Corrupted));
}

#[test]
fn match_at_the_window_position_reads_an_unwritten_slot() {
    // distance index 8 passes the window check at position 8; the slot it reaches first was
    // never written and reads as zero
    let data = stream_with_bad_match(1 << 16, 8);
    let mut reader = lzma::read(data).unwrap();
    let mut buf = [0u8; 64];
    let mut out = Vec::new();
    for _ in 0..9 {
        let n = reader.read(&mut buf).unwrap();
        out.extend_from_slice(&buf[..n]);
    }
    assert_eq!(out, b"abcdefgh\0abc".to_vec());
    assert_eq!(reader.read(&mut buf), Err(Error::MissingMarker));
}

#[test]
fn match_at_the_first_byte_is_accepted() {
    // distance index 7 reaches the first byte
    let data = stream_with_bad_match(1 << 16, 7);
    let mut reader = lzma::read(data).unwrap();
    let mut buf = [0u8; 64];
    let mut out = Vec::new();
    for _ in 0..9 {
        let n = reader.read(&mut buf).unwrap();
        out.extend_from_slice(&buf[..n]);
    }
    assert_eq!(out, b"abcdefghabcd".to_vec());
}

#[test]
fn match_beyond_the_dictionary_is_corrupted() {
    let data = stream_with_bad_match(4096, 5000);
    assert_eq!(decode(data), Err(Error::Corrupted));
}

#[test]
fn match_past_the_declared_length_has_more_data() {
    let text = vec![b'q'; 10];
    let mut data = encode(&text, Some(10), false);
    // declare five bytes: the first literal fits, the match of nine does not
    data[5] = 5;
    let mut reader = lzma::read(data).unwrap();
    let mut buf = [0u8; 64];
    assert_eq!(reader.read(&mut buf), Ok(1));
    assert_eq!(reader.read(&mut buf), Err(Error::HasMoreData));
}

#[test]
fn declared_length_is_met_exactly() {
    let text = sample_text();
    let data = encode(&text, Some(text.len() as u64), true);
    for chunk in [1usize, 100, 4096] {
        let out = decode_all(data.clone(), chunk).unwrap();
        assert_eq!(out.len(), text.len());
    }
}
