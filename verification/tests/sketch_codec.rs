use kmer_query_engine::codec::decode_sketch;
use kmer_query_engine::codec::encode_sketch;
use kmer_query_engine::output::render_decimal;
use kmer_query_engine::output::render_records;
use kmer_query_engine::sketch::Sketch;

fn km(c: u8) -> Vec<u8> {
    vec![c; 21]
}

fn words_sorted(s: &Sketch) -> Vec<Vec<u8>> {
    let mut out: Vec<Vec<u8>> = Vec::new();
    let mut i = 0;
    while i < s.word_count() {
        out.push(s.word_at(i).clone());
        i += 1;
    }
    out.sort();
    out
}

#[test]
fn test_new_sketch_is_empty() {
    let s = Sketch::new();
    assert!(s.is_empty());
    assert_eq!(s.count(), 0);
}

#[test]
fn test_insert_kmer_deduplicates() {
    let mut s = Sketch::new();
    s.insert_kmer(km(b'A'));
    s.insert_kmer(km(b'C'));
    s.insert_kmer(km(b'A'));
    assert_eq!(s.count(), 2);
    assert!(s.contains_kmer(&km(b'A')));
    assert!(s.contains_kmer(&km(b'C')));
    assert!(!s.contains_kmer(&km(b'G')));
}

#[test]
fn test_insert_seq_windows() {
    let mut s = Sketch::new();
    // 22 bytes: exactly two length-21 windows.
    let seq = b"ACGTACGTACGTACGTACGTAC".to_vec();
    s.insert_seq(&seq);
    assert_eq!(s.count(), 2);
    assert!(s.contains_kmer(&seq[0..21].to_vec()));
    assert!(s.contains_kmer(&seq[1..22].to_vec()));
}

#[test]
fn test_insert_seq_too_short_adds_nothing() {
    let mut s = Sketch::new();
    s.insert_seq(&b"ACGT".to_vec());
    assert!(s.is_empty());
}

#[test]
fn test_union_intersect_difference() {
    let mut x = Sketch::new();
    x.insert_kmer(km(b'A'));
    x.insert_kmer(km(b'C'));
    let mut y = Sketch::new();
    y.insert_kmer(km(b'C'));
    y.insert_kmer(km(b'G'));

    let mut u = x.duplicate();
    u.union_assign(&y);
    assert_eq!(words_sorted(&u), vec![km(b'A'), km(b'C'), km(b'G')]);

    let i = x.intersect_new(&y);
    assert_eq!(words_sorted(&i), vec![km(b'C')]);

    let d = x.difference_new(&y);
    assert_eq!(words_sorted(&d), vec![km(b'A')]);
}

#[test]
fn test_merge_all_and_intersect_all() {
    let mut x = Sketch::new();
    x.insert_kmer(km(b'A'));
    x.insert_kmer(km(b'T'));
    let mut y = Sketch::new();
    y.insert_kmer(km(b'C'));
    y.insert_kmer(km(b'T'));
    let mut z = Sketch::new();
    z.insert_kmer(km(b'G'));
    z.insert_kmer(km(b'T'));
    let batch = vec![x, y, z];
    let merged = Sketch::merge_all(&batch);
    assert_eq!(
        words_sorted(&merged),
        vec![km(b'A'), km(b'C'), km(b'G'), km(b'T')]
    );
    let common = Sketch::intersect_all(&batch);
    assert_eq!(words_sorted(&common), vec![km(b'T')]);
}

#[test]
fn test_codec_round_trip() {
    let mut s = Sketch::new();
    s.insert_kmer(km(b'A'));
    s.insert_kmer(km(b'C'));
    s.insert_kmer(km(b'G'));
    let bytes = encode_sketch(&s);
    let back = decode_sketch(&bytes).expect("round trip must decode");
    assert_eq!(words_sorted(&back), words_sorted(&s));
}

#[test]
fn test_codec_round_trip_empty() {
    let s = Sketch::new();
    let bytes = encode_sketch(&s);
    assert_eq!(bytes, vec![0u8]);
    let back = decode_sketch(&bytes).expect("empty sketch must decode");
    assert!(back.is_empty());
}

#[test]
fn test_decode_rejects_trailing_bytes() {
    let mut s = Sketch::new();
    s.insert_kmer(km(b'A'));
    let mut bytes = encode_sketch(&s);
    bytes.push(0u8);
    assert!(decode_sketch(&bytes).is_none());
}

#[test]
fn test_decode_rejects_truncation() {
    let mut s = Sketch::new();
    s.insert_kmer(km(b'A'));
    s.insert_kmer(km(b'C'));
    let mut bytes = encode_sketch(&s);
    bytes.pop();
    assert!(decode_sketch(&bytes).is_none());
}

#[test]
fn test_decode_rejects_duplicate_words() {
    // Count 2, then the same word twice.
    let mut bytes = vec![2u8];
    bytes.extend(km(b'A'));
    bytes.extend(km(b'A'));
    assert!(decode_sketch(&bytes).is_none());
}

#[test]
fn test_decode_rejects_non_minimal_count() {
    // 0x80 0x00 spells zero with a needless continuation byte.
    let bytes = vec![0x80u8, 0x00u8];
    assert!(decode_sketch(&bytes).is_none());
}

#[test]
fn test_decode_rejects_empty_input() {
    let bytes: Vec<u8> = Vec::new();
    assert!(decode_sketch(&bytes).is_none());
}

#[test]
fn test_varint_two_byte_count() {
    // 130 words of distinct bytes would be awkward; exercise the count
    // encoding alone through a hand-built stream instead: count 130 with
    // no words must fail the length check, count 1 with one word passes.
    let bytes = vec![0x82u8, 0x01u8];
    assert!(decode_sketch(&bytes).is_none());
    let mut good = vec![1u8];
    good.extend(km(b'T'));
    let s = decode_sketch(&good).expect("single word stream must decode");
    assert_eq!(s.count(), 1);
    assert!(s.contains_kmer(&km(b'T')));
}

#[test]
fn test_render_decimal() {
    assert_eq!(render_decimal(0), b"0".to_vec());
    assert_eq!(render_decimal(7), b"7".to_vec());
    assert_eq!(render_decimal(10), b"10".to_vec());
    assert_eq!(render_decimal(90217), b"90217".to_vec());
}

#[test]
fn test_render_records() {
    let mut s = Sketch::new();
    s.insert_kmer(km(b'A'));
    s.insert_kmer(km(b'C'));
    let lines = render_records(&s);
    assert_eq!(lines.len(), 4);
    assert_eq!(lines[0], b">kmer0".to_vec());
    assert_eq!(lines[1], km(b'A'));
    assert_eq!(lines[2], b">kmer1".to_vec());
    assert_eq!(lines[3], km(b'C'));
}

#[test]
fn test_render_records_empty() {
    let s = Sketch::new();
    let lines = render_records(&s);
    assert!(lines.is_empty());
}
