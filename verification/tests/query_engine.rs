use kmer_query_engine::codec::encode_sketch;
use kmer_query_engine::parse::parse_query_lines;
use kmer_query_engine::query::query_sketches;
use kmer_query_engine::reduce::reduce_intersect;
use kmer_query_engine::reduce::reduce_union;
use kmer_query_engine::reduce::subtract_common;
use kmer_query_engine::sketch::Sketch;
use kmer_query_engine::store::SketchStore;
use kmer_query_engine::QueryError;

fn km(c: u8) -> Vec<u8> {
    vec![c; 21]
}

fn sketch_of(chars: &[u8]) -> Sketch {
    let mut s = Sketch::new();
    for &c in chars {
        s.insert_kmer(km(c));
    }
    s
}

fn words_sorted(s: &Sketch) -> Vec<Vec<u8>> {
    let mut out: Vec<Vec<u8>> = Vec::new();
    let mut i = 0;
    while i < s.word_count() {
        out.push(s.word_at(i).clone());
        i += 1;
    }
    out.sort();
    out
}

fn store_of(samples: &[&[u8]]) -> SketchStore {
    let mut st = SketchStore::new();
    for chars in samples {
        let s = sketch_of(chars);
        st.push_encoded(encode_sketch(&s));
    }
    st
}

#[test]
fn test_union_reduce_ignores_batch_size() {
    // Disjoint non-empty id lists: reducing their concatenation at any
    // batch size equals the union of the two batch-1 reductions.
    let store = store_of(&[b"AC", b"GT", b"A", b"T"]);
    let ab: Vec<i32> = vec![0, 1, 2, 3];
    let a: Vec<i32> = vec![0, 1];
    let b: Vec<i32> = vec![2, 3];
    let ra = reduce_union(&store, &a, 1).unwrap();
    let rb = reduce_union(&store, &b, 1).unwrap();
    let mut expected = ra.duplicate();
    expected.union_assign(&rb);
    for batch_size in 1..6 {
        let r = reduce_union(&store, &ab, batch_size).unwrap();
        assert_eq!(words_sorted(&r), words_sorted(&expected));
    }
}

#[test]
fn test_intersect_reduce_ignores_batch_size() {
    // Batch 1 (fully pairwise) and batch |S| (one multi-way fold) agree.
    let store = store_of(&[b"ACGT", b"ACG", b"CGT"]);
    let ids: Vec<i32> = vec![0, 1, 2];
    let pairwise = reduce_intersect(&store, &ids, 1).unwrap();
    let single = reduce_intersect(&store, &ids, ids.len()).unwrap();
    assert_eq!(words_sorted(&pairwise), words_sorted(&single));
    assert_eq!(words_sorted(&single), vec![km(b'C'), km(b'G')]);
}

#[test]
fn test_empty_query_returns_universe() {
    let store = store_of(&[b"AC", b"GT", b"A"]);
    let empty_ids: Vec<i32> = vec![];
    let no_groups: Vec<Vec<i32>> = vec![];
    let r = query_sketches(&store, &empty_ids, &no_groups, &no_groups, &empty_ids, 2).unwrap();
    let universe = reduce_union(&store, &vec![0, 1, 2], 1).unwrap();
    assert_eq!(words_sorted(&r), words_sorted(&universe));
    assert_eq!(r.count(), 4);
}

#[test]
fn test_must_all_single_sample() {
    let store = store_of(&[b"AC", b"GTC", b"A"]);
    let a: Vec<i32> = vec![1];
    let empty_ids: Vec<i32> = vec![];
    let no_groups: Vec<Vec<i32>> = vec![];
    let r = query_sketches(&store, &a, &no_groups, &no_groups, &empty_ids, 1).unwrap();
    let direct = store.load(1).unwrap();
    assert_eq!(words_sorted(&r), words_sorted(&direct));
    assert_eq!(r.count(), 3);
}

#[test]
fn test_exclude_common_pair_drops_shared_elements() {
    // Samples: 0 holds {A,C,T}, 1 holds {A,G}, 2 holds {A,T}. With no
    // seed groups the working set is the universe {A,C,G,T}; excluding
    // what 1 and 2 share removes A alone, so elements unique to one of
    // them (G, T) stay.
    let store = store_of(&[b"ACT", b"AG", b"AT"]);
    let empty_ids: Vec<i32> = vec![];
    let no_groups: Vec<Vec<i32>> = vec![];
    let c: Vec<Vec<i32>> = vec![vec![1, 2]];
    let r = query_sketches(&store, &empty_ids, &no_groups, &c, &empty_ids, 2).unwrap();
    assert_eq!(words_sorted(&r), vec![km(b'C'), km(b'G'), km(b'T')]);
}

#[test]
fn test_must_none_excludes_sample_elements() {
    // No element of sample 1's sketch may survive.
    let store = store_of(&[b"ACT", b"AG", b"AT"]);
    let empty_ids: Vec<i32> = vec![];
    let no_groups: Vec<Vec<i32>> = vec![];
    let d: Vec<i32> = vec![1];
    let r = query_sketches(&store, &empty_ids, &no_groups, &no_groups, &d, 1).unwrap();
    let banned = store.load(1).unwrap();
    let mut i = 0;
    while i < banned.word_count() {
        assert!(!r.contains_kmer(banned.word_at(i)));
        i += 1;
    }
    assert_eq!(words_sorted(&r), vec![km(b'C'), km(b'T')]);
}

#[test]
fn test_any_groups_sequential_refinement() {
    // Seed from the smallest group, then refine with the remaining one.
    let store = store_of(&[b"AC", b"CG", b"T"]);
    let empty_ids: Vec<i32> = vec![];
    let no_groups: Vec<Vec<i32>> = vec![];
    let b: Vec<Vec<i32>> = vec![vec![0], vec![1, 2]];
    let r = query_sketches(&store, &empty_ids, &b, &no_groups, &empty_ids, 1).unwrap();
    assert_eq!(words_sorted(&r), vec![km(b'C')]);
}

#[test]
fn test_full_index_and_query_all_pair() {
    // Six samples built from six small sequences; ALL=[0,1] must return
    // exactly the intersection of samples 0 and 1, checked against the
    // batch-1 reduction and against intersecting the two loaded sketches.
    let seqs: Vec<Vec<u8>> = vec![
        b"ACGTACGTACGTACGTACGTACGT".to_vec(),
        b"CGTACGTACGTACGTACGTACGTA".to_vec(),
        b"TTTTTTTTTTTTTTTTTTTTTT".to_vec(),
        b"ACGTACGTACGTACGTACGTA".to_vec(),
        b"GGGGGGGGGGGGGGGGGGGGGG".to_vec(),
        b"CCCCCCCCCCCCCCCCCCCCC".to_vec(),
    ];
    let mut store = SketchStore::new();
    for seq in &seqs {
        let mut s = Sketch::new();
        s.insert_seq(seq);
        store.push_encoded(encode_sketch(&s));
    }
    let a: Vec<i32> = vec![0, 1];
    let empty_ids: Vec<i32> = vec![];
    let no_groups: Vec<Vec<i32>> = vec![];
    for batch_size in 1..4 {
        let r = query_sketches(&store, &a, &no_groups, &no_groups, &empty_ids, batch_size)
            .unwrap();
        let reference = reduce_intersect(&store, &a, 1).unwrap();
        assert_eq!(words_sorted(&r), words_sorted(&reference));
        let s0 = store.load(0).unwrap();
        let s1 = store.load(1).unwrap();
        let direct = s0.intersect_new(&s1);
        assert_eq!(words_sorted(&r), words_sorted(&direct));
        assert!(!r.is_empty());
    }
}

#[test]
fn test_missing_sketch_error() {
    let mut store = store_of(&[b"AC"]);
    store.push_absent();
    let a: Vec<i32> = vec![1];
    let empty_ids: Vec<i32> = vec![];
    let no_groups: Vec<Vec<i32>> = vec![];
    let r = query_sketches(&store, &a, &no_groups, &no_groups, &empty_ids, 1);
    assert_eq!(r.unwrap_err(), QueryError::MissingSketch(1));
    let out_of_range: Vec<i32> = vec![5];
    let r2 = query_sketches(&store, &out_of_range, &no_groups, &no_groups, &empty_ids, 1);
    assert_eq!(r2.unwrap_err(), QueryError::MissingSketch(5));
    let negative: Vec<i32> = vec![-1];
    let r3 = query_sketches(&store, &negative, &no_groups, &no_groups, &empty_ids, 1);
    assert_eq!(r3.unwrap_err(), QueryError::MissingSketch(-1));
}

#[test]
fn test_corrupt_sketch_error() {
    let mut store = SketchStore::new();
    store.push_encoded(vec![7u8, 7u8, 7u8]);
    let a: Vec<i32> = vec![0];
    let empty_ids: Vec<i32> = vec![];
    let no_groups: Vec<Vec<i32>> = vec![];
    let r = query_sketches(&store, &a, &no_groups, &no_groups, &empty_ids, 1);
    assert_eq!(r.unwrap_err(), QueryError::CorruptSketch(0));
}

#[test]
fn test_empty_input_error() {
    let store = store_of(&[b"AC"]);
    let empty_ids: Vec<i32> = vec![];
    let r = reduce_intersect(&store, &empty_ids, 1);
    assert_eq!(r.unwrap_err(), QueryError::EmptyInput);
    let mut g = sketch_of(b"AC");
    let r2 = subtract_common(&mut g, &store, &empty_ids, 1);
    assert_eq!(r2.unwrap_err(), QueryError::EmptyInput);
    assert_eq!(g.count(), 2);
}

#[test]
fn test_parse_query_lines_all_kinds() {
    let lines: Vec<Vec<u8>> = vec![
        b"q1\tALL\t[0, 1]".to_vec(),
        b"q2\tANY\t[[2], [3, 4]]".to_vec(),
        b"q3\tNOT-ALL\t[[5, 6]]".to_vec(),
        b"q4\tNOT-ANY\t[7]".to_vec(),
    ];
    let (a, b, c, d) = parse_query_lines(&lines).unwrap();
    assert_eq!(a, vec![0, 1]);
    assert_eq!(b, vec![vec![2], vec![3, 4]]);
    assert_eq!(c, vec![vec![5, 6]]);
    assert_eq!(d, vec![7]);
}

#[test]
fn test_parse_query_lines_extends_repeated_kinds() {
    let lines: Vec<Vec<u8>> = vec![
        b"q1\tALL\t[0]".to_vec(),
        b"q2\tALL\t[3, 2]".to_vec(),
        b"q3\tANY\t[[1]]".to_vec(),
        b"q4\tANY\t[[4, 5]]".to_vec(),
    ];
    let (a, b, c, d) = parse_query_lines(&lines).unwrap();
    assert_eq!(a, vec![0, 3, 2]);
    assert_eq!(b, vec![vec![1], vec![4, 5]]);
    assert!(c.is_empty());
    assert!(d.is_empty());
}

#[test]
fn test_parse_query_lines_negative_ids() {
    let lines: Vec<Vec<u8>> = vec![b"q\tALL\t[-3, 2]".to_vec()];
    let (a, _, _, _) = parse_query_lines(&lines).unwrap();
    assert_eq!(a, vec![-3, 2]);
}

#[test]
fn test_parse_rejects_wrong_field_count() {
    let lines: Vec<Vec<u8>> = vec![b"q\tALL".to_vec()];
    assert_eq!(
        parse_query_lines(&lines).unwrap_err(),
        QueryError::InvalidQuerySpec
    );
}

#[test]
fn test_parse_rejects_unknown_kind() {
    let lines: Vec<Vec<u8>> = vec![b"q\tSOME\t[1]".to_vec()];
    assert_eq!(
        parse_query_lines(&lines).unwrap_err(),
        QueryError::InvalidQuerySpec
    );
}

#[test]
fn test_parse_rejects_bad_payload() {
    let lines: Vec<Vec<u8>> = vec![b"q\tALL\t[1,".to_vec()];
    assert_eq!(
        parse_query_lines(&lines).unwrap_err(),
        QueryError::InvalidQuerySpec
    );
    let nested: Vec<Vec<u8>> = vec![b"q\tANY\t[1, 2]".to_vec()];
    assert_eq!(
        parse_query_lines(&nested).unwrap_err(),
        QueryError::InvalidQuerySpec
    );
}

#[test]
fn test_all_four_stages_combined() {
    // 0:{A,C,G} 1:{A,C} 2:{C,G,T} 3:{G} 4:{A,T}
    // seed: sample 0 -> {A,C,G}; any-of [1,2] keeps {A,C,G};
    // exclude-common [0,2] removes {C,G}; must-none [3] removes G again.
    let store = store_of(&[b"ACG", b"AC", b"CGT", b"G", b"AT"]);
    let a: Vec<i32> = vec![0];
    let b: Vec<Vec<i32>> = vec![vec![1, 2]];
    let c: Vec<Vec<i32>> = vec![vec![0, 2]];
    let d: Vec<i32> = vec![3];
    for batch_size in 1..4 {
        let r = query_sketches(&store, &a, &b, &c, &d, batch_size).unwrap();
        assert_eq!(words_sorted(&r), vec![km(b'A')]);
    }
}

#[test]
fn test_empty_result_query() {
    // Everything sample 1 holds is excluded again: the result is empty.
    let store = store_of(&[b"AC", b"AC"]);
    let a: Vec<i32> = vec![0];
    let empty_ids: Vec<i32> = vec![];
    let no_groups: Vec<Vec<i32>> = vec![];
    let d: Vec<i32> = vec![1];
    let r = query_sketches(&store, &a, &no_groups, &no_groups, &d, 1).unwrap();
    assert!(r.is_empty());
}
