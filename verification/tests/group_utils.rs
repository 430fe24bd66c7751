use kmer_query_engine::groups::create_unique_vec;
use kmer_query_engine::groups::find_smallest_vec_and_index;
use kmer_query_engine::groups::select_files_to_load;
use kmer_query_engine::parse::read_fof_columns;

#[test]
fn test_smallest1() {
    let list_of_vecs = vec![vec![1, 2, 3]];
    let (index, smallest_vec) = find_smallest_vec_and_index(&list_of_vecs);
    assert_eq!(index, 0);
    assert_eq!(smallest_vec, vec![1, 2, 3]);
}

#[test]
fn test_smallest2() {
    let list_of_vecs = vec![vec![1], vec![2], vec![3]];
    let (index, smallest_vec) = find_smallest_vec_and_index(&list_of_vecs);
    assert_eq!(index, 0);
    assert_eq!(smallest_vec, vec![1]);
}

#[test]
fn test_smallest3() {
    let list_of_vecs = vec![vec![1, 2, 3, 4], vec![5, 6], vec![7, 8, 9]];
    let (index, smallest_vec) = find_smallest_vec_and_index(&list_of_vecs);
    assert_eq!(index, 1);
    assert_eq!(smallest_vec, vec![5, 6]);
}

#[test]
fn test_smallest4() {
    let list_of_vecs = vec![vec![1, 2], vec![3, 4], vec![5, 6]];
    let (index, smallest_vec) = find_smallest_vec_and_index(&list_of_vecs);
    assert_eq!(index, 0);
    assert_eq!(smallest_vec, vec![1, 2]);
}

#[test]
fn test_smallest_empty() {
    let list_of_vecs = vec![vec![], vec![3, 4], vec![5, 6], vec![7]];
    let (index, smallest_vec) = find_smallest_vec_and_index(&list_of_vecs);
    assert_eq!(index, 3);
    assert_eq!(smallest_vec, vec![7]);
}

#[test]
fn test_create_unique_vec1() {
    let a_cup = vec![1, 2, 3];
    let b_star = vec![vec![4, 5], vec![6]];
    let c_star = vec![vec![7, 8], vec![9]];
    let d_cup = vec![10, 11];
    let mut result = create_unique_vec(a_cup, b_star, c_star, d_cup);
    result.sort();
    assert_eq!(result, vec![1, 2, 3, 4, 5, 6, 7, 8, 9, 10, 11]);
}

#[test]
fn test_create_unique_vec2() {
    let a_cup = vec![1, 2, 3];
    let b_star = vec![];
    let c_star = vec![vec![4, 5], vec![6]];
    let d_cup = vec![7, 8];
    let mut result = create_unique_vec(a_cup, b_star, c_star, d_cup);
    result.sort();
    assert_eq!(result, vec![1, 2, 3, 4, 5, 6, 7, 8]);
}

#[test]
fn test_create_unique_vec3() {
    let a_cup = vec![1, 2, 2];
    let b_star = vec![vec![2], vec![3, 4]];
    let c_star = vec![vec![3, 4, 4], vec![5]];
    let d_cup = vec![1, 6];
    let mut result = create_unique_vec(a_cup, b_star, c_star, d_cup);
    result.sort();
    assert_eq!(result, vec![1, 2, 3, 4, 5, 6]);
}

#[test]
fn test_create_unique_vec4() {
    let a_cup = vec![];
    let b_star = vec![vec![0], vec![]];
    let c_star = vec![vec![], vec![]];
    let d_cup = vec![];
    let mut result = create_unique_vec(a_cup, b_star, c_star, d_cup);
    result.sort();
    assert_eq!(result, vec![0]);
}

#[test]
fn test_load_all_files_ab_empty() {
    let input_files = vec![
        "file1.txt".to_string(),
        "file2.txt".to_string(),
        "file3.txt".to_string(),
    ];
    let a_cup: Vec<i32> = vec![];
    let b_star: Vec<Vec<i32>> = vec![];
    let c_star: Vec<Vec<i32>> = vec![vec![1]];
    let d_cup: Vec<i32> = vec![1];

    let loaded_files_values = select_files_to_load(&input_files, &a_cup, &b_star, &c_star, &d_cup);
    let (loaded_files, _) = loaded_files_values;
    assert_eq!(loaded_files, input_files);
}

#[test]
fn test_load_all_files2() {
    let input_files = vec![
        "file1.txt".to_string(),
        "file2.txt".to_string(),
        "file3.txt".to_string(),
    ];
    let a_cup: Vec<i32> = vec![1];
    let b_star: Vec<Vec<i32>> = vec![vec![2]];
    let c_star: Vec<Vec<i32>> = vec![vec![1]];
    let d_cup: Vec<i32> = vec![1];

    let loaded_files_values = select_files_to_load(&input_files, &a_cup, &b_star, &c_star, &d_cup);
    let (loaded_files, _) = loaded_files_values;
    assert_eq!(
        loaded_files,
        vec!["file2.txt".to_string(), "file3.txt".to_string()]
    );
}

#[test]
fn test_select_indices_in_order() {
    let input_files = vec![
        "a.fa".to_string(),
        "b.fa".to_string(),
        "c.fa".to_string(),
        "d.fa".to_string(),
    ];
    let a_cup: Vec<i32> = vec![3, 0];
    let b_star: Vec<Vec<i32>> = vec![];
    let c_star: Vec<Vec<i32>> = vec![];
    let d_cup: Vec<i32> = vec![];
    let (files, indices) = select_files_to_load(&input_files, &a_cup, &b_star, &c_star, &d_cup);
    assert_eq!(indices, vec![0, 3]);
    assert_eq!(files, vec!["a.fa".to_string(), "d.fa".to_string()]);
}

#[test]
fn test_read_fof_columns_plain() {
    let lines: Vec<Vec<u8>> = vec![
        b"test_files/test1.fa".to_vec(),
        b"test_files/test2.fa".to_vec(),
        b"test_files/test3.fa".to_vec(),
        b"test_files/test4.fa".to_vec(),
        b"test_files/test5.fa".to_vec(),
        b"test_files/test6.fa".to_vec(),
    ];
    let (columns, count) = read_fof_columns(&lines);
    assert_eq!(count, 6);
    assert_eq!(columns, lines);
}

#[test]
fn test_read_fof_columns_extra_columns_and_blank_lines() {
    let lines: Vec<Vec<u8>> = vec![
        b"  path/one.fa\textra column".to_vec(),
        b"".to_vec(),
        b"   ".to_vec(),
        b"path/two.fa more".to_vec(),
    ];
    let (columns, count) = read_fof_columns(&lines);
    assert_eq!(count, 2);
    assert_eq!(columns, vec![b"path/one.fa".to_vec(), b"path/two.fa".to_vec()]);
}
