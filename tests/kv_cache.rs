use mistralrs_core::kv_cache::{update_kv_cache, KvPair};

fn append_one_at_a_time(n: u64, window: Option<usize>) -> (Vec<u64>, Vec<u64>) {
    let mut cell: Option<KvPair> = None;
    for i in 0..n {
        update_kv_cache(&mut cell, vec![i], vec![100 + i], true, window);
    }
    let p = cell.unwrap();
    (p.key, p.value)
}

#[test]
fn dense_append_without_window_keeps_everything() {
    let (k, v) = append_one_at_a_time(5, None);
    assert_eq!(k, vec![0, 1, 2, 3, 4]);
    assert_eq!(v, vec![100, 101, 102, 103, 104]);
}

#[test]
fn dense_append_with_window_keeps_the_most_recent() {
    let (k, v) = append_one_at_a_time(5, Some(3));
    assert_eq!(k, vec![2, 3, 4]);
    assert_eq!(v, vec![102, 103, 104]);
    let (k, _) = append_one_at_a_time(2, Some(3));
    assert_eq!(k, vec![0, 1]);
}

#[test]
fn empty_cell_takes_new_rows_unmasked() {
    let mut cell: Option<KvPair> = None;
    let r = update_kv_cache(&mut cell, vec![1, 2, 3, 4], vec![5, 6, 7, 8], true, Some(2));
    assert_eq!(r.key, vec![1, 2, 3, 4]);
    assert_eq!(r.mask_len, None);
    let r = update_kv_cache(&mut cell, vec![9], vec![10], true, Some(2));
    assert_eq!(r.key, vec![4, 9]);
    assert_eq!(r.value, vec![8, 10]);
    assert_eq!(r.mask_len, Some(2));
    assert_eq!(cell.unwrap().key, vec![4, 9]);
}

#[test]
fn non_sliding_layer_ignores_the_window() {
    let mut cell: Option<KvPair> = None;
    update_kv_cache(&mut cell, vec![1, 2], vec![3, 4], false, Some(1));
    let r = update_kv_cache(&mut cell, vec![5], vec![6], false, Some(1));
    assert_eq!(r.key, vec![1, 2, 5]);
    assert_eq!(r.mask_len, None);
}
