use llm_rs::attention;
use llm_rs::attention::{concatenate_heads, kv_head_of, split_into_heads, split_into_qkv, visible_positions};
use llm_rs::model::{append_heads, cached_positions, empty_cache, truncate_cache, KVCache, ModelType};
use llm_rs::tensor::{copy_vec, gather_rows, last_row, shape_product, Tensor};

fn counting(n: i32, shape: Vec<usize>) -> Tensor<i32> {
    Tensor::new((0..n).collect(), shape)
}

#[test]
fn shape_product_multiplies_the_sizes() {
    assert_eq!(shape_product(&vec![2, 3, 4]), 24);
    assert_eq!(shape_product(&vec![]), 1);
    assert_eq!(shape_product(&vec![5, 0, 7]), 0);
}

#[test]
fn copy_vec_keeps_every_element() {
    assert_eq!(copy_vec(&vec![3u8, 1, 4]), vec![3u8, 1, 4]);
    assert_eq!(copy_vec::<u8>(&vec![]), Vec::<u8>::new());
}

#[test]
fn new_keeps_data_and_shape() {
    let t = Tensor::new(vec![1.5f32, 2.5], vec![1, 2]);
    assert_eq!(t.data, vec![1.5, 2.5]);
    assert_eq!(t.shape, vec![1, 2]);
}

#[test]
fn zeros_fills_as_many_as_the_shape_holds() {
    let mut t = Tensor::new(vec![5, 6, 7], vec![2, 3]);
    t.zeros(0);
    assert_eq!(t.data, vec![0; 6]);
    assert_eq!(t.shape, vec![2, 3]);
}

#[test]
fn reshape_keeps_the_data() {
    let mut t = counting(6, vec![2, 3]);
    t.reshape(vec![3, 2]);
    assert_eq!(t.shape, vec![3, 2]);
    assert_eq!(t.data, vec![0, 1, 2, 3, 4, 5]);
}

#[test]
fn get_and_set_use_row_major_offsets() {
    let mut t = counting(24, vec![2, 3, 4]);
    assert_eq!(t.get(vec![1, 2, 3]), 23);
    assert_eq!(t.get(vec![1, 0, 2]), 14);
    t.set(vec![0, 1, 1], 100);
    assert_eq!(t.data[5], 100);
    assert_eq!(t.get(vec![0, 1, 1]), 100);
    assert_eq!(t.shape, vec![2, 3, 4]);
}

#[test]
fn transpose_swaps_rows_and_columns() {
    let t = Tensor::new(vec![1, 2, 3, 4, 5, 6], vec![2, 3]);
    let tt = t.transpose();
    assert_eq!(tt.shape, vec![3, 2]);
    assert_eq!(tt.data, vec![1, 4, 2, 5, 3, 6]);
}

#[test]
fn transpose_twice_gives_the_matrix_back() {
    let t = counting(12, vec![3, 4]);
    let back = t.transpose().transpose();
    assert_eq!(back.shape, t.shape);
    assert_eq!(back.data, t.data);
}

#[test]
fn causal_mask_hides_what_lies_ahead() {
    let t = counting(9, vec![3, 3]);
    let m = t.apply_causal_mask(-1);
    assert_eq!(m.shape, vec![3, 3]);
    assert_eq!(m.data, vec![0, -1, -1, 3, 4, -1, 6, 7, 8]);
}

#[test]
fn causal_mask_of_a_wide_matrix() {
    let t = counting(8, vec![2, 4]);
    let m = t.apply_causal_mask(-1);
    assert_eq!(m.data, vec![0, -1, -1, -1, 4, 5, -1, -1]);
}

#[test]
fn heads_split_and_join() {
    let t = counting(8, vec![2, 4]);
    let heads = split_into_heads(&t, 2);
    assert_eq!(heads.len(), 2);
    assert_eq!(heads[0].data, vec![0, 1, 4, 5]);
    assert_eq!(heads[1].data, vec![2, 3, 6, 7]);
    assert_eq!(heads[0].shape, vec![2, 2]);
    assert_eq!(heads[1].shape, vec![2, 2]);
    let joined = concatenate_heads(&heads);
    assert_eq!(joined.shape, vec![2, 4]);
    assert_eq!(joined.data, t.data);
}

#[test]
fn one_head_is_the_whole_matrix() {
    let t = counting(6, vec![3, 2]);
    let heads = split_into_heads(&t, 1);
    assert_eq!(heads.len(), 1);
    assert_eq!(heads[0].data, t.data);
    assert_eq!(heads[0].shape, vec![3, 2]);
}

#[test]
fn qkv_split_takes_a_third_of_each_row() {
    let t = counting(12, vec![2, 6]);
    let (q, k, v) = split_into_qkv(&t, -1);
    assert_eq!(q.data, vec![0, 1, 6, 7]);
    assert_eq!(k.data, vec![2, 3, 8, 9]);
    assert_eq!(v.data, vec![4, 5, 10, 11]);
    assert_eq!(q.shape, vec![2, 2]);
    assert_eq!(k.shape, vec![2, 2]);
    assert_eq!(v.shape, vec![2, 2]);
}

#[test]
fn concat_stacks_rows() {
    let a = Tensor::new(vec![1, 2], vec![1, 2]);
    let b = Tensor::new(vec![3, 4, 5, 6], vec![2, 2]);
    let c = attention::concat(&a, &b);
    assert_eq!(c.data, vec![1, 2, 3, 4, 5, 6]);
    assert_eq!(c.shape, vec![3, 2]);
}

#[test]
fn truncate_cache_cuts_every_head() {
    let head = || counting(6, vec![3, 2]);
    let mut cache = Some(KVCache { k: vec![vec![head(), head()]], v: vec![vec![head(), head()]] });
    truncate_cache(&mut cache, 2);
    let c = cache.unwrap();
    for h in 0..2 {
        assert_eq!(c.k[0][h].data, vec![0, 1, 2, 3]);
        assert_eq!(c.k[0][h].shape, vec![2, 2]);
        assert_eq!(c.v[0][h].data, vec![0, 1, 2, 3]);
        assert_eq!(c.v[0][h].shape, vec![2, 2]);
    }
}

#[test]
fn truncate_cache_beyond_the_end_keeps_the_data() {
    let mut cache = Some(KVCache { k: vec![vec![counting(4, vec![2, 2])]], v: vec![vec![counting(4, vec![2, 2])]] });
    truncate_cache(&mut cache, 5);
    let c = cache.unwrap();
    assert_eq!(c.k[0][0].data, vec![0, 1, 2, 3]);
    assert_eq!(c.k[0][0].shape, vec![5, 2]);
}

#[test]
fn truncate_empty_cache() {
    let mut cache: Option<KVCache<i32>> = None;
    truncate_cache(&mut cache, 3);
    assert!(cache.is_none());
}

#[test]
fn model_types_compare() {
    assert_eq!(ModelType::GPT2, ModelType::GPT2);
    assert_ne!(ModelType::GPT2, ModelType::Llama);
}

#[test]
fn set_changes_only_the_element_written() {
    let mut t = counting(6, vec![2, 3]);
    t.set(vec![1, 0], -5);
    for r in 0..2 {
        for c in 0..3 {
            let expected = if (r, c) == (1, 0) { -5 } else { (r * 3 + c) as i32 };
            assert_eq!(t.get(vec![r, c]), expected);
        }
    }
}

#[test]
fn cutting_an_extended_head_gives_it_back() {
    let a = counting(4, vec![2, 2]);
    let b = Tensor::new(vec![10, 11], vec![1, 2]);
    let mut cache = Some(KVCache { k: vec![vec![attention::concat(&a, &b)]], v: vec![vec![attention::concat(&a, &b)]] });
    truncate_cache(&mut cache, 2);
    let c = cache.unwrap();
    assert_eq!(c.k[0][0].data, a.data);
    assert_eq!(c.k[0][0].shape, a.shape);
    assert_eq!(c.v[0][0].data, a.data);
}

#[test]
fn gather_rows_looks_up_each_id() {
    let table: Vec<i32> = (0..12).collect();
    assert_eq!(gather_rows(&table, &[2, 0, 2], 3), vec![6, 7, 8, 0, 1, 2, 6, 7, 8]);
    assert_eq!(gather_rows(&table, &[], 3), Vec::<i32>::new());
}

#[test]
fn last_row_is_the_tail() {
    let t = counting(6, vec![2, 3]);
    let r = last_row(&t, 3);
    assert_eq!(r.data, vec![3, 4, 5]);
    assert_eq!(r.shape, vec![3]);
}

#[test]
fn empty_cache_has_no_positions() {
    let c: KVCache<i32> = empty_cache(3);
    assert_eq!(c.k.len(), 3);
    assert_eq!(c.v.len(), 3);
    assert!(c.k.iter().chain(c.v.iter()).all(|heads| heads.is_empty()));
    assert_eq!(cached_positions::<i32>(&None), 0);
}

#[test]
fn appending_heads_grows_each_head() {
    let mut c: KVCache<i32> = empty_cache(2);
    let first = vec![counting(2, vec![1, 2]), Tensor::new(vec![7, 8], vec![1, 2])];
    append_heads(&mut c, 1, &first, &first);
    assert_eq!(c.k[1].len(), 2);
    assert_eq!(c.v[1].len(), 2);
    assert!(c.k[0].is_empty());
    assert_eq!(c.k[1][1].data, vec![7, 8]);

    let more = vec![Tensor::new(vec![2, 3], vec![1, 2]), Tensor::new(vec![9, 10], vec![1, 2])];
    append_heads(&mut c, 1, &more, &more);
    assert_eq!(c.k[1][0].data, vec![0, 1, 2, 3]);
    assert_eq!(c.k[1][0].shape, vec![2, 2]);
    assert_eq!(c.v[1][1].data, vec![7, 8, 9, 10]);
    assert_eq!(c.v[1][1].shape, vec![2, 2]);

    c.k[0] = vec![counting(6, vec![3, 2])];
    assert_eq!(cached_positions(&Some(c)), 3);
}

#[test]
fn query_heads_share_key_value_heads_in_groups() {
    assert_eq!(kv_head_of(0, 32, 4), 0);
    assert_eq!(kv_head_of(7, 32, 4), 0);
    assert_eq!(kv_head_of(8, 32, 4), 1);
    assert_eq!(kv_head_of(31, 32, 4), 3);
    assert_eq!(kv_head_of(5, 12, 12), 5);
}

#[test]
fn each_query_row_sees_up_to_its_own_position() {
    assert_eq!(visible_positions(3, 3, 0), 1);
    assert_eq!(visible_positions(3, 3, 2), 3);
    assert_eq!(visible_positions(2, 10, 0), 9);
    assert_eq!(visible_positions(1, 10, 0), 10);
}
