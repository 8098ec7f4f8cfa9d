use mistralrs_core::block_engine::BlockEngine;
use mistralrs_core::inputs::{
    get_completion_input, get_prompt_input, make_completion_chunk, make_prompt_chunk, InputsError,
    PagedAttentionMeta, TextInputsProcessor, InputsProcessorType,
};

fn toks(lens: &[usize]) -> Vec<Vec<u32>> {
    lens.iter().map(|&l| (1..=l as u32).collect()).collect()
}

#[test]
fn slot_of_position_thirty_two_is_in_the_third_block() {
    let mut e = BlockEngine::new(8, 16);
    e.allocate_for(7, 33).unwrap();
    let table = e.block_table(7).unwrap();
    let meta = PagedAttentionMeta { sliding_window: None, block_size: 16, block_engine: &e };
    let out = make_completion_chunk(&toks(&[33]), &vec![7], Some(&meta));
    let paged = out.paged_attn_meta.unwrap();
    assert_eq!(paged.slot_mappings, vec![vec![Some(table[2] * 16 + 0)]]);
    assert_eq!(paged.block_tables, vec![table]);
    assert_eq!(paged.context_lens, vec![vec![33]]);
    assert_eq!(out.positions, vec![32]);
    assert_eq!(out.position_ids, vec![33]);
    assert_eq!(out.input, vec![vec![33]]);
}

#[test]
fn completion_window_hides_old_blocks() {
    let mut e = BlockEngine::new(8, 4);
    e.allocate_for(1, 14).unwrap();
    let table = e.block_table(1).unwrap();
    let meta = PagedAttentionMeta { sliding_window: Some(8), block_size: 4, block_engine: &e };
    let out = make_completion_chunk(&toks(&[14]), &vec![1], Some(&meta));
    let paged = out.paged_attn_meta.unwrap();
    assert_eq!(paged.block_tables, vec![table[2..].to_vec()]);
    assert_eq!(paged.context_lens, vec![vec![8]]);
    assert_eq!(paged.max_context_len, 8);
    assert_eq!(paged.slot_mappings, vec![vec![Some(table[3] * 4 + 1)]]);
}

#[test]
fn completion_chunk_cumulative_lengths() {
    let out = make_completion_chunk(&toks(&[3, 5, 2]), &vec![0, 1, 2], None);
    assert_eq!(out.input, vec![vec![3], vec![5], vec![2]]);
    assert_eq!(out.positions, vec![2, 4, 1]);
    assert_eq!(out.positions_kernel, vec![vec![2], vec![4], vec![1]]);
    assert_eq!(out.context_lens, vec![(0, 1), (0, 1), (0, 1)]);
    assert_eq!(out.flash_meta.cumulative_seqlens_q, vec![0, 1, 2, 3]);
    assert_eq!(out.flash_meta.cumulative_seqlens_k, vec![0, 3, 8, 10]);
    assert_eq!(out.flash_meta.max_q, 1);
    assert_eq!(out.flash_meta.max_k, 5);
    assert!(!out.use_matmul_via_f16);
    assert!(out.paged_attn_meta.is_none());
}

#[test]
fn prompt_chunk_pads_and_accumulates() {
    let out = make_prompt_chunk(0, &toks(&[3, 5]), &vec![0, 1], None, None);
    assert_eq!(out.input, vec![vec![1, 2, 3, 0, 0], vec![1, 2, 3, 4, 5]]);
    assert_eq!(out.positions, vec![0, 0]);
    assert_eq!(out.position_ids, vec![3, 5]);
    assert_eq!(out.context_lens, vec![(2, 1), (4, 1)]);
    assert_eq!(out.positions_kernel, vec![vec![0, 1, 2, 3, 4], vec![0, 1, 2, 3, 4]]);
    assert_eq!(out.flash_meta.cumulative_seqlens_q, vec![0, 5, 10]);
    assert_eq!(out.flash_meta.cumulative_seqlens_k, vec![0, 5, 10]);
    assert_eq!(out.flash_meta.max_q, 5);
    assert_eq!(out.flash_meta.max_k, 5);
}

#[test]
fn prompt_chunk_with_offset_and_context_span() {
    let out = make_prompt_chunk(4, &toks(&[3]), &vec![0], Some((2, 10)), None);
    assert_eq!(out.positions, vec![14]);
    assert_eq!(out.position_ids, vec![7]);
    assert_eq!(out.context_lens, vec![(1, 2)]);
    assert_eq!(out.positions_kernel, vec![vec![14, 15, 16]]);
    assert_eq!(out.flash_meta.cumulative_seqlens_k, vec![0, 7]);
    assert_eq!(out.flash_meta.max_k, 7);
}

#[test]
fn half_width_products_above_threshold_only() {
    let long = make_prompt_chunk(0, &toks(&[513]), &vec![0], None, None);
    assert!(long.use_matmul_via_f16);
    let short = make_prompt_chunk(0, &toks(&[512]), &vec![0], None, None);
    assert!(!short.use_matmul_via_f16);
}

#[test]
fn prompt_chunk_paged_slots_and_pad_slots() {
    let mut e = BlockEngine::new(8, 4);
    e.allocate_for(1, 6).unwrap();
    e.allocate_for(2, 3).unwrap();
    let t1 = e.block_table(1).unwrap();
    let t2 = e.block_table(2).unwrap();
    let meta = PagedAttentionMeta { sliding_window: None, block_size: 4, block_engine: &e };
    let out = make_prompt_chunk(0, &toks(&[6, 3, 2]), &vec![1, 2, 3], None, Some(&meta));
    let p = out.paged_attn_meta.unwrap();
    let s = |t: &Vec<usize>, i: usize| Some(t[i / 4] * 4 + i % 4);
    assert_eq!(
        p.slot_mappings,
        vec![
            vec![s(&t1, 0), s(&t1, 1), s(&t1, 2), s(&t1, 3), s(&t1, 4), s(&t1, 5)],
            vec![s(&t2, 0), s(&t2, 1), s(&t2, 2), None, None, None],
            vec![None, None, None, None, None, None],
        ]
    );
    assert_eq!(p.block_tables, vec![t1, t2, vec![]]);
    assert_eq!(p.context_lens, vec![vec![0, 1, 2, 3, 4, 5], vec![0, 1, 2], vec![]]);
    assert_eq!(p.max_context_len, 6);
}

#[test]
fn chunked_prompt_batching_splits_and_continues_positions() {
    let chunks = get_prompt_input(&toks(&[5, 2]), &vec![0, 1], None, None, Some(2)).unwrap();
    assert_eq!(chunks.len(), 3);
    assert_eq!(chunks[0].seq_indices, vec![0, 1]);
    assert_eq!(chunks[0].inputs.input, vec![vec![1, 2], vec![1, 2]]);
    assert_eq!(chunks[1].seq_indices, vec![0]);
    assert_eq!(chunks[1].inputs.input, vec![vec![3, 4]]);
    assert_eq!(chunks[1].inputs.positions, vec![2]);
    assert_eq!(chunks[1].inputs.positions_kernel, vec![vec![2, 3]]);
    assert_eq!(chunks[1].inputs.position_ids, vec![4]);
    assert_eq!(chunks[2].seq_indices, vec![0]);
    assert_eq!(chunks[2].inputs.input, vec![vec![5]]);
    assert_eq!(chunks[2].inputs.position_ids, vec![5]);
    assert_eq!(chunks[2].inputs.flash_meta.cumulative_seqlens_k, vec![0, 5]);
}

#[test]
fn chunked_prompt_with_paged_attention_is_a_configuration_conflict() {
    let e = BlockEngine::new(8, 4);
    let meta = PagedAttentionMeta { sliding_window: None, block_size: 4, block_engine: &e };
    assert!(matches!(
        get_prompt_input(&toks(&[5]), &vec![0], None, Some(&meta), Some(2)),
        Err(InputsError::ConfigurationConflict)
    ));
}

#[test]
fn unchunked_prompt_is_one_chunk_of_all_sequences() {
    let chunks = get_prompt_input(&toks(&[5, 2]), &vec![0, 1], None, None, None).unwrap();
    assert_eq!(chunks.len(), 1);
    assert_eq!(chunks[0].seq_indices, vec![0, 1]);
}

#[test]
fn completion_without_kv_cache_rebuilds_the_prompt() {
    let chunks = get_completion_input(&toks(&[4]), &vec![0], true, None, None, None).unwrap();
    assert_eq!(chunks.len(), 1);
    assert_eq!(chunks[0].inputs.input, vec![vec![1, 2, 3, 4]]);
    let chunks = get_completion_input(&toks(&[4]), &vec![0], false, None, None, None).unwrap();
    assert_eq!(chunks[0].inputs.input, vec![vec![4]]);
}

#[test]
fn text_processor_dispatch() {
    let p = TextInputsProcessor;
    assert_eq!(p.get_type(), InputsProcessorType::Text);
    let prompt = p.process_inputs(&toks(&[3]), &vec![0], true, false, None, None, None).unwrap();
    assert_eq!(prompt[0].inputs.input, vec![vec![1, 2, 3]]);
    let completion = p.process_inputs(&toks(&[3]), &vec![0], false, false, None, None, None).unwrap();
    assert_eq!(completion[0].inputs.input, vec![vec![3]]);
}

#[test]
fn kept_logits_span_never_covers_padding() {
    let out = make_prompt_chunk(0, &toks(&[1, 2]), &vec![0, 1], None, None);
    assert_eq!(out.input, vec![vec![1, 0], vec![1, 2]]);
    assert_eq!(out.context_lens, vec![(0, 1), (1, 1)]);
}

#[test]
fn later_chunk_kernel_positions_continue_from_the_offset() {
    let out = make_prompt_chunk(30, &toks(&[3]), &vec![0], None, None);
    assert_eq!(out.positions, vec![30]);
    assert_eq!(out.positions_kernel, vec![vec![30, 31, 32]]);
    assert_eq!(out.position_ids, vec![33]);
}

#[test]
fn completion_after_fork_writes_outside_the_parent_table() {
    let mut e = BlockEngine::new(8, 4);
    e.allocate_for(1, 6).unwrap();
    e.fork(1, 2).unwrap();
    e.append_token(2).unwrap();
    let ta = e.block_table(1).unwrap();
    let tb = e.block_table(2).unwrap();
    let meta = PagedAttentionMeta { sliding_window: None, block_size: 4, block_engine: &e };
    let out = make_completion_chunk(&vec![(1..=6).collect(), (1..=7).collect()], &vec![1, 2], Some(&meta));
    let p = out.paged_attn_meta.unwrap();
    assert_eq!(p.block_tables[0], ta);
    assert_eq!(p.slot_mappings[0], vec![Some(ta[1] * 4 + 1)]);
    assert_eq!(p.slot_mappings[1], vec![Some(tb[1] * 4 + 2)]);
    assert!(!ta.contains(&tb[1]));
    assert_eq!(tb[0], ta[0]);
}
