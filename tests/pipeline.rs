use mistralrs_core::block_engine::BlockEngine;
use mistralrs_core::inputs::{InputMetadata, PagedAttentionMeta};
use mistralrs_core::kv_cache::KvPair;
use mistralrs_core::pipeline::{
    collect_logits, extract_logits, scatter_logits, AdapterInstruction, Cache, CacheBackendMetadata, CacheInstruction,
    Model, NonGranularState, Pipeline, Sequence, StepError,
};

/// A deterministic model: for each row, the last kept token and the kernel
/// position that follows it.
struct Stub {
    calls: usize,
    activated: Vec<String>,
    fail: bool,
}

impl Model<(u32, usize)> for Stub {
    fn forward_inputs(&mut self, inputs: &InputMetadata, cache: &mut Cache) -> Result<Vec<(u32, usize)>, StepError> {
        self.calls += 1;
        if self.fail {
            return Err(StepError::ShapeOrDevice);
        }
        let _ = cache;
        let mut out = Vec::new();
        for (r, row) in inputs.input.iter().enumerate() {
            let (start, len) = inputs.context_lens[r];
            let last = start + len - 1;
            out.push((row[last], inputs.positions_kernel[r][last] + 1));
        }
        Ok(out)
    }

    fn activate_adapters(&mut self, adapters: &Vec<String>) -> Result<usize, StepError> {
        self.activated = adapters.clone();
        Ok(adapters.len())
    }

    fn execute_scheduler_ops(
        &mut self,
        _in: &Vec<(usize, usize)>,
        _out: &Vec<(usize, usize)>,
        _copy: &Vec<(usize, Vec<usize>)>,
    ) -> Result<(), StepError> {
        Ok(())
    }
}

fn pipeline(prompt_batchsize: Option<usize>) -> Pipeline<Stub> {
    Pipeline {
        model: Stub { calls: 0, activated: Vec::new(), fail: false },
        cache: Cache::new(),
        no_kv_cache: false,
        prompt_batchsize,
        non_granular_state: None,
    }
}

fn defaults() -> CacheBackendMetadata<'static> {
    CacheBackendMetadata::DefaultInstructions {
        pre_op: CacheInstruction::Reset { reset_non_granular: false, adapter_inst: AdapterInstruction::Keep },
        post_op: CacheInstruction::Reset { reset_non_granular: false, adapter_inst: AdapterInstruction::Keep },
    }
}

#[test]
fn chunked_prompt_gives_the_same_final_logits() {
    let prompt: Vec<u32> = (1..=100).collect();
    let mut whole = pipeline(None);
    let mut seqs = vec![Sequence::new(0, prompt.clone())];
    let a = whole.step(&mut seqs, true, defaults()).unwrap();
    let mut chunked = pipeline(Some(30));
    let mut seqs = vec![Sequence::new(0, prompt)];
    let b = chunked.step(&mut seqs, true, defaults()).unwrap();
    assert_eq!(a, b);
    assert_eq!(a, vec![(100, 100)]);
    assert_eq!(whole.model.calls, 1);
    assert_eq!(chunked.model.calls, 4);
}

#[test]
fn chunked_batch_places_logits_by_sequence() {
    let mut p = pipeline(Some(3));
    let mut seqs = vec![Sequence::new(0, (1..=7).collect()), Sequence::new(1, (11..=12).collect())];
    let out = p.step(&mut seqs, true, defaults()).unwrap();
    assert_eq!(out, vec![(7, 7), (12, 2)]);
}

#[test]
fn in_then_out_leaves_sequence_caches_unchanged() {
    let mut seqs = vec![Sequence::new(0, vec![1]), Sequence::new(1, vec![2])];
    seqs[0].cache = vec![Some(KvPair { key: vec![1, 2], value: vec![3, 4] }), None];
    seqs[1].cache = vec![None, Some(KvPair { key: vec![5], value: vec![6] })];
    let mut cache = Cache::new();
    cache.clone_in_cache(&mut seqs);
    assert!(seqs[0].cache.is_empty());
    assert_eq!(cache.seqs.len(), 2);
    cache.clone_out_cache(&mut seqs);
    assert!(cache.seqs.is_empty());
    assert_eq!(seqs[0].cache[0].as_ref().unwrap().key, vec![1, 2]);
    assert!(seqs[0].cache[1].is_none());
    assert!(seqs[1].cache[0].is_none());
    assert_eq!(seqs[1].cache[1].as_ref().unwrap().value, vec![6]);
}

#[test]
fn completion_step_with_in_and_out_round_trips_the_cache() {
    let mut p = pipeline(None);
    let mut seqs = vec![Sequence::new(3, vec![4, 5, 6])];
    seqs[0].cache = vec![Some(KvPair { key: vec![9, 9], value: vec![8, 8] })];
    let backend = CacheBackendMetadata::DefaultInstructions {
        pre_op: CacheInstruction::In(AdapterInstruction::Activate(vec!["a".to_string()])),
        post_op: CacheInstruction::Out,
    };
    let out = p.step(&mut seqs, false, backend).unwrap();
    assert_eq!(out, vec![(6, 3)]);
    assert_eq!(p.model.activated, vec!["a".to_string()]);
    assert_eq!(seqs[0].cache[0].as_ref().unwrap().key, vec![9, 9]);
    assert!(p.cache.seqs.is_empty());
}

#[test]
fn model_error_aborts_the_step() {
    let mut p = pipeline(None);
    p.model.fail = true;
    let mut seqs = vec![Sequence::new(0, vec![1, 2])];
    assert_eq!(p.step(&mut seqs, true, defaults()), Err(StepError::ShapeOrDevice));
}

#[test]
fn paged_step_refuses_chunked_prompts() {
    let e = BlockEngine::new(4, 4);
    let mut p = pipeline(Some(2));
    let mut seqs = vec![Sequence::new(0, vec![1, 2, 3])];
    let backend = CacheBackendMetadata::PagedAttention {
        metadata: PagedAttentionMeta { sliding_window: None, block_size: 4, block_engine: &e },
        blocks_to_swap_in: vec![],
        blocks_to_swap_out: vec![],
        blocks_to_copy: vec![],
    };
    assert_eq!(p.step(&mut seqs, true, backend), Err(StepError::ConfigurationConflict));
    assert_eq!(p.model.calls, 0);
}

#[test]
fn paged_completion_step() {
    let mut e = BlockEngine::new(4, 4);
    e.allocate_for(0, 3).unwrap();
    let mut p = pipeline(None);
    let mut seqs = vec![Sequence::new(0, vec![1, 2, 3])];
    let backend = CacheBackendMetadata::PagedAttention {
        metadata: PagedAttentionMeta { sliding_window: None, block_size: 4, block_engine: &e },
        blocks_to_swap_in: vec![],
        blocks_to_swap_out: vec![],
        blocks_to_copy: vec![],
    };
    assert_eq!(p.step(&mut seqs, false, backend), Ok(vec![(3, 3)]));
}

#[test]
fn reset_clears_the_non_granular_count() {
    let mut p = pipeline(None);
    p.non_granular_state = Some(NonGranularState { non_granular_index: 5, tgt_non_granular_index: 2 });
    p.set_none_cache(true);
    let s = p.non_granular_state.unwrap();
    assert_eq!(s.non_granular_index, 0);
    assert_eq!(s.tgt_non_granular_index, 2);
}

#[test]
fn scatter_places_rows_and_checks_shapes() {
    let mut logits: Vec<Option<u8>> = vec![None, None, None];
    assert_eq!(scatter_logits(&mut logits, &vec![2, 0], vec![7, 8]), Ok(()));
    assert_eq!(logits, vec![Some(8), None, Some(7)]);
    assert_eq!(scatter_logits(&mut logits, &vec![1], vec![1, 2]), Err(StepError::ShapeOrDevice));
    assert_eq!(scatter_logits(&mut logits, &vec![3], vec![1]), Err(StepError::ShapeOrDevice));
    assert_eq!(collect_logits(logits), Err(StepError::MissingLogits));
    assert_eq!(collect_logits(vec![Some(1u8), Some(2)]), Ok(vec![1, 2]));
}

#[test]
fn extract_keeps_the_trailing_span_of_each_row() {
    let logits = vec![vec![1u8, 2, 3, 4], vec![5, 6, 7, 8]];
    assert_eq!(extract_logits(&logits, &vec![(3, 1), (1, 2)]), vec![vec![4], vec![6, 7]]);
}

#[test]
fn failed_step_gives_every_sequence_its_cache_back() {
    let mut p = pipeline(None);
    p.model.fail = true;
    let mut seqs = vec![Sequence::new(0, vec![1, 2]), Sequence::new(1, vec![3])];
    seqs[0].cache = vec![Some(KvPair { key: vec![7], value: vec![8] })];
    let backend = CacheBackendMetadata::DefaultInstructions {
        pre_op: CacheInstruction::In(AdapterInstruction::Keep),
        post_op: CacheInstruction::Out,
    };
    assert_eq!(p.step(&mut seqs, false, backend), Err(StepError::ShapeOrDevice));
    assert_eq!(seqs[0].cache[0].as_ref().unwrap().key, vec![7]);
    assert_eq!(seqs[0].cache[0].as_ref().unwrap().value, vec![8]);
    assert!(seqs[1].cache.is_empty());
}

#[test]
fn finish_step_places_rows_by_last_chunk_and_moves_the_cache_out() {
    let mut p = pipeline(None);
    let mut seqs = vec![Sequence::new(0, vec![1]), Sequence::new(1, vec![2])];
    p.cache.seqs = vec![vec![None], vec![Some(KvPair { key: vec![4], value: vec![5] })]];
    let out = p
        .finish_step(&mut seqs, &vec![vec![0, 1], vec![0]], vec![vec![10u8, 11], vec![20]], &CacheInstruction::Out)
        .unwrap();
    assert_eq!(out, vec![20, 11]);
    assert!(p.cache.seqs.is_empty());
    assert!(seqs[0].cache[0].is_none());
    assert_eq!(seqs[1].cache[0].as_ref().unwrap().key, vec![4]);
}

#[test]
fn finish_step_errors_change_nothing() {
    let mut p = pipeline(None);
    let mut seqs = vec![Sequence::new(0, vec![1]), Sequence::new(1, vec![2])];
    let keep = CacheInstruction::Nothing(AdapterInstruction::Keep);
    assert_eq!(p.finish_step(&mut seqs, &vec![vec![0]], vec![vec![1u8]], &keep), Err(StepError::MissingLogits));
    assert_eq!(p.finish_step(&mut seqs, &vec![vec![0, 1]], vec![vec![1u8]], &keep), Err(StepError::ShapeOrDevice));
    assert_eq!(
        p.finish_step(&mut seqs, &vec![vec![0, 1]], vec![vec![1u8, 2]], &CacheInstruction::Out),
        Err(StepError::ShapeOrDevice)
    );
}

#[test]
fn begin_step_runs_the_pre_instruction() {
    let mut p = pipeline(None);
    p.non_granular_state = Some(NonGranularState { non_granular_index: 4, tgt_non_granular_index: 1 });
    let mut seqs = vec![Sequence::new(0, vec![1])];
    seqs[0].cache = vec![Some(KvPair { key: vec![1], value: vec![2] })];
    let pre = CacheInstruction::In(AdapterInstruction::Activate(vec!["x".to_string()]));
    assert_eq!(p.begin_step::<(u32, usize)>(&pre, &mut seqs), Ok(()));
    assert_eq!(p.model.activated, vec!["x".to_string()]);
    assert!(seqs[0].cache.is_empty());
    assert_eq!(p.cache.seqs.len(), 1);
    let reset = CacheInstruction::Reset { reset_non_granular: true, adapter_inst: AdapterInstruction::Keep };
    assert_eq!(p.begin_step::<(u32, usize)>(&reset, &mut seqs), Ok(()));
    assert!(p.cache.seqs.is_empty());
    assert_eq!(p.non_granular_state.unwrap().non_granular_index, 0);
}
