//! The per-step orchestrator: cache instructions before and after a step,
//! batch construction, the model call per chunk, and the placement of each
//! chunk's logits back in sequence order.
use vstd::prelude::*;
use crate::inputs::{
    InputMetadata, InputsError, PagedAttentionMeta, TextInputsProcessor, completion_paged_ready, kept_logits,
    chunk_members, lemma_chunks_hold_one, lens_of, max_len, prefix_sums, prompt_fits, prompt_paged_ready, rows_hold, rows_of,
};
use crate::kv_cache::KvPair;
use crate::block_engine::ceil_div;

verus! {

/// Cached keys and values of one sequence, one cell per layer.
pub type LayerCaches = Vec<Option<KvPair>>;

/// One request's generation state.
pub struct Sequence {
    pub id: usize,
    pub tokens: Vec<u32>,
    /// The sequence's own dense cache, held between steps.
    pub cache: LayerCaches,
}

impl Sequence {
    /// A sequence with the given tokens and an empty cache.
    pub fn new(id: usize, tokens: Vec<u32>) -> (r: Self)
        ensures
            r.id == id,
            r.tokens@ == tokens@,
            r.cache@.len() == 0,
    {
        Sequence { id, tokens, cache: Vec::new() }
    }

    pub fn len(&self) -> (r: usize)
        ensures
            r == self.tokens@.len(),
    {
        self.tokens.len()
    }
}

/// Adapters to switch to before a step.
pub enum AdapterInstruction {
    Activate(Vec<String>),
    /// Keep the adapters that are active.
    Keep,
}

/// What happens to the cache around a step.
pub enum CacheInstruction {
    /// Move each sequence's cache into the model.
    In(AdapterInstruction),
    /// Move the model's cache back into the sequences.
    Out,
    /// Empty the model's cache.
    Reset { reset_non_granular: bool, adapter_inst: AdapterInstruction },
    /// Leave the cache where it is.
    Nothing(AdapterInstruction),
}

/// The model's active dense cache: the layer caches of each member of the
/// batch being run.
pub struct Cache {
    pub seqs: Vec<LayerCaches>,
}

/// Caches held by `seqs`, in order.
pub open spec fn caches_of(seqs: Seq<Sequence>) -> Seq<LayerCaches> {
    seqs.map_values(|s: Sequence| s.cache)
}

/// `after` holds the same sequences as `before`, with the same ids and tokens.
pub open spec fn same_requests(before: Seq<Sequence>, after: Seq<Sequence>) -> bool {
    &&& after.len() == before.len()
    &&& forall|i: int|
        0 <= i < before.len() ==> (#[trigger] after[i]).id == before[i].id && after[i].tokens@
            == before[i].tokens@
}

/// Swaps the cache of sequence `i` with `c`.
fn swap_cache(seqs: &mut Vec<Sequence>, i: usize, c: LayerCaches) -> (r: LayerCaches)
    requires
        i < old(seqs)@.len(),
    ensures
        r == old(seqs)@[i as int].cache,
        same_requests(old(seqs)@, final(seqs)@),
        caches_of(final(seqs)@) == caches_of(old(seqs)@).update(i as int, c),
{
    let mut s = seqs.remove(i);
    let mut c2 = c;
    std::mem::swap(&mut s.cache, &mut c2);
    seqs.insert(i, s);
    assert(caches_of(seqs@) =~= caches_of(old(seqs)@).update(i as int, c));
    c2
}

impl Cache {
    /// An active cache that holds nothing.
    pub fn new() -> (r: Self)
        ensures
            r.seqs@.len() == 0,
    {
        Cache { seqs: Vec::new() }
    }

    /// Moves the cache of each sequence into the model, in batch order; the
    /// sequences are left with empty caches.
    pub fn clone_in_cache(&mut self, seqs: &mut Vec<Sequence>)
        ensures
            final(self).seqs@ == caches_of(old(seqs)@),
            same_requests(old(seqs)@, final(seqs)@),
            forall|i: int| 0 <= i < final(seqs)@.len() ==> (#[trigger] final(seqs)@[i]).cache@.len() == 0,
    {
        let mut taken: Vec<LayerCaches> = Vec::new();
        let mut i: usize = 0;
        while i < seqs.len()
            invariant
                i <= seqs@.len(),
                same_requests(old(seqs)@, seqs@),
                taken@ == caches_of(old(seqs)@).subrange(0, i as int),
                forall|j: int| 0 <= j < i ==> (#[trigger] seqs@[j]).cache@.len() == 0,
                forall|j: int| i <= j < seqs@.len() ==> (#[trigger] seqs@[j]).cache == old(seqs)@[j].cache,
            decreases seqs@.len() - i,
        {
            let ghost before = seqs@;
            let empty: LayerCaches = Vec::new();
            let ghost e = empty;
            let c = swap_cache(seqs, i, empty);
            assert(caches_of(seqs@)[i as int] == e);
            taken.push(c);
            proof {
                assert forall|j: int| 0 <= j < seqs@.len() implies (#[trigger] seqs@[j]).cache == caches_of(seqs@)[j] by {}
                assert forall|j: int| 0 <= j < before.len() implies (#[trigger] before[j]).cache == caches_of(before)[j] by {}
                assert(taken@ =~= caches_of(old(seqs)@).subrange(0, i as int + 1));
            }
            i = i + 1;
        }
        assert(caches_of(old(seqs)@).subrange(0, i as int) =~= caches_of(old(seqs)@));
        self.seqs = taken;
    }

    /// Moves the model's cache back into the sequences, member `i` to
    /// sequence `i`; the model is left with an empty cache.
    pub fn clone_out_cache(&mut self, seqs: &mut Vec<Sequence>)
        requires
            old(self).seqs@.len() == old(seqs)@.len(),
        ensures
            caches_of(final(seqs)@) == old(self).seqs@,
            same_requests(old(seqs)@, final(seqs)@),
            final(self).seqs@.len() == 0,
    {
        let mut active: Vec<LayerCaches> = Vec::new();
        std::mem::swap(&mut active, &mut self.seqs);
        let ghost src = active@;
        let n = seqs.len();
        let mut k: usize = n;
        while k > 0
            invariant
                k <= n,
                n == seqs@.len(),
                active@ == src.subrange(0, k as int),
                src.len() == n,
                same_requests(old(seqs)@, seqs@),
                forall|j: int| k <= j < n ==> #[trigger] caches_of(seqs@)[j] == src[j],
                self.seqs@.len() == 0,
            decreases k,
        {
            let c = active.pop().unwrap();
            k = k - 1;
            let ghost before = seqs@;
            let _ = swap_cache(seqs, k, c);
            proof {
                assert forall|j: int| k <= j < n implies #[trigger] caches_of(seqs@)[j] == src[j] by {
                    if j > k {
                        assert(caches_of(seqs@)[j] == caches_of(before)[j]);
                    }
                }
            }
        }
        assert(caches_of(seqs@) =~= src);
    }

    /// Empties the model's cache.
    pub fn set_none_cache(&mut self)
        ensures
            final(self).seqs@.len() == 0,
    {
        self.seqs = Vec::new();
    }
}

/// Moving the caches of a batch into the model and straight back out again,
/// with no step in between that changes them, leaves every sequence with
/// the cache it had.
pub proof fn lemma_in_then_out(
    seqs0: Seq<Sequence>,
    seqs1: Seq<Sequence>,
    active1: Seq<LayerCaches>,
    seqs2: Seq<Sequence>,
)
    requires
        active1 == caches_of(seqs0),
        same_requests(seqs0, seqs1),
        caches_of(seqs2) == active1,
        same_requests(seqs1, seqs2),
    ensures
        caches_of(seqs2) == caches_of(seqs0),
        same_requests(seqs0, seqs2),
{
}

/// Why a step failed. A failure aborts the whole step for every sequence of
/// the batch.
#[derive(Debug, Clone, Copy, PartialEq, Eq, Structural)]
pub enum StepError {
    /// Options were combined that cannot work together.
    ConfigurationConflict,
    /// The model or the tensor layer reported an error.
    ShapeOrDevice,
    /// Some sequence of the batch received no logits.
    MissingLogits,
    /// The adapters could not be activated.
    Adapter,
}

/// The step error that stands for an input-construction error.
pub fn step_error_of(e: InputsError) -> (r: StepError)
    ensures
        r == match e {
            InputsError::ConfigurationConflict => StepError::ConfigurationConflict,
        },
{
    match e {
        InputsError::ConfigurationConflict => StepError::ConfigurationConflict,
    }
}

/// What a model offers the orchestrator. `forward_inputs` returns one row of
/// logits per row of the chunk, in the chunk's order.
pub trait Model<L> {
    fn forward_inputs(&mut self, inputs: &InputMetadata, cache: &mut Cache) -> Result<Vec<L>, StepError>;

    /// Returns the number of adapters activated.
    fn activate_adapters(&mut self, adapters: &Vec<String>) -> Result<usize, StepError>;

    /// Performs the block swaps and copies that the scheduler decided on.
    fn execute_scheduler_ops(
        &mut self,
        blocks_to_swap_in: &Vec<(usize, usize)>,
        blocks_to_swap_out: &Vec<(usize, usize)>,
        blocks_to_copy: &Vec<(usize, Vec<usize>)>,
    ) -> Result<(), StepError>;
}

/// `l` after `rows[j]` is placed at `idx[j]` for each `j`, the last first.
pub open spec fn scattered<L>(l: Seq<Option<L>>, idx: Seq<usize>, rows: Seq<L>) -> Seq<Option<L>>
    decreases idx.len(),
{
    if idx.len() == 0 || rows.len() == 0 {
        l
    } else {
        scattered(l.update(idx.last() as int, Some(rows.last())), idx.drop_last(), rows.drop_last())
    }
}

/// Places the logits rows of one chunk at the positions of the sequences
/// they belong to.
pub fn scatter_logits<L>(logits: &mut Vec<Option<L>>, seq_indices: &Vec<usize>, rows: Vec<L>) -> (r: Result<
    (),
    StepError,
>)
    ensures
        r is Ok <==> (rows@.len() == seq_indices@.len() && forall|j: int|
            0 <= j < seq_indices@.len() ==> #[trigger] seq_indices@[j] < old(logits)@.len()),
        r is Ok ==> final(logits)@ == scattered(old(logits)@, seq_indices@, rows@),
        final(logits)@.len() == old(logits)@.len(),
        r is Err ==> r == Err::<(), StepError>(StepError::ShapeOrDevice) && final(logits)@ == old(logits)@,
{
    if rows.len() != seq_indices.len() {
        return Err(StepError::ShapeOrDevice);
    }
    let mut j: usize = 0;
    while j < seq_indices.len()
        invariant
            j <= seq_indices@.len(),
            logits@.len() == old(logits)@.len(),
            forall|q: int| 0 <= q < j ==> #[trigger] seq_indices@[q] < logits@.len(),
        decreases seq_indices@.len() - j,
    {
        if seq_indices[j] >= logits.len() {
            return Err(StepError::ShapeOrDevice);
        }
        j = j + 1;
    }
    let ghost orig_rows = rows@;
    let mut rows = rows;
    let mut k: usize = seq_indices.len();
    assert(seq_indices@.subrange(0, k as int) =~= seq_indices@);
    while k > 0
        invariant
            k <= seq_indices@.len(),
            rows@.len() == k,
            rows@ == orig_rows.subrange(0, k as int),
            orig_rows.len() == seq_indices@.len(),
            logits@.len() == old(logits)@.len(),
            forall|q: int| 0 <= q < seq_indices@.len() ==> #[trigger] seq_indices@[q] < logits@.len(),
            scattered(logits@, seq_indices@.subrange(0, k as int), rows@) == scattered(
                old(logits)@,
                seq_indices@,
                orig_rows,
            ),
        decreases k,
    {
        let row = rows.pop().unwrap();
        k = k - 1;
        let ghost sub = seq_indices@.subrange(0, k as int + 1);
        logits.set(seq_indices[k], Some(row));
        proof {
            assert(sub.drop_last() =~= seq_indices@.subrange(0, k as int));
            assert(sub.last() == seq_indices@[k as int]);
            assert(orig_rows.subrange(0, k as int + 1).drop_last() =~= rows@);
        }
    }
    proof {
        assert(seq_indices@.subrange(0, 0) =~= Seq::<usize>::empty());
        assert(orig_rows.subrange(0, seq_indices@.len() as int) =~= orig_rows);
        assert(seq_indices@.subrange(0, seq_indices@.len() as int) =~= seq_indices@);
    }
    Ok(())
}

/// The logits of every sequence, when each received some.
pub fn collect_logits<L>(logits: Vec<Option<L>>) -> (r: Result<Vec<L>, StepError>)
    ensures
        r is Ok <==> forall|i: int| 0 <= i < logits@.len() ==> (#[trigger] logits@[i]) is Some,
        r is Err ==> r == Err::<Vec<L>, StepError>(StepError::MissingLogits),
        r matches Ok(v) ==> v@.len() == logits@.len() && forall|i: int|
            0 <= i < logits@.len() ==> logits@[i] == Some(#[trigger] v@[i]),
{
    let ghost orig = logits@;
    let n = logits.len();
    let mut rest = logits;
    let mut rev: Vec<L> = Vec::new();
    while rest.len() > 0
        invariant
            rest@ == orig.subrange(0, rest@.len() as int),
            orig == logits@,
            n == orig.len(),
            rev@.len() == n - rest@.len(),
            forall|j: int| 0 <= j < rev@.len() ==> orig[n - 1 - j] == Some(#[trigger] rev@[j]),
        decreases rest@.len(),
    {
        let ghost len = rest@.len();
        match rest.pop().unwrap() {
            Some(x) => {
                rev.push(x);
            },
            None => {
                proof {
                    assert(logits@[len - 1] is None);
                }
                return Err(StepError::MissingLogits);
            },
        }
    }
    let mut out: Vec<L> = Vec::new();
    while rev.len() > 0
        invariant
            orig == logits@,
            n == orig.len(),
            rev@.len() + out@.len() == n,
            forall|j: int| 0 <= j < rev@.len() ==> orig[n - 1 - j] == Some(#[trigger] rev@[j]),
            forall|j: int| 0 <= j < out@.len() ==> orig[j] == Some(#[trigger] out@[j]),
        decreases rev@.len(),
    {
        let ghost len = rev@.len();
        let x = rev.pop().unwrap();
        assert(orig[n - 1 - (len - 1)] == Some(x));
        out.push(x);
    }
    proof {
        assert forall|i: int| 0 <= i < logits@.len() implies (#[trigger] logits@[i]) is Some by {
            assert(orig[i] == Some(out@[i]));
        }
    }
    Ok(out)
}

/// The logits that a step keeps: of row `i`, the `len` entries from `start`
/// on, for `(start, len) = context_lens[i]`, so that look-ahead padding never
/// reaches the next-token distribution.
pub fn extract_logits<T: Copy>(logits: &Vec<Vec<T>>, context_lens: &Vec<(usize, usize)>) -> (r: Vec<Vec<T>>)
    requires
        context_lens@.len() <= logits@.len(),
        forall|i: int|
            0 <= i < context_lens@.len() ==> (#[trigger] context_lens@[i]).0 + context_lens@[i].1
                <= logits@[i]@.len(),
    ensures
        r@.len() == context_lens@.len(),
        forall|i: int|
            0 <= i < context_lens@.len() ==> (#[trigger] r@[i])@ == logits@[i]@.subrange(
                context_lens@[i].0 as int,
                context_lens@[i].0 + context_lens@[i].1,
            ),
{
    let mut r: Vec<Vec<T>> = Vec::new();
    let mut i: usize = 0;
    while i < context_lens.len()
        invariant
            i <= context_lens@.len(),
            context_lens@.len() <= logits@.len(),
            forall|q: int|
                0 <= q < context_lens@.len() ==> (#[trigger] context_lens@[q]).0 + context_lens@[q].1
                    <= logits@[q]@.len(),
            r@.len() == i,
            forall|q: int|
                0 <= q < i ==> (#[trigger] r@[q])@ == logits@[q]@.subrange(
                    context_lens@[q].0 as int,
                    context_lens@[q].0 + context_lens@[q].1,
                ),
        decreases context_lens@.len() - i,
    {
        let (start, len) = context_lens[i];
        let row = &logits[i];
        let rl = row.len();
        let mut kept: Vec<T> = Vec::new();
        let mut j: usize = 0;
        while j < len
            invariant
                j <= len,
                rl == row@.len(),
                start + len <= rl,
                kept@ == row@.subrange(start as int, start + j),
            decreases len - j,
        {
            kept.push(row[start + j]);
            j = j + 1;
            assert(kept@ =~= row@.subrange(start as int, start + j));
        }
        r.push(kept);
        i = i + 1;
    }
    r
}

/// X-LoRA non-granular scaling state: the scalings are computed again until
/// the step count reaches the target index, then kept.
pub struct NonGranularState {
    pub non_granular_index: usize,
    pub tgt_non_granular_index: usize,
}

/// Which cache handling a step uses.
pub enum CacheBackendMetadata<'a> {
    DefaultInstructions { pre_op: CacheInstruction, post_op: CacheInstruction },
    PagedAttention {
        metadata: PagedAttentionMeta<'a>,
        blocks_to_swap_in: Vec<(usize, usize)>,
        blocks_to_swap_out: Vec<(usize, usize)>,
        blocks_to_copy: Vec<(usize, Vec<usize>)>,
    },
}

/// Token histories of `seqs`.
pub open spec fn token_rows(seqs: Seq<Sequence>) -> Seq<Seq<u32>> {
    seqs.map_values(|s: Sequence| s.tokens@)
}

/// Ids of `seqs`.
pub open spec fn ids_of(seqs: Seq<Sequence>) -> Seq<usize> {
    seqs.map_values(|s: Sequence| s.id)
}

/// Token counts of `seqs`.
pub open spec fn token_counts(seqs: Seq<Sequence>) -> Seq<usize> {
    seqs.map_values(|s: Sequence| s.tokens@.len() as usize)
}

/// Whether a step over `seqs` can be built: every sequence has a token, the
/// totals fit machine integers, and the paged metadata, if any, is usable
/// (a table that does not cover a sequence's positions is a disagreement
/// between scheduler and allocator, which the scheduler rules out).
pub open spec fn step_ready(
    seqs: Seq<Sequence>,
    is_prompt: bool,
    no_kv_cache: bool,
    prompt_batchsize: Option<usize>,
    paged: Option<&PagedAttentionMeta>,
) -> bool {
    let rows = token_rows(seqs);
    &&& forall|s: int| 0 <= s < seqs.len() ==> (#[trigger] seqs[s]).tokens@.len() >= 1
    &&& prompt_batchsize matches Some(b) ==> b > 0
    &&& if is_prompt || no_kv_cache {
        &&& seqs.len() > 0
        &&& seqs.len() * max_len(rows) <= usize::MAX
        &&& prompt_batchsize is None ==> prompt_paged_ready(paged, rows, ids_of(seqs))
    } else {
        &&& prefix_sums(token_counts(seqs)).last() <= usize::MAX
        &&& completion_paged_ready(paged, rows, ids_of(seqs))
    }
}

/// Copies of the token histories and the ids of `seqs`.
fn batch_of(seqs: &Vec<Sequence>) -> (r: (Vec<Vec<u32>>, Vec<usize>))
    ensures
        r.0@.len() == seqs@.len(),
        r.1@.len() == seqs@.len(),
        rows_of(r.0@) == token_rows(seqs@),
        lens_of(r.0@) == token_counts(seqs@),
        r.1@ == ids_of(seqs@),
{
    let mut toks: Vec<Vec<u32>> = Vec::new();
    let mut ids: Vec<usize> = Vec::new();
    let mut i: usize = 0;
    while i < seqs.len()
        invariant
            i <= seqs@.len(),
            toks@.len() == i,
            ids@.len() == i,
            forall|j: int| 0 <= j < i ==> (#[trigger] toks@[j])@ == seqs@[j].tokens@,
            forall|j: int| 0 <= j < i ==> #[trigger] ids@[j] == seqs@[j].id,
        decreases seqs@.len() - i,
    {
        let t = seqs[i].tokens.clone();
        assert(t@ =~= seqs@[i as int].tokens@);
        toks.push(t);
        ids.push(seqs[i].id);
        i = i + 1;
    }
    assert(rows_of(toks@) =~= token_rows(seqs@));
    assert(lens_of(toks@) =~= token_counts(seqs@));
    assert(ids@ =~= ids_of(seqs@));
    (toks, ids)
}

/// A model with its active cache and the settings fixed at load time.
pub struct Pipeline<M> {
    pub model: M,
    pub cache: Cache,
    pub no_kv_cache: bool,
    pub prompt_batchsize: Option<usize>,
    pub non_granular_state: Option<NonGranularState>,
}

impl<M> Pipeline<M> {
    /// Empties the active cache and, when asked, restarts the non-granular
    /// scaling count.
    pub fn set_none_cache(&mut self, reset_non_granular: bool)
        ensures
            final(self).cache.seqs@.len() == 0,
            non_granular_after(old(self).non_granular_state, final(self).non_granular_state, reset_non_granular),
            final(self).no_kv_cache == old(self).no_kv_cache,
            final(self).prompt_batchsize == old(self).prompt_batchsize,
    {
        self.cache.set_none_cache();
        if reset_non_granular {
            self.reset_non_granular_state();
        }
    }

    /// Restarts the non-granular scaling count.
    pub fn reset_non_granular_state(&mut self)
        ensures
            old(self).non_granular_state matches Some(s0) ==> (final(self).non_granular_state matches Some(s)
                && s.non_granular_index == 0 && s.tgt_non_granular_index == s0.tgt_non_granular_index),
            old(self).non_granular_state is None ==> final(self).non_granular_state is None,
            final(self).cache == old(self).cache,
            final(self).no_kv_cache == old(self).no_kv_cache,
            final(self).prompt_batchsize == old(self).prompt_batchsize,
    {
        if let Some(s) = &self.non_granular_state {
            let tgt = s.tgt_non_granular_index;
            self.non_granular_state = Some(NonGranularState { non_granular_index: 0, tgt_non_granular_index: tgt });
        }
    }
}

/// Non-granular state `after` follows from `before` by a cache reset that
/// restarts the scaling count when `reset` holds.
pub open spec fn non_granular_after(before: Option<NonGranularState>, after: Option<NonGranularState>, reset: bool) -> bool {
    if reset {
        match before {
            Some(s0) => after matches Some(s) && s.non_granular_index == 0 && s.tgt_non_granular_index
                == s0.tgt_non_granular_index,
            None => after is None,
        }
    } else {
        after == before
    }
}

/// Contents of one layer cell.
pub open spec fn kv_view(c: Option<KvPair>) -> Option<(Seq<u64>, Seq<u64>)> {
    match c {
        Some(p) => Some((p.key@, p.value@)),
        None => None,
    }
}

/// Contents of the layer caches of one sequence.
pub open spec fn layers_view(l: LayerCaches) -> Seq<Option<(Seq<u64>, Seq<u64>)>> {
    l@.map_values(|c: Option<KvPair>| kv_view(c))
}

/// Contents of the caches of `seqs`, in order.
pub open spec fn cache_views(seqs: Seq<Sequence>) -> Seq<Seq<Option<(Seq<u64>, Seq<u64>)>>> {
    seqs.map_values(|s: Sequence| layers_view(s.cache))
}

/// A copy of the layer caches `l`.
fn copy_layers(l: &LayerCaches) -> (r: LayerCaches)
    ensures
        layers_view(r) == layers_view(*l),
{
    let mut r: LayerCaches = Vec::new();
    let mut i: usize = 0;
    while i < l.len()
        invariant
            i <= l@.len(),
            r@.len() == i,
            forall|j: int| 0 <= j < i ==> kv_view(#[trigger] r@[j]) == kv_view(l@[j]),
        decreases l@.len() - i,
    {
        let c = match &l[i] {
            Some(p) => {
                let key = p.key.clone();
                let value = p.value.clone();
                assert(key@ =~= p.key@);
                assert(value@ =~= p.value@);
                Some(KvPair { key, value })
            },
            None => None,
        };
        r.push(c);
        i = i + 1;
    }
    assert(layers_view(r) =~= layers_view(*l));
    r
}

/// Copies of the caches of `seqs`, in order.
fn save_caches(seqs: &Vec<Sequence>) -> (r: Vec<LayerCaches>)
    ensures
        r@.len() == seqs@.len(),
        forall|i: int| 0 <= i < seqs@.len() ==> layers_view(#[trigger] r@[i]) == layers_view(seqs@[i].cache),
{
    let mut r: Vec<LayerCaches> = Vec::new();
    let mut i: usize = 0;
    while i < seqs.len()
        invariant
            i <= seqs@.len(),
            r@.len() == i,
            forall|j: int| 0 <= j < i ==> layers_view(#[trigger] r@[j]) == layers_view(seqs@[j].cache),
        decreases seqs@.len() - i,
    {
        r.push(copy_layers(&seqs[i].cache));
        i = i + 1;
    }
    r
}

/// Puts the saved caches back into `seqs`.
fn restore_caches(seqs: &mut Vec<Sequence>, saved: Vec<LayerCaches>)
    requires
        saved@.len() == old(seqs)@.len(),
    ensures
        same_requests(old(seqs)@, final(seqs)@),
        caches_of(final(seqs)@) == saved@,
{
    let mut tmp = Cache { seqs: saved };
    tmp.clone_out_cache(seqs);
}

/// Index lists of the chunks as sequences.
pub open spec fn index_views(idx: Seq<Vec<usize>>) -> Seq<Seq<usize>> {
    idx.map_values(|v: Vec<usize>| v@)
}

/// Logits rows of the chunks as sequences.
pub open spec fn row_views<L>(rows: Seq<Vec<L>>) -> Seq<Seq<L>> {
    rows.map_values(|v: Vec<L>| v@)
}

/// `n` empty places.
pub open spec fn nones<L>(n: nat) -> Seq<Option<L>> {
    Seq::new(n, |j: int| None::<L>)
}

/// `l` after the rows of each chunk are placed at its sequence indices, the
/// chunks in order, so that a later chunk's row replaces an earlier one.
pub open spec fn placed_all<L>(l: Seq<Option<L>>, idx: Seq<Seq<usize>>, rows: Seq<Seq<L>>) -> Seq<Option<L>>
    decreases idx.len(),
{
    if idx.len() == 0 {
        l
    } else {
        scattered(placed_all(l, idx.drop_last(), rows.drop_last()), idx.last(), rows.last())
    }
}

/// Whether every chunk returned one row per index and every index names one
/// of `n` sequences.
pub open spec fn chunk_shapes_ok<L>(idx: Seq<Seq<usize>>, rows: Seq<Seq<L>>, n: nat) -> bool {
    forall|c: int|
        0 <= c < idx.len() ==> (#[trigger] rows[c]).len() == idx[c].len() && forall|k: int|
            0 <= k < idx[c].len() ==> #[trigger] idx[c][k] < n
}

/// Whether every place is filled.
pub open spec fn all_placed<L>(l: Seq<Option<L>>) -> bool {
    forall|j: int| 0 <= j < l.len() ==> (#[trigger] l[j]) is Some
}

/// What the post-step instruction did, from `p0`/`s0` to `p1`/`s1`.
pub open spec fn post_effect<M>(p0: &Pipeline<M>, p1: &Pipeline<M>, s0: Seq<Sequence>, s1: Seq<Sequence>, post_op: &CacheInstruction) -> bool {
    &&& same_requests(s0, s1)
    &&& match post_op {
        CacheInstruction::Out => caches_of(s1) == p0.cache.seqs@ && p1.cache.seqs@.len() == 0
            && p1.non_granular_state == p0.non_granular_state,
        CacheInstruction::Reset { reset_non_granular, .. } => s1 == s0 && p1.cache.seqs@.len() == 0
            && non_granular_after(p0.non_granular_state, p1.non_granular_state, *reset_non_granular),
        _ => s1 == s0 && p1.cache == p0.cache && p1.non_granular_state == p0.non_granular_state,
    }
}

/// What the pre-step instruction did, from `p0`/`s0` to `p1`/`s1`, once the
/// adapters it names were activated.
pub open spec fn pre_effect<M>(p0: &Pipeline<M>, p1: &Pipeline<M>, s0: Seq<Sequence>, s1: Seq<Sequence>, pre_op: &CacheInstruction) -> bool {
    &&& same_requests(s0, s1)
    &&& match pre_op {
        CacheInstruction::In(_) => p1.cache.seqs@ == caches_of(s0) && (forall|i: int|
            0 <= i < s1.len() ==> (#[trigger] s1[i]).cache@.len() == 0) && p1.non_granular_state
            == p0.non_granular_state,
        CacheInstruction::Reset { reset_non_granular, .. } => s1 == s0 && p1.cache.seqs@.len() == 0
            && non_granular_after(p0.non_granular_state, p1.non_granular_state, *reset_non_granular),
        _ => s1 == s0 && p1.cache == p0.cache && p1.non_granular_state == p0.non_granular_state,
    }
}

/// The sequence indices of the chunks of a step: the parts of a chunked
/// prompt step, else one chunk of all sequences.
pub open spec fn step_layout(seqs: Seq<Sequence>, is_prompt: bool, no_kv_cache: bool, prompt_batchsize: Option<usize>) -> Seq<Seq<usize>> {
    let rows = token_rows(seqs);
    match prompt_batchsize {
        Some(b) if is_prompt || no_kv_cache => Seq::new(
            ceil_div(max_len(rows), b as nat),
            |i: int| chunk_members(rows, b as nat, i as nat),
        ),
        _ => seq![Seq::new(seqs.len(), |j: int| j as usize)],
    }
}

/// A step that moves the caches in, hands them to a model that leaves them
/// as they are, and moves them back out gives every sequence the cache it
/// had.
pub proof fn lemma_step_round_trip<M>(
    p0: &Pipeline<M>,
    s0: Seq<Sequence>,
    p1: &Pipeline<M>,
    s1: Seq<Sequence>,
    p2: &Pipeline<M>,
    s2: Seq<Sequence>,
    pre_op: &CacheInstruction,
)
    requires
        pre_op is In,
        pre_effect(p0, p1, s0, s1, pre_op),
        post_effect(p1, p2, s1, s2, &CacheInstruction::Out),
    ensures
        caches_of(s2) == caches_of(s0),
        same_requests(s0, s2),
{
}

proof fn lemma_restored_views(now: Seq<Sequence>, before: Seq<Sequence>, saved: Seq<LayerCaches>)
    requires
        caches_of(now) == saved,
        saved.len() == before.len(),
        now.len() == before.len(),
        forall|i: int| 0 <= i < before.len() ==> layers_view(#[trigger] saved[i]) == layers_view(before[i].cache),
    ensures
        cache_views(now) == cache_views(before),
{
    assert forall|i: int| 0 <= i < now.len() implies #[trigger] cache_views(now)[i] == cache_views(before)[i] by {
        assert(caches_of(now)[i] == now[i].cache);
    }
    assert(cache_views(now) =~= cache_views(before));
}

impl<M> Pipeline<M> {
    /// Runs the pre-step cache instruction: the adapters it names are
    /// activated first, then `In` moves each sequence's cache into the model,
    /// `Reset` empties the model's cache (restarting the non-granular count
    /// when asked), and `Nothing` leaves the cache where it is.
    pub fn begin_step<L>(&mut self, pre_op: &CacheInstruction, seqs: &mut Vec<Sequence>) -> (r: Result<(), StepError>)
        where
            M: Model<L>,
        requires
            !(pre_op is Out),
        ensures
            final(self).no_kv_cache == old(self).no_kv_cache,
            final(self).prompt_batchsize == old(self).prompt_batchsize,
            r is Err ==> r == Err::<(), StepError>(StepError::Adapter) && final(seqs)@ == old(seqs)@
                && final(self).cache == old(self).cache && final(self).non_granular_state == old(self).non_granular_state,
            r is Ok ==> pre_effect(old(self), final(self), old(seqs)@, final(seqs)@, pre_op),
    {
        let adapters = match pre_op {
            CacheInstruction::In(a) => a,
            CacheInstruction::Nothing(a) => a,
            CacheInstruction::Reset { adapter_inst, .. } => adapter_inst,
            CacheInstruction::Out => {
                return Ok(());
            },
        };
        if let AdapterInstruction::Activate(names) = adapters {
            match self.model.activate_adapters(names) {
                Ok(_) => {},
                Err(_) => {
                    return Err(StepError::Adapter);
                },
            }
        }
        match pre_op {
            CacheInstruction::In(_) => {
                self.cache.clone_in_cache(seqs);
            },
            CacheInstruction::Reset { reset_non_granular, .. } => {
                self.set_none_cache(*reset_non_granular);
            },
            _ => {},
        }
        Ok(())
    }

    /// Places each chunk's logits rows (`rows[c]`, the model's output for
    /// chunk `c`) at the sequences that `indices[c]` names, later chunks
    /// replacing earlier ones, collects one row per sequence, and runs the
    /// post-step cache instruction: `Out` moves the model's cache back into
    /// the sequences, `Reset` empties it (restarting the non-granular count
    /// when asked), `Nothing` leaves it. On an error nothing changes.
    pub fn finish_step<L>(
        &mut self,
        seqs: &mut Vec<Sequence>,
        indices: &Vec<Vec<usize>>,
        rows: Vec<Vec<L>>,
        post_op: &CacheInstruction,
    ) -> (r: Result<Vec<L>, StepError>)
        requires
            !(post_op is In),
            indices@.len() == rows@.len(),
        ensures
            ({
                let n = old(seqs)@.len();
                let placed = placed_all(nones::<L>(n), index_views(indices@), row_views(rows@));
                &&& r is Ok <==> (chunk_shapes_ok(index_views(indices@), row_views(rows@), n) && all_placed(placed) && (
                post_op is Out ==> old(self).cache.seqs@.len() == n))
                &&& r matches Ok(v) ==> v@.len() == n && forall|j: int| 0 <= j < n ==> placed[j] == Some(#[trigger] v@[j])
            }),
            r matches Err(e) ==> e == StepError::ShapeOrDevice || e == StepError::MissingLogits,
            r is Err ==> final(seqs)@ == old(seqs)@ && final(self).cache == old(self).cache
                && final(self).non_granular_state == old(self).non_granular_state,
            r is Ok ==> post_effect(old(self), final(self), old(seqs)@, final(seqs)@, post_op),
            final(self).no_kv_cache == old(self).no_kv_cache,
            final(self).prompt_batchsize == old(self).prompt_batchsize,
    {
        let n = seqs.len();
        let ghost idx = index_views(indices@);
        let ghost rv = row_views(rows@);
        let mut logits: Vec<Option<L>> = Vec::new();
        let mut j: usize = 0;
        while j < n
            invariant
                j <= n,
                logits@ == nones::<L>(j as nat),
            decreases n - j,
        {
            logits.push(None);
            j = j + 1;
            assert(logits@ =~= nones::<L>(j as nat));
        }
        let ghost init = logits@;
        let mut rest = rows;
        let mut c: usize = 0;
        while c < indices.len()
            invariant
                n == old(seqs)@.len(),
                init == nones::<L>(n as nat),
                idx == index_views(indices@),
                rv == row_views(rows@),
                indices@.len() == rows@.len(),
                c <= indices@.len(),
                rest@ == rows@.subrange(c as int, rows@.len() as int),
                logits@.len() == n,
                logits@ == placed_all(init, idx.subrange(0, c as int), rv.subrange(0, c as int)),
                chunk_shapes_ok(idx.subrange(0, c as int), rv.subrange(0, c as int), n as nat),
            decreases indices@.len() - c,
        {
            let row = rest.remove(0);
            assert(row == rows@[c as int]);
            let ghost before = logits@;
            match scatter_logits(&mut logits, &indices[c], row) {
                Ok(()) => {},
                Err(e) => {
                    proof {
                        assert(rv[c as int] == row@);
                        assert(idx[c as int] == indices@[c as int]@);
                        if chunk_shapes_ok(idx, rv, n as nat) {
                            assert(rv[c as int].len() == idx[c as int].len());
                            assert forall|k: int| 0 <= k < indices@[c as int]@.len() implies #[trigger] indices@[c as int]@[k] < before.len() by {
                                assert(idx[c as int][k] == indices@[c as int]@[k]);
                            }
                        }
                    }
                    return Err(e);
                },
            }
            proof {
                assert(rv[c as int] == row@);
                assert(idx[c as int] == indices@[c as int]@);
                assert forall|k: int| 0 <= k < idx[c as int].len() implies #[trigger] idx[c as int][k] < n by {
                    assert(idx[c as int][k] == indices@[c as int]@[k]);
                }
                let i1 = idx.subrange(0, c as int + 1);
                let r1 = rv.subrange(0, c as int + 1);
                assert forall|q: int| 0 <= q < i1.len() implies (#[trigger] r1[q]).len() == i1[q].len() && forall|k: int|
                    0 <= k < i1[q].len() ==> #[trigger] i1[q][k] < n by {
                    if q < c {
                        assert(r1[q] == rv.subrange(0, c as int)[q]);
                        assert(i1[q] == idx.subrange(0, c as int)[q]);
                    }
                }
                assert(idx.subrange(0, c as int + 1).drop_last() =~= idx.subrange(0, c as int));
                assert(rv.subrange(0, c as int + 1).drop_last() =~= rv.subrange(0, c as int));
                assert(rest@ =~= rows@.subrange(c as int + 1, rows@.len() as int));
            }
            c = c + 1;
        }
        proof {
            assert(idx.subrange(0, c as int) =~= idx);
            assert(rv.subrange(0, c as int) =~= rv);
            assert(chunk_shapes_ok(idx, rv, n as nat));
        }
        let ghost placed = logits@;
        let out = match collect_logits(logits) {
            Ok(v) => v,
            Err(e) => {
                return Err(e);
            },
        };
        proof {
            assert(placed == placed_all(nones::<L>(n as nat), idx, rv));
            assert(all_placed(placed));
            assert(forall|j: int| 0 <= j < n ==> placed[j] == Some(#[trigger] out@[j]));
        }
        match post_op {
            CacheInstruction::Out => {
                if self.cache.seqs.len() != n {
                    return Err(StepError::ShapeOrDevice);
                }
                self.cache.clone_out_cache(seqs);
            },
            CacheInstruction::Reset { reset_non_granular, .. } => {
                self.set_none_cache(*reset_non_granular);
            },
            _ => {},
        }
        Ok(out)
    }

    /// One step over the batch `seqs`: builds the chunks, runs the pre-step
    /// cache instruction (`begin_step`), feeds each chunk and the active cache
    /// to the model, and hands the model's rows to `finish_step`, which places
    /// them, collects one row per sequence and runs the post-step instruction.
    /// Any error aborts the step for all sequences: the post-step instruction
    /// is not run and every sequence gets its cache back as it was. An error
    /// of the model is reported as `ShapeOrDevice`.
    pub fn step<L>(
        &mut self,
        seqs: &mut Vec<Sequence>,
        is_prompt: bool,
        backend_metadata: CacheBackendMetadata,
    ) -> (r: Result<Vec<L>, StepError>)
        where
            M: Model<L>,
        requires
            match backend_metadata {
                CacheBackendMetadata::DefaultInstructions { pre_op, post_op } => !(pre_op is Out) && !(post_op is In)
                    && step_ready(old(seqs)@, is_prompt, old(self).no_kv_cache, old(self).prompt_batchsize, None),
                CacheBackendMetadata::PagedAttention { metadata, .. } => step_ready(
                    old(seqs)@,
                    is_prompt,
                    old(self).no_kv_cache,
                    old(self).prompt_batchsize,
                    Some(&metadata),
                ),
            },
        ensures
            same_requests(old(seqs)@, final(seqs)@),
            r == Err::<Vec<L>, StepError>(StepError::ConfigurationConflict) <==> (backend_metadata is PagedAttention
                && old(self).prompt_batchsize is Some && (is_prompt || old(self).no_kv_cache)),
            r is Err ==> cache_views(final(seqs)@) == cache_views(old(seqs)@),
            r matches Ok(v) ==> {
                let n = old(seqs)@.len();
                let layout = step_layout(old(seqs)@, is_prompt, old(self).no_kv_cache, old(self).prompt_batchsize);
                &&& v@.len() == n
                &&& exists|rows: Seq<Seq<L>>|
                    rows.len() == layout.len() && forall|j: int|
                        0 <= j < n ==> #[trigger] placed_all(nones::<L>(n), layout, rows)[j] == Some(v@[j])
            },
            r is Ok ==> match backend_metadata {
                CacheBackendMetadata::DefaultInstructions { pre_op, post_op } => match post_op {
                    CacheInstruction::Out => final(self).cache.seqs@.len() == 0,
                    CacheInstruction::Reset { reset_non_granular, .. } => final(self).cache.seqs@.len() == 0 && (
                    reset_non_granular && old(self).non_granular_state is Some ==> (final(self).non_granular_state
                        matches Some(s) && s.non_granular_index == 0)) && if pre_op is In {
                        forall|i: int| 0 <= i < final(seqs)@.len() ==> (#[trigger] final(seqs)@[i]).cache@.len() == 0
                    } else {
                        final(seqs)@ == old(seqs)@
                    },
                    _ => if pre_op is In {
                        forall|i: int| 0 <= i < final(seqs)@.len() ==> (#[trigger] final(seqs)@[i]).cache@.len() == 0
                    } else {
                        final(seqs)@ == old(seqs)@
                    },
                },
                _ => final(seqs)@ == old(seqs)@,
            },
    {
        let (toks, ids) = batch_of(seqs);
        let processor = TextInputsProcessor;
        let no_kv_cache = self.no_kv_cache;
        let pbs = self.prompt_batchsize;
        let ghost seqs0 = seqs@;
        let ghost layout = step_layout(seqs@, is_prompt, no_kv_cache, pbs);
        let n_seqs = toks.len();
        proof {
            let rows = rows_of(toks@);
            assert(rows.len() == n_seqs);
            assert(rows_hold(rows, kept_logits(None))) by {
                assert forall|q: int| 0 <= q < rows.len() implies kept_logits(None) <= (#[trigger] rows[q]).len() by {
                    assert(rows[q] == token_rows(seqs@)[q]);
                }
            }
            if let Some(b) = pbs {
                lemma_chunks_hold_one(rows, b as nat);
            }
            if is_prompt || no_kv_cache {
                assert(prompt_fits(toks@, 0, None)) by {
                    assert(toks@.len() * (max_len(rows) + 0) == toks@.len() * max_len(rows));
                    assert(max_len(rows) <= toks@.len() * max_len(rows)) by (nonlinear_arith)
                        requires toks@.len() > 0;
                }
            } else {
                assert forall|q: int| 0 <= q < toks@.len() implies (#[trigger] toks@[q])@.len() >= 1 by {
                    assert(rows[q] == token_rows(seqs@)[q]);
                }
            }
        }
        let saved = save_caches(seqs);
        let paged;
        let (pre_op, post_op) = match backend_metadata {
            CacheBackendMetadata::DefaultInstructions { pre_op, post_op } => {
                paged = None;
                (pre_op, post_op)
            },
            CacheBackendMetadata::PagedAttention { metadata, blocks_to_swap_in, blocks_to_swap_out, blocks_to_copy } => {
                paged = Some((metadata, blocks_to_swap_in, blocks_to_swap_out, blocks_to_copy));
                (CacheInstruction::Nothing(AdapterInstruction::Keep), CacheInstruction::Nothing(AdapterInstruction::Keep))
            },
        };
        let chunks = match &paged {
            None => processor.process_inputs(&toks, &ids, is_prompt, no_kv_cache, None, None, pbs),
            Some((metadata, _, _, _)) => processor.process_inputs(
                &toks,
                &ids,
                is_prompt,
                no_kv_cache,
                None,
                Some(metadata),
                pbs,
            ),
        };
        let chunks = match chunks {
            Ok(c) => c,
            Err(e) => {
                return Err(step_error_of(e));
            },
        };
        proof {
            assert forall|i: int| 0 <= i < chunks@.len() implies (#[trigger] chunks@[i]).seq_indices@ == layout[i] by {
                if (is_prompt || no_kv_cache) && pbs is Some {
                    assert(rows_of(toks@) == token_rows(seqs@));
                } else {
                    assert(toks@.len() == seqs@.len());
                }
            }
        }
        if let Some((_, swap_in, swap_out, copies)) = &paged {
            match self.model.execute_scheduler_ops(swap_in, swap_out, copies) {
                Ok(()) => {},
                Err(_) => {
                    return Err(StepError::ShapeOrDevice);
                },
            }
        }
        match self.begin_step(&pre_op, seqs) {
            Ok(()) => {},
            Err(e) => {
                return Err(e);
            },
        }
        let ghost seqs1 = seqs@;
        let ghost ng1 = self.non_granular_state;
        proof {
            assert((ng1 is Some) == (old(self).non_granular_state is Some));
        }
        let mut idx_all: Vec<Vec<usize>> = Vec::new();
        let mut rows_all: Vec<Vec<L>> = Vec::new();
        let mut c: usize = 0;
        while c < chunks.len()
            invariant
                seqs@ == seqs1,
                same_requests(seqs0, seqs1),
                seqs0 == old(seqs)@,
                saved@.len() == seqs0.len(),
                forall|i: int| 0 <= i < seqs0.len() ==> layers_view(#[trigger] saved@[i]) == layers_view(seqs0[i].cache),
                c <= chunks@.len(),
                idx_all@.len() == c,
                rows_all@.len() == c,
                forall|i: int| 0 <= i < c ==> (#[trigger] idx_all@[i])@ == chunks@[i].seq_indices@,
                self.no_kv_cache == old(self).no_kv_cache,
                self.prompt_batchsize == old(self).prompt_batchsize,
                self.non_granular_state == ng1,
                (ng1 is Some) == (old(self).non_granular_state is Some),
                pre_op is In ==> forall|i: int| 0 <= i < seqs1.len() ==> (#[trigger] seqs1[i]).cache@.len() == 0,
                !(pre_op is In) ==> seqs1 == seqs0,
                !(post_op is In),
                match backend_metadata {
                    CacheBackendMetadata::DefaultInstructions { pre_op: p0, post_op: q0 } => p0 == pre_op && q0 == post_op,
                    _ => pre_op is Nothing && post_op is Nothing,
                },
                !(backend_metadata is PagedAttention && old(self).prompt_batchsize is Some && (is_prompt
                    || old(self).no_kv_cache)),
                index_views(idx_all@) == layout.subrange(0, c as int),
                layout.len() == chunks@.len(),
                forall|i: int| 0 <= i < chunks@.len() ==> (#[trigger] chunks@[i]).seq_indices@ == layout[i],
            decreases chunks@.len() - c,
        {
            let rows = match self.model.forward_inputs(&chunks[c].inputs, &mut self.cache) {
                Ok(rows) => rows,
                Err(_) => {
                    restore_caches(seqs, saved);
                    proof {
                        lemma_restored_views(seqs@, seqs0, saved@);
                    }
                    return Err(StepError::ShapeOrDevice);
                },
            };
            let ix = chunks[c].seq_indices.clone();
            assert(ix@ =~= chunks@[c as int].seq_indices@);
            idx_all.push(ix);
            rows_all.push(rows);
            proof {
                assert(index_views(idx_all@) =~= layout.subrange(0, c as int + 1));
            }
            c = c + 1;
        }
        let ghost rows_seen = row_views(rows_all@);
        proof {
            assert(layout.subrange(0, c as int) =~= layout);
        }
        match self.finish_step(seqs, &idx_all, rows_all, &post_op) {
            Ok(v) => {
                proof {
                    let n = seqs0.len();
                    assert(forall|j: int|
                        0 <= j < n ==> #[trigger] placed_all(nones::<L>(n), layout, rows_seen)[j] == Some(v@[j]));
                }
                Ok(v)
            },
            Err(e) => {
                restore_caches(seqs, saved);
                proof {
                    lemma_restored_views(seqs@, seqs0, saved@);
                }
                Err(e)
            },
        }
    }
}

} // verus!
