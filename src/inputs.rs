//! Batch construction: turns the token histories of a set of sequences into
//! model inputs for a prompt step or a completion step, with the position,
//! cumulative-length and paged-attention slot bookkeeping that goes with them.
use vstd::prelude::*;
use crate::block_engine::{blocks_for, ceil_div, BlockEngine};

verus! {

/// Prompt chunks longer than this many tokens run their matrix products at
/// half width.
pub const VIA_F16_TOK_THRESHOLD: usize = 512;

/// Why a batch could not be built.
#[derive(Debug, Clone, Copy, PartialEq, Eq, Structural)]
pub enum InputsError {
    /// Chunked prompt batching was asked for together with paged attention.
    ConfigurationConflict,
}

/// Paged-attention settings and the allocator whose tables resolve slots.
pub struct PagedAttentionMeta<'a> {
    pub sliding_window: Option<usize>,
    pub block_size: usize,
    pub block_engine: &'a BlockEngine,
}

/// Paged-attention part of a chunk. A slot of `None` is a pad slot: the
/// position exists only through batch padding and is never written.
pub struct PagedAttentionInputMetadata {
    pub block_tables: Vec<Vec<usize>>,
    pub context_lens: Vec<Vec<usize>>,
    pub slot_mappings: Vec<Vec<Option<usize>>>,
    pub max_context_len: usize,
}

/// Running sums of query and key lengths over the batch, for fused kernels
/// on ragged batches.
pub struct FlashParams {
    pub max_q: usize,
    pub max_k: usize,
    pub cumulative_seqlens_q: Vec<usize>,
    pub cumulative_seqlens_k: Vec<usize>,
}

/// One self-contained model input.
pub struct InputMetadata {
    /// Token ids, one padded row per sequence.
    pub input: Vec<Vec<u32>>,
    /// Offset of each sequence's first position in this chunk.
    pub positions: Vec<usize>,
    /// Position of every entry of `input`.
    pub positions_kernel: Vec<Vec<usize>>,
    /// `(start, len)`: the logits of each row that are kept.
    pub context_lens: Vec<(usize, usize)>,
    pub position_ids: Vec<usize>,
    pub paged_attn_meta: Option<PagedAttentionInputMetadata>,
    pub flash_meta: FlashParams,
    /// Whether matrix products of this chunk run at half width.
    pub use_matmul_via_f16: bool,
}

/// A chunk and, for each of its rows, the index of the sequence it belongs to.
pub struct InnerInputProcessorOutput {
    pub inputs: InputMetadata,
    pub seq_indices: Vec<usize>,
}

/// `t` followed by `pad` up to length `n`.
pub open spec fn padded<T>(t: Seq<T>, n: nat, pad: T) -> Seq<T> {
    t + Seq::new((n - t.len()) as nat, |j: int| pad)
}

/// Physical slot of logical position `pos` through block table `table`.
pub open spec fn slot_for(table: Seq<usize>, bs: nat, pos: nat) -> nat {
    (table[(pos / bs) as int] * bs + pos % bs) as nat
}

/// `[0, l0, l0 + l1, ...]`: the running sums of `lens`, starting at zero.
pub open spec fn prefix_sums(lens: Seq<usize>) -> Seq<nat>
    decreases lens.len(),
{
    if lens.len() == 0 {
        seq![0nat]
    } else {
        let p = prefix_sums(lens.drop_last());
        p.push((p.last() + lens.last()) as nat)
    }
}

/// Largest first entry among the rows of `rows`; zero when there are none.
pub open spec fn max_first(rows: Seq<Vec<usize>>) -> nat
    decreases rows.len(),
{
    if rows.len() == 0 {
        0
    } else {
        let m = max_first(rows.drop_last());
        if rows.last()@[0] > m {
            rows.last()@[0] as nat
        } else {
            m
        }
    }
}

/// Largest length among the rows of `rows`; zero when there are none.
pub open spec fn max_len<T>(rows: Seq<Seq<T>>) -> nat
    decreases rows.len(),
{
    if rows.len() == 0 {
        0
    } else {
        let m = max_len(rows.drop_last());
        if rows.last().len() > m {
            rows.last().len()
        } else {
            m
        }
    }
}

proof fn lemma_max_len<T>(rows: Seq<Seq<T>>)
    ensures
        forall|i: int| 0 <= i < rows.len() ==> (#[trigger] rows[i]).len() <= max_len(rows),
        rows.len() > 0 ==> exists|i: int| 0 <= i < rows.len() && (#[trigger] rows[i]).len() == max_len(rows),
    decreases rows.len(),
{
    if rows.len() > 0 {
        let d = rows.drop_last();
        lemma_max_len(d);
        assert forall|i: int| 0 <= i < rows.len() implies (#[trigger] rows[i]).len() <= max_len(rows) by {
            if i < d.len() {
                assert(rows[i] == d[i]);
            }
        }
        if d.len() > 0 && rows.last().len() <= max_len(d) {
            let i = choose|i: int| 0 <= i < d.len() && (#[trigger] d[i]).len() == max_len(d);
            assert(rows[i] == d[i]);
        } else {
            assert(rows[rows.len() - 1] == rows.last());
        }
    }
}

/// `t` padded with `pad` to length `n`.
fn pad_to<T: Copy>(t: &Vec<T>, n: usize, pad: T) -> (r: Vec<T>)
    requires
        t@.len() <= n,
    ensures
        r@ == padded(t@, n as nat, pad),
{
    let mut r: Vec<T> = Vec::new();
    let mut i: usize = 0;
    while i < n
        invariant
            i <= n,
            t@.len() <= n,
            r@.len() == i,
            forall|j: int| 0 <= j < i ==> #[trigger] r@[j] == padded(t@, n as nat, pad)[j],
        decreases n - i,
    {
        if i < t.len() {
            r.push(t[i]);
        } else {
            r.push(pad);
        }
        i = i + 1;
    }
    assert(r@ =~= padded(t@, n as nat, pad));
    r
}

/// Length of the longest row of `rows`.
fn longest(rows: &Vec<Vec<u32>>) -> (r: usize)
    ensures
        r == max_len(rows_of(rows@)),
{
    let ghost views = rows_of(rows@);
    let mut m: usize = 0;
    let mut i: usize = 0;
    while i < rows.len()
        invariant
            i <= rows@.len(),
            views == rows_of(rows@),
            m == max_len(views.subrange(0, i as int)),
        decreases rows@.len() - i,
    {
        assert(views.subrange(0, i as int + 1).drop_last() =~= views.subrange(0, i as int));
        if rows[i].len() > m {
            m = rows[i].len();
        }
        i = i + 1;
    }
    assert(views.subrange(0, i as int) =~= views);
    m
}

/// Running sums of `lens` starting at zero.
fn cumulative(lens: &Vec<usize>) -> (r: Vec<usize>)
    requires
        prefix_sums(lens@).last() <= usize::MAX,
    ensures
        r@.len() == lens@.len() + 1,
        forall|i: int| 0 <= i < r@.len() ==> #[trigger] r@[i] == prefix_sums(lens@)[i],
{
    let mut r: Vec<usize> = Vec::new();
    r.push(0);
    let mut acc: usize = 0;
    let mut i: usize = 0;
    proof {
        lemma_prefix_sums_mono(lens@);
    }
    while i < lens.len()
        invariant
            i <= lens@.len(),
            r@.len() == i + 1,
            acc == prefix_sums(lens@.subrange(0, i as int)).last(),
            forall|j: int| 0 <= j < r@.len() ==> r@[j] == #[trigger] prefix_sums(lens@)[j],
            prefix_sums(lens@).last() <= usize::MAX,
            forall|j: int| 0 <= j < prefix_sums(lens@).len() ==> #[trigger] prefix_sums(lens@)[j] <= prefix_sums(lens@).last(),
            prefix_sums(lens@).len() == lens@.len() + 1,
            forall|k: int| 0 <= k <= lens@.len() ==> #[trigger] prefix_sums(lens@.subrange(0, k)) == prefix_sums(lens@).subrange(0, k + 1),
        decreases lens@.len() - i,
    {
        let ghost s = lens@.subrange(0, i as int + 1);
        assert(s.drop_last() =~= lens@.subrange(0, i as int));
        assert(prefix_sums(s) == prefix_sums(lens@).subrange(0, i + 2));
        assert(prefix_sums(s).last() == prefix_sums(lens@)[i + 1]);
        acc = acc + lens[i];
        r.push(acc);
        i = i + 1;
    }
    r
}

proof fn lemma_prefix_sums_mono(lens: Seq<usize>)
    ensures
        prefix_sums(lens).len() == lens.len() + 1,
        prefix_sums(lens)[0] == 0,
        forall|j: int| 0 <= j < prefix_sums(lens).len() ==> #[trigger] prefix_sums(lens)[j] <= prefix_sums(lens).last(),
        forall|k: int| 0 <= k <= lens.len() ==> #[trigger] prefix_sums(lens.subrange(0, k)) == prefix_sums(lens).subrange(0, k + 1),
    decreases lens.len(),
{
    if lens.len() > 0 {
        let d = lens.drop_last();
        lemma_prefix_sums_mono(d);
        assert forall|k: int| 0 <= k <= lens.len() implies #[trigger] prefix_sums(lens.subrange(0, k)) == prefix_sums(lens).subrange(0, k + 1) by {
            if k == lens.len() {
                assert(lens.subrange(0, k) =~= lens);
                assert(prefix_sums(lens).subrange(0, k + 1) =~= prefix_sums(lens));
            } else {
                assert(lens.subrange(0, k) =~= d.subrange(0, k));
                assert(prefix_sums(lens).subrange(0, k + 1) =~= prefix_sums(d).subrange(0, k + 1));
            }
        }
    } else {
        assert(lens.subrange(0, 0) =~= lens);
    }
}

/// `n` ones.
pub open spec fn ones(n: nat) -> Seq<usize> {
    Seq::new(n, |j: int| 1usize)
}

/// The token rows of `toks` as sequences.
pub open spec fn rows_of(toks: Seq<Vec<u32>>) -> Seq<Seq<u32>> {
    toks.map_values(|v: Vec<u32>| v@)
}

/// Lengths of the rows of `toks`.
pub open spec fn lens_of(toks: Seq<Vec<u32>>) -> Seq<usize> {
    toks.map_values(|v: Vec<u32>| v@.len() as usize)
}

/// First table entry a sliding window of `window` positions still sees.
pub open spec fn slide_start(table_len: nat, bs: nat, window: Option<usize>) -> nat {
    match window {
        Some(w) => if table_len > (w as nat) / bs {
            (table_len - (w as nat) / bs) as nat
        } else {
            0
        },
        None => 0,
    }
}

/// Context length that attention sees for a sequence of `len` positions.
pub open spec fn visible_len(len: nat, window: Option<usize>) -> nat {
    match window {
        Some(w) => if len < w { len } else { w as nat },
        None => len,
    }
}

/// Whether every sequence of a completion step has a table that covers its
/// last position.
pub open spec fn tables_cover_last(rows: Seq<Seq<u32>>, ids: Seq<usize>, e: &BlockEngine, bs: nat) -> bool {
    forall|s: int|
        0 <= s < rows.len() ==> e.has_seq(#[trigger] ids[s]) && (rows[s].len() - 1) / (bs as int) < e.table_of(
            ids[s],
        ).len()
}

/// The rows of a completion chunk: one new token per sequence, at position
/// `len - 1`.
pub open spec fn completion_rows(out: &InputMetadata, toks: Seq<Vec<u32>>) -> bool {
    let n = toks.len();
    &&& out.input@.len() == n
    &&& out.positions@.len() == n
    &&& out.positions_kernel@.len() == n
    &&& out.context_lens@.len() == n
    &&& out.position_ids@.len() == n
    &&& forall|s: int|
        0 <= s < n ==> {
            let l = (#[trigger] toks[s])@.len();
            &&& out.input@[s]@ == seq![toks[s]@[l - 1]]
            &&& out.positions@[s] == l - 1
            &&& out.positions_kernel@[s]@ == seq![(l - 1) as usize]
            &&& out.context_lens@[s] == (0usize, 1usize)
            &&& out.position_ids@[s] == l
        }
    &&& out.flash_meta.cumulative_seqlens_q@.len() == n + 1
    &&& forall|i: int| 0 <= i <= n ==> #[trigger] out.flash_meta.cumulative_seqlens_q@[i] == i
    &&& out.flash_meta.cumulative_seqlens_k@.len() == n + 1
    &&& forall|i: int|
        0 <= i <= n ==> #[trigger] out.flash_meta.cumulative_seqlens_k@[i] == prefix_sums(lens_of(toks))[i]
    &&& out.flash_meta.max_q == if n > 0 { 1nat } else { 0nat }
    &&& out.flash_meta.max_k == max_len(rows_of(toks))
    &&& !out.use_matmul_via_f16
}

/// The paged part of a completion chunk: the slot of each new token, the
/// table entries that the window still sees, and the context lengths.
pub open spec fn completion_paged(
    p: &PagedAttentionInputMetadata,
    toks: Seq<Vec<u32>>,
    ids: Seq<usize>,
    e: &BlockEngine,
    bs: nat,
    window: Option<usize>,
) -> bool {
    let n = toks.len();
    &&& p.slot_mappings@.len() == n
    &&& p.block_tables@.len() == n
    &&& p.context_lens@.len() == n
    &&& forall|s: int|
        0 <= s < n ==> {
            let l = (#[trigger] toks[s])@.len();
            let table = e.table_of(ids[s]);
            &&& p.slot_mappings@[s]@ == seq![Some(slot_for(table, bs, (l - 1) as nat) as usize)]
            &&& p.block_tables@[s]@ == table.subrange(slide_start(table.len(), bs, window) as int, table.len() as int)
            &&& p.context_lens@[s]@ == seq![visible_len(l, window) as usize]
        }
    &&& p.max_context_len == max_first(p.context_lens@)
}

/// Builds the input of a completion step: the last token of each sequence,
/// at position `len - 1`, and for paged attention the slot of that position
/// through the sequence's block table, with only the trailing table entries
/// that the sliding window allows. Every sequence must have a block table
/// that covers its last position: a table that falls short means the
/// scheduler and the allocator disagree, which callers rule out.
pub fn make_completion_chunk(
    toks: &Vec<Vec<u32>>,
    seq_ids: &Vec<usize>,
    paged_attn_metadata: Option<&PagedAttentionMeta>,
) -> (out: InputMetadata)
    requires
        seq_ids@.len() == toks@.len(),
        forall|s: int| 0 <= s < toks@.len() ==> (#[trigger] toks@[s])@.len() >= 1,
        prefix_sums(lens_of(toks@)).last() <= usize::MAX,
        paged_attn_metadata matches Some(m) ==> m.block_engine.wf() && m.block_size == m.block_engine.block_size
            && tables_cover_last(rows_of(toks@), seq_ids@, m.block_engine, m.block_size as nat),
    ensures
        completion_rows(&out, toks@),
        match paged_attn_metadata {
            None => out.paged_attn_meta is None,
            Some(m) => out.paged_attn_meta matches Some(p) && completion_paged(
                &p,
                toks@,
                seq_ids@,
                m.block_engine,
                m.block_size as nat,
                m.sliding_window,
            ),
        },
{
    let n = toks.len();
    let mut input: Vec<Vec<u32>> = Vec::new();
    let mut positions: Vec<usize> = Vec::new();
    let mut positions_kernel: Vec<Vec<usize>> = Vec::new();
    let mut context_lens: Vec<(usize, usize)> = Vec::new();
    let mut position_ids: Vec<usize> = Vec::new();
    let mut qlens: Vec<usize> = Vec::new();
    let mut klens: Vec<usize> = Vec::new();
    let mut slot_mappings: Vec<Vec<Option<usize>>> = Vec::new();
    let mut block_tables: Vec<Vec<usize>> = Vec::new();
    let mut paged_lens: Vec<Vec<usize>> = Vec::new();
    let mut max_ctx: usize = 0;
    let mut s: usize = 0;
    while s < n
        invariant
            n == toks@.len(),
            seq_ids@.len() == n,
            s <= n,
            forall|q: int| 0 <= q < toks@.len() ==> (#[trigger] toks@[q])@.len() >= 1,
            paged_attn_metadata matches Some(m) ==> m.block_engine.wf() && m.block_size == m.block_engine.block_size
                && tables_cover_last(rows_of(toks@), seq_ids@, m.block_engine, m.block_size as nat),
            input@.len() == s,
            positions@.len() == s,
            positions_kernel@.len() == s,
            context_lens@.len() == s,
            position_ids@.len() == s,
            qlens@ == ones(s as nat),
            klens@ == lens_of(toks@).subrange(0, s as int),
            forall|q: int|
                0 <= q < s ==> {
                    let l = (#[trigger] toks@[q])@.len();
                    &&& input@[q]@ == seq![toks@[q]@[l - 1]]
                    &&& positions@[q] == l - 1
                    &&& positions_kernel@[q]@ == seq![(l - 1) as usize]
                    &&& context_lens@[q] == (0usize, 1usize)
                    &&& position_ids@[q] == l
                },
            paged_attn_metadata is Some ==> slot_mappings@.len() == s && block_tables@.len() == s
                && paged_lens@.len() == s,
            paged_attn_metadata matches Some(m) ==> forall|q: int|
                0 <= q < s ==> {
                    let l = (#[trigger] toks@[q])@.len();
                    let table = m.block_engine.table_of(seq_ids@[q]);
                    let bs = m.block_size as nat;
                    &&& slot_mappings@[q]@ == seq![Some(slot_for(table, bs, (l - 1) as nat) as usize)]
                    &&& block_tables@[q]@ == table.subrange(
                        slide_start(table.len(), bs, m.sliding_window) as int,
                        table.len() as int,
                    )
                    &&& paged_lens@[q]@ == seq![visible_len(l, m.sliding_window) as usize]
                },
            max_ctx == max_first(paged_lens@),
        decreases n - s,
    {
        let t = &toks[s];
        let l = t.len();
        let sp = l - 1;
        input.push(vec![t[sp]]);
        positions.push(sp);
        positions_kernel.push(vec![sp]);
        context_lens.push((0, 1));
        position_ids.push(l);
        qlens.push(1);
        klens.push(l);
        if let Some(m) = paged_attn_metadata {
            let bs = m.block_size;
            assert(rows_of(toks@)[s as int] == toks@[s as int]@);
            assert(m.block_engine.has_seq(seq_ids@[s as int]));
            let table = m.block_engine.block_table(seq_ids[s]).unwrap();
            assert(sp / bs < table@.len());
            let b = table[sp / bs];
            proof {
                let e = m.block_engine;
                let i = e.index_of(seq_ids@[s as int]);
                assert(e.tables()[i][(sp / bs) as int] == b);
                assert(b < e.num_blocks());
                vstd::arithmetic::div_mod::lemma_fundamental_div_mod(sp as int, bs as int);
                assert(b * bs + sp % bs < e.num_blocks() * bs) by (nonlinear_arith)
                    requires
                        b < e.num_blocks(),
                        sp % bs < bs,
                ;
            }
            let slot = b * bs + sp % bs;
            slot_mappings.push(vec![Some(slot)]);
            let tl = table.len();
            let start = match m.sliding_window {
                Some(w) => if tl > w / bs {
                    tl - w / bs
                } else {
                    0
                },
                None => 0,
            };
            let mut visible = table;
            let tail = visible.split_off(start);
            block_tables.push(tail);
            let ctx = match m.sliding_window {
                Some(w) => if l < w {
                    l
                } else {
                    w
                },
                None => l,
            };
            let ghost before = paged_lens@;
            paged_lens.push(vec![ctx]);
            assert(paged_lens@.drop_last() =~= before);
            if ctx > max_ctx {
                max_ctx = ctx;
            }
        }
        proof {
            assert(qlens@ =~= ones((s + 1) as nat));
            assert(klens@ =~= lens_of(toks@).subrange(0, s as int + 1));
        }
        s = s + 1;
    }
    proof {
        assert(toks@.subrange(0, n as int) =~= toks@);
        assert(seq_ids@.subrange(0, n as int) =~= seq_ids@);
        assert(klens@ =~= lens_of(toks@));
        lemma_prefix_sums_mono(qlens@);
        lemma_prefix_sums_ones(n as nat);
        assert(qlens@ =~= ones(n as nat));
    }
    let cq = cumulative(&qlens);
    let ck = cumulative(&klens);
    let max_q: usize = if n > 0 { 1 } else { 0 };
    let max_k = longest(toks);
    let paged_attn_meta = match paged_attn_metadata {
        Some(_) => Some(
            PagedAttentionInputMetadata {
                block_tables,
                context_lens: paged_lens,
                slot_mappings,
                max_context_len: max_ctx,
            },
        ),
        None => None,
    };
    let out = InputMetadata {
        input,
        positions,
        positions_kernel,
        context_lens,
        position_ids,
        paged_attn_meta,
        flash_meta: FlashParams { max_q, max_k, cumulative_seqlens_q: cq, cumulative_seqlens_k: ck },
        use_matmul_via_f16: false,
    };
    proof {
        assert(max_k == max_len(rows_of(toks@)));
        assert(forall|i: int| 0 <= i <= n ==> #[trigger] out.flash_meta.cumulative_seqlens_q@[i] == i);
        assert(completion_rows(&out, toks@));
    }
    out
}

proof fn lemma_prefix_sums_ones(n: nat)
    ensures
        forall|i: int| 0 <= i <= n ==> #[trigger] prefix_sums(ones(n))[i] == i,
    decreases n,
{
    lemma_prefix_sums_mono(ones(n));
    if n > 0 {
        lemma_prefix_sums_ones((n - 1) as nat);
        lemma_prefix_sums_mono(ones((n - 1) as nat));
        assert(ones(n).drop_last() =~= ones((n - 1) as nat));
        assert(ones(n).last() == 1);
    }
}

/// `n` copies of `x`.
pub open spec fn repeat(x: usize, n: nat) -> Seq<usize> {
    Seq::new(n, |j: int| x)
}

/// `base, base + 1, ..., base + n - 1`.
pub open spec fn range_from(base: nat, n: nat) -> Seq<usize> {
    Seq::new(n, |j: int| (base + j) as usize)
}

/// Number of logits kept per row: the last `a` of `last_n_context_len`, else one.
pub open spec fn kept_logits(last_n_context_len: Option<(usize, usize)>) -> nat {
    match last_n_context_len {
        Some((a, _)) => a as nat,
        None => 1,
    }
}

/// Offset added to each row's positions by `last_n_context_len`.
pub open spec fn context_offset(last_n_context_len: Option<(usize, usize)>) -> nat {
    match last_n_context_len {
        Some((_, b)) => b as nat,
        None => 0,
    }
}

/// Slots of positions `c .. c + len` through `table`.
pub open spec fn slots_from(table: Seq<usize>, bs: nat, c: nat, len: nat) -> Seq<Option<usize>> {
    Seq::new(len, |j: int| Some(slot_for(table, bs, (c + j) as nat) as usize))
}

/// Whether the table of each sequence that has one covers the chunk's
/// positions `c .. c + len`.
pub open spec fn tables_cover_chunk(rows: Seq<Seq<u32>>, ids: Seq<usize>, e: &BlockEngine, bs: nat, c: nat) -> bool {
    forall|s: int|
        0 <= s < rows.len() && e.has_seq(#[trigger] ids[s]) && rows[s].len() > 0 ==> (c + rows[s].len() - 1) / (
        bs as int) < e.table_of(ids[s]).len()
}

/// Whether every row holds at least the `a` tokens whose logits are kept.
pub open spec fn rows_hold(rows: Seq<Seq<u32>>, a: nat) -> bool {
    forall|s: int| 0 <= s < rows.len() ==> a <= (#[trigger] rows[s]).len()
}

/// The rows of a prompt chunk whose positions start at `c`: each row padded
/// to the longest, positions continuing from `c`, and the span of logits kept.
pub open spec fn prompt_rows(
    out: &InputMetadata,
    c: nat,
    toks: Seq<Seq<u32>>,
    last_n_context_len: Option<(usize, usize)>,
) -> bool {
    let n = toks.len();
    let m = max_len(toks);
    let a = kept_logits(last_n_context_len);
    let off = context_offset(last_n_context_len);
    &&& out.input@.len() == n
    &&& out.positions@.len() == n
    &&& out.positions_kernel@.len() == n
    &&& out.context_lens@.len() == n
    &&& out.position_ids@.len() == n
    &&& forall|s: int|
        0 <= s < n ==> {
            &&& out.input@[s]@ == padded(#[trigger] toks[s], m, 0u32)
            &&& out.positions@[s] == off + c
            &&& out.positions_kernel@[s]@ == range_from(off + c, m)
            &&& out.context_lens@[s] == ((toks[s].len() - a) as usize, a as usize)
            &&& out.position_ids@[s] == toks[s].len() + c
        }
    &&& out.flash_meta.cumulative_seqlens_q@.len() == n + 1
    &&& forall|i: int|
        0 <= i <= n ==> #[trigger] out.flash_meta.cumulative_seqlens_q@[i] == prefix_sums(repeat(m as usize, n))[i]
    &&& out.flash_meta.cumulative_seqlens_k@.len() == n + 1
    &&& forall|i: int|
        0 <= i <= n ==> #[trigger] out.flash_meta.cumulative_seqlens_k@[i] == prefix_sums(
            repeat((m + c) as usize, n),
        )[i]
    &&& out.flash_meta.max_q == m
    &&& out.flash_meta.max_k == m + c
    &&& out.use_matmul_via_f16 == (m > VIA_F16_TOK_THRESHOLD)
}

/// The paged part of a prompt chunk: for a sequence with a table, the slots
/// of its positions `c ..` followed by pad slots up to the longest row, its
/// table, and its positions; a sequence without a table (as while profiling)
/// gets only pad slots.
pub open spec fn prompt_paged(
    p: &PagedAttentionInputMetadata,
    c: nat,
    toks: Seq<Vec<u32>>,
    ids: Seq<usize>,
    e: &BlockEngine,
    bs: nat,
) -> bool {
    let n = toks.len();
    let m = max_len(rows_of(toks));
    &&& p.slot_mappings@.len() == n
    &&& p.block_tables@.len() == n
    &&& p.context_lens@.len() == n
    &&& forall|s: int|
        0 <= s < n ==> {
            let l = (#[trigger] toks[s])@.len();
            if e.has_seq(ids[s]) {
                &&& p.slot_mappings@[s]@ == padded(slots_from(e.table_of(ids[s]), bs, c, l), m, None)
                &&& p.block_tables@[s]@ == e.table_of(ids[s])
                &&& p.context_lens@[s]@ == range_from(c, l)
            } else {
                &&& p.slot_mappings@[s]@ == padded(Seq::<Option<usize>>::empty(), m, None)
                &&& p.block_tables@[s]@.len() == 0
                &&& p.context_lens@[s]@.len() == 0
            }
        }
    &&& p.max_context_len == max_len(p.context_lens@.map_values(|v: Vec<usize>| v@))
}

/// Whether the bookkeeping of a prompt chunk fits in machine integers.
pub open spec fn prompt_fits(toks: Seq<Vec<u32>>, c: nat, last_n_context_len: Option<(usize, usize)>) -> bool {
    let m = max_len(rows_of(toks));
    &&& toks.len() * (m + c) <= usize::MAX
    &&& context_offset(last_n_context_len) + c + m <= usize::MAX
}

/// `base, base + 1, ..., base + n - 1`.
fn range_vec(base: usize, n: usize) -> (r: Vec<usize>)
    requires
        base + n <= usize::MAX,
    ensures
        r@ == range_from(base as nat, n as nat),
{
    let mut r: Vec<usize> = Vec::new();
    let mut j: usize = 0;
    while j < n
        invariant
            j <= n,
            base + n <= usize::MAX,
            r@ == range_from(base as nat, j as nat),
        decreases n - j,
    {
        r.push(base + j);
        j = j + 1;
        assert(r@ =~= range_from(base as nat, j as nat));
    }
    r
}

proof fn lemma_prefix_sums_repeat(x: usize, n: nat)
    ensures
        prefix_sums(repeat(x, n)).len() == n + 1,
        forall|i: int| 0 <= i <= n ==> #[trigger] prefix_sums(repeat(x, n))[i] == i * x,
    decreases n,
{
    lemma_prefix_sums_mono(repeat(x, n));
    if n > 0 {
        lemma_prefix_sums_repeat(x, (n - 1) as nat);
        assert(repeat(x, n).drop_last() =~= repeat(x, (n - 1) as nat));
        assert forall|i: int| 0 <= i <= n implies #[trigger] prefix_sums(repeat(x, n))[i] == i * x by {
            if i == n {
                assert(prefix_sums(repeat(x, n))[i] == (n - 1) * x + x);
                assert((n - 1) * x + x == n * x) by (nonlinear_arith);
            }
        }
    }
}

/// Slots of positions `c .. c + len` through `table`, which covers them.
fn prompt_slots(table: &Vec<usize>, e: &BlockEngine, seq_id: usize, c: usize, len: usize) -> (r: Vec<
    Option<usize>,
>)
    requires
        e.wf(),
        e.has_seq(seq_id),
        table@ == e.table_of(seq_id),
        len > 0,
        c + len <= usize::MAX,
        (c + len - 1) / (e.block_size as int) < table@.len(),
    ensures
        r@ == slots_from(table@, e.block_size as nat, c as nat, len as nat),
{
    let bs = e.block_size;
    let mut r: Vec<Option<usize>> = Vec::new();
    let mut j: usize = 0;
    while j < len
        invariant
            e.wf(),
            e.has_seq(seq_id),
            table@ == e.table_of(seq_id),
            bs == e.block_size,
            j <= len,
            c + len <= usize::MAX,
            (c + len - 1) / (bs as int) < table@.len(),
            r@ == slots_from(table@, bs as nat, c as nat, j as nat),
        decreases len - j,
    {
        let pos = c + j;
        proof {
            vstd::arithmetic::div_mod::lemma_div_is_ordered(pos as int, (c + len - 1) as int, bs as int);
        }
        let b = table[pos / bs];
        proof {
            let i = e.index_of(seq_id);
            assert(e.tables()[i][(pos / bs) as int] == b);
            assert(b < e.num_blocks());
            vstd::arithmetic::div_mod::lemma_fundamental_div_mod(pos as int, bs as int);
            assert(b * bs + pos % bs < e.num_blocks() * bs) by (nonlinear_arith)
                requires
                    b < e.num_blocks(),
                    pos % bs < bs,
            ;
        }
        r.push(Some(b * bs + pos % bs));
        j = j + 1;
        assert(r@ =~= slots_from(table@, bs as nat, c as nat, j as nat));
    }
    r
}

/// Builds one prompt chunk whose positions start at `chunk_offset_toks`:
/// every row is padded with token 0 to the longest, position ids and slot
/// mappings continue from the offset, the last `a` logits of each row are
/// kept (`a` from `last_n_context_len`, else one), cumulative lengths are
/// accumulated over the batch, and half-width products are chosen when the
/// chunk is longer than the threshold. The kept logits of a row are its own
/// last ones, never padding. Every sequence with a block table must have one
/// that covers the chunk's positions (a shorter table means the scheduler and
/// the allocator disagree); one without a table gets pad slots only.
pub fn make_prompt_chunk(
    chunk_offset_toks: usize,
    toks: &Vec<Vec<u32>>,
    seq_ids: &Vec<usize>,
    last_n_context_len: Option<(usize, usize)>,
    paged_attn_metadata: Option<&PagedAttentionMeta>,
) -> (out: InputMetadata)
    requires
        toks@.len() > 0,
        seq_ids@.len() == toks@.len(),
        rows_hold(rows_of(toks@), kept_logits(last_n_context_len)),
        prompt_fits(toks@, chunk_offset_toks as nat, last_n_context_len),
        paged_attn_metadata matches Some(m) ==> m.block_engine.wf() && m.block_size == m.block_engine.block_size
            && tables_cover_chunk(rows_of(toks@), seq_ids@, m.block_engine, m.block_size as nat, chunk_offset_toks as nat),
    ensures
        prompt_rows(&out, chunk_offset_toks as nat, rows_of(toks@), last_n_context_len),
        match paged_attn_metadata {
            None => out.paged_attn_meta is None,
            Some(m) => out.paged_attn_meta matches Some(p) && prompt_paged(
                &p,
                chunk_offset_toks as nat,
                toks@,
                seq_ids@,
                m.block_engine,
                m.block_size as nat,
            ),
        },
{
    let c = chunk_offset_toks;
    let n = toks.len();
    let m = longest(toks);
    let ghost rows = rows_of(toks@);
    proof {
        lemma_max_len(rows);
        assert(n * (m + c) <= usize::MAX);
        assert(m + c <= n * (m + c)) by (nonlinear_arith)
            requires
                n > 0,
        ;
    }
    let a: usize = match last_n_context_len {
        Some((a, _)) => a,
        None => 1,
    };
    let off: usize = match last_n_context_len {
        Some((_, b)) => b,
        None => 0,
    };
    let mut input: Vec<Vec<u32>> = Vec::new();
    let mut positions: Vec<usize> = Vec::new();
    let mut positions_kernel: Vec<Vec<usize>> = Vec::new();
    let mut context_lens: Vec<(usize, usize)> = Vec::new();
    let mut position_ids: Vec<usize> = Vec::new();
    let mut slot_mappings: Vec<Vec<Option<usize>>> = Vec::new();
    let mut block_tables: Vec<Vec<usize>> = Vec::new();
    let mut paged_lens: Vec<Vec<usize>> = Vec::new();
    let mut s: usize = 0;
    while s < n
        invariant
            n == toks@.len(),
            c == chunk_offset_toks,
            seq_ids@.len() == n,
            s <= n,
            rows == rows_of(toks@),
            m == max_len(rows),
            forall|i: int| 0 <= i < rows.len() ==> (#[trigger] rows[i]).len() <= m,
            a == kept_logits(last_n_context_len),
            rows_hold(rows, a as nat),
            off == context_offset(last_n_context_len),
            off + c + m <= usize::MAX,
            paged_attn_metadata matches Some(mm) ==> mm.block_engine.wf() && mm.block_size == mm.block_engine.block_size
                && tables_cover_chunk(rows, seq_ids@, mm.block_engine, mm.block_size as nat, c as nat),
            input@.len() == s,
            positions@.len() == s,
            positions_kernel@.len() == s,
            context_lens@.len() == s,
            position_ids@.len() == s,
            forall|q: int| 0 <= q < s ==> #[trigger] input@[q]@ == padded(toks@[q]@, m as nat, 0u32),
            forall|q: int| 0 <= q < s ==> #[trigger] positions@[q] == off + c,
            forall|q: int| 0 <= q < s ==> #[trigger] positions_kernel@[q]@ == range_from((off + c) as nat, m as nat),
            forall|q: int| 0 <= q < s ==> #[trigger] context_lens@[q] == ((toks@[q]@.len() - a) as usize, a as usize),
            forall|q: int| 0 <= q < s ==> #[trigger] position_ids@[q] == toks@[q]@.len() + c,
            paged_attn_metadata is Some ==> slot_mappings@.len() == s && block_tables@.len() == s
                && paged_lens@.len() == s,
            paged_attn_metadata matches Some(mm) ==> forall|q: int|
                0 <= q < s ==> (#[trigger] slot_mappings@[q])@ == if mm.block_engine.has_seq(seq_ids@[q]) {
                    padded(
                        slots_from(
                            mm.block_engine.table_of(seq_ids@[q]),
                            mm.block_size as nat,
                            c as nat,
                            toks@[q]@.len(),
                        ),
                        m as nat,
                        None,
                    )
                } else {
                    padded(Seq::<Option<usize>>::empty(), m as nat, None)
                },
            paged_attn_metadata matches Some(mm) ==> forall|q: int|
                0 <= q < s ==> if mm.block_engine.has_seq(seq_ids@[q]) {
                    (#[trigger] block_tables@[q])@ == mm.block_engine.table_of(seq_ids@[q])
                } else {
                    block_tables@[q]@.len() == 0
                },
            paged_attn_metadata matches Some(mm) ==> forall|q: int|
                0 <= q < s ==> if mm.block_engine.has_seq(seq_ids@[q]) {
                    (#[trigger] paged_lens@[q])@ == range_from(c as nat, toks@[q]@.len())
                } else {
                    paged_lens@[q]@.len() == 0
                },
        decreases n - s,
    {
        let t = &toks[s];
        let l = t.len();
        assert(rows[s as int] == t@);
        input.push(pad_to(t, m, 0));
        positions.push(off + c);
        positions_kernel.push(range_vec(off + c, m));
        assert(a <= rows[s as int].len());
        context_lens.push((l - a, a));
        position_ids.push(l + c);
        if let Some(mm) = paged_attn_metadata {
            let e = mm.block_engine;
            match e.block_table(seq_ids[s]) {
                None => {
                    let empty: Vec<Option<usize>> = Vec::new();
                    slot_mappings.push(pad_to(&empty, m, None));
                    block_tables.push(Vec::new());
                    paged_lens.push(Vec::new());
                },
                Some(table) => {
                    if l == 0 {
                        let empty: Vec<Option<usize>> = Vec::new();
                        let row = pad_to(&empty, m, None);
                        assert(slots_from(table@, mm.block_size as nat, c as nat, 0) =~= empty@);
                        slot_mappings.push(row);
                        paged_lens.push(Vec::new());
                        assert(range_from(c as nat, 0) =~= Seq::<usize>::empty());
                    } else {
                        assert(e.has_seq(seq_ids@[s as int]));
                        let slots = prompt_slots(&table, e, seq_ids[s], c, l);
                        slot_mappings.push(pad_to(&slots, m, None));
                        paged_lens.push(range_vec(c, l));
                    }
                    block_tables.push(table);
                },
            }
        }
        proof {
            let q = s as int;
            assert(input@[q]@ == padded(toks@[q]@, m as nat, 0u32));
            assert(positions@[q] == off + c);
            assert(positions_kernel@[q]@ == range_from((off + c) as nat, m as nat));
            assert(context_lens@[q] == ((toks@[q]@.len() - a) as usize, a as usize));
            assert(position_ids@[q] == toks@[q]@.len() + c);
            if let Some(mm) = paged_attn_metadata {
                let e = mm.block_engine;
                let l = toks@[q]@.len();
                if e.has_seq(seq_ids@[q]) {
                    assert(slot_mappings@[q]@ == padded(slots_from(e.table_of(seq_ids@[q]), mm.block_size as nat, c as nat, l), m as nat, None));
                    assert(block_tables@[q]@ == e.table_of(seq_ids@[q]));
                    assert(paged_lens@[q]@ == range_from(c as nat, l));
                } else {
                    assert(slot_mappings@[q]@ == padded(Seq::<Option<usize>>::empty(), m as nat, None));
                }
            }
        }
        s = s + 1;
    }
    proof {
        assert(toks@.subrange(0, n as int) =~= toks@);
        assert(seq_ids@.subrange(0, n as int) =~= seq_ids@);
        lemma_prefix_sums_repeat(m, n as nat);
        lemma_prefix_sums_repeat((m + c) as usize, n as nat);
        assert(prefix_sums(repeat(m, n as nat)).last() <= usize::MAX) by {
            assert(prefix_sums(repeat(m, n as nat))[n as int] == n * m);
            assert(n * m <= n * (m + c)) by (nonlinear_arith);
        }
        assert(prefix_sums(repeat((m + c) as usize, n as nat))[n as int] == n * (m + c));
    }
    let qlens = repeat_vec(m, n);
    let klens = repeat_vec(m + c, n);
    let cq = cumulative(&qlens);
    let ck = cumulative(&klens);
    let paged_attn_meta = match paged_attn_metadata {
        Some(_) => {
            let max_context_len = longest_usize(&paged_lens);
            Some(
                PagedAttentionInputMetadata {
                    block_tables,
                    context_lens: paged_lens,
                    slot_mappings,
                    max_context_len,
                },
            )
        },
        None => None,
    };
    let out = InputMetadata {
        input,
        positions,
        positions_kernel,
        context_lens,
        position_ids,
        paged_attn_meta,
        flash_meta: FlashParams { max_q: m, max_k: m + c, cumulative_seqlens_q: cq, cumulative_seqlens_k: ck },
        use_matmul_via_f16: m > VIA_F16_TOK_THRESHOLD,
    };
    out
}

/// `n` copies of `x`.
fn repeat_vec(x: usize, n: usize) -> (r: Vec<usize>)
    ensures
        r@ == repeat(x, n as nat),
{
    let mut r: Vec<usize> = Vec::new();
    let mut j: usize = 0;
    while j < n
        invariant
            j <= n,
            r@ == repeat(x, j as nat),
        decreases n - j,
    {
        r.push(x);
        j = j + 1;
        assert(r@ =~= repeat(x, j as nat));
    }
    r
}

/// Length of the longest row of `rows`.
fn longest_usize(rows: &Vec<Vec<usize>>) -> (r: usize)
    ensures
        r == max_len(rows@.map_values(|v: Vec<usize>| v@)),
{
    let ghost views = rows@.map_values(|v: Vec<usize>| v@);
    let mut m: usize = 0;
    let mut i: usize = 0;
    while i < rows.len()
        invariant
            i <= rows@.len(),
            views == rows@.map_values(|v: Vec<usize>| v@),
            m == max_len(views.subrange(0, i as int)),
        decreases rows@.len() - i,
    {
        assert(views.subrange(0, i as int + 1).drop_last() =~= views.subrange(0, i as int));
        if rows[i].len() > m {
            m = rows[i].len();
        }
        i = i + 1;
    }
    assert(views.subrange(0, i as int) =~= views);
    m
}

/// Indices, in order, of the rows of `rows` that reach chunk `i` of size `pbs`.
pub open spec fn chunk_members(rows: Seq<Seq<u32>>, pbs: nat, i: nat) -> Seq<usize>
    decreases rows.len(),
{
    if rows.len() == 0 {
        Seq::empty()
    } else {
        let p = chunk_members(rows.drop_last(), pbs, i);
        if rows.last().len() > i * pbs {
            p.push((rows.len() - 1) as usize)
        } else {
            p
        }
    }
}

/// Part `i` of size `pbs` of a row (the last part may be shorter).
pub open spec fn chunk_of(row: Seq<u32>, pbs: nat, i: nat) -> Seq<u32> {
    let end = if row.len() < (i + 1) * pbs { row.len() } else { (i + 1) * pbs };
    row.subrange((i * pbs) as int, end as int)
}

/// The rows of chunk `i`: part `i` of each row that reaches it.
pub open spec fn chunk_rows(rows: Seq<Seq<u32>>, pbs: nat, i: nat) -> Seq<Seq<u32>> {
    chunk_members(rows, pbs, i).map_values(|s: usize| chunk_of(rows[s as int], pbs, i))
}

proof fn lemma_chunk_members(rows: Seq<Seq<u32>>, pbs: nat, i: nat)
    requires
        rows.len() <= usize::MAX,
    ensures
        forall|k: int|
            0 <= k < chunk_members(rows, pbs, i).len() ==> #[trigger] chunk_members(rows, pbs, i)[k] < rows.len()
                && rows[chunk_members(rows, pbs, i)[k] as int].len() > i * pbs,
        forall|s: int| 0 <= s < rows.len() && rows[s].len() > i * pbs ==> #[trigger] chunk_members(rows, pbs, i).contains(s as usize),
        chunk_members(rows, pbs, i).len() <= rows.len(),
    decreases rows.len(),
{
    if rows.len() > 0 {
        let d = rows.drop_last();
        lemma_chunk_members(d, pbs, i);
        let p = chunk_members(d, pbs, i);
        let cm = chunk_members(rows, pbs, i);
        assert forall|s: int| 0 <= s < rows.len() && rows[s].len() > i * pbs implies #[trigger] cm.contains(s as usize) by {
            if s < d.len() {
                assert(d[s] == rows[s]);
                assert(p.contains(s as usize));
                let k = p.index_of(s as usize);
                assert(cm[k] == s as usize);
            } else {
                assert(cm[p.len() as int] == s as usize);
            }
        }
        assert forall|k: int| 0 <= k < cm.len() implies #[trigger] cm[k] < rows.len() && rows[cm[k] as int].len() > i * pbs by {
            if k < p.len() {
                assert(cm[k] == p[k]);
                assert(p[k] < d.len());
                assert(d[p[k] as int] == rows[p[k] as int]);
            } else {
                assert(cm[k] == (rows.len() - 1) as usize);
            }
        }
    }
}

/// Chunk `i` of size `d` starts before the end of a row of `t` positions
/// when `i` is below the number of chunks.
proof fn lemma_chunk_start(i: nat, d: nat, t: nat)
    requires
        d > 0,
        i < ceil_div(t, d),
    ensures
        i * d < t,
        (i + 1) * d == i * d + d,
        (i + 1) < ceil_div(t, d) ==> (i + 1) * d < t,
        (i + 1) == ceil_div(t, d) ==> (i + 1) * d >= t,
{
    vstd::arithmetic::div_mod::lemma_fundamental_div_mod(t as int, d as int);
    let q = t / d;
    let r = t % d;
    assert((i + 1) * d == i * d + d) by (nonlinear_arith);
    if r == 0 {
        assert(i * d < t) by (nonlinear_arith)
            requires i < q, t == d * q + r, r == 0, d > 0;
        if i + 1 < q {
            assert((i + 1) * d < t) by (nonlinear_arith)
                requires i + 1 < q, t == d * q + r, r == 0, d > 0;
        }
        if i + 1 == q {
            assert((i + 1) * d >= t) by (nonlinear_arith)
                requires i + 1 == q, t == d * q + r, r == 0, d > 0;
        }
    } else {
        assert(i * d < t) by (nonlinear_arith)
            requires i <= q, t == d * q + r, r > 0, d > 0;
        if i + 1 < q + 1 {
            assert((i + 1) * d < t) by (nonlinear_arith)
                requires i + 1 <= q, t == d * q + r, r > 0, d > 0;
        }
        if i + 1 == q + 1 {
            assert((i + 1) * d >= t) by (nonlinear_arith)
                requires i == q, t == d * q + r, r < d, d > 0;
        }
    }
}

/// Parts `0 .. k` of size `pbs` of `row`, joined in order.
pub open spec fn joined_chunks(row: Seq<u32>, pbs: nat, k: nat) -> Seq<u32>
    decreases k,
{
    if k == 0 {
        Seq::empty()
    } else {
        joined_chunks(row, pbs, (k - 1) as nat) + chunk_of(row, pbs, (k - 1) as nat)
    }
}

proof fn lemma_joined_prefix(row: Seq<u32>, pbs: nat, k: nat)
    requires
        pbs > 0,
        k == 0 || (k - 1) * pbs < row.len(),
    ensures
        joined_chunks(row, pbs, k) == row.subrange(0, if k * pbs < row.len() { (k * pbs) as int } else { row.len() as int }),
    decreases k,
{
    if k == 0 {
        assert(row.subrange(0, 0) =~= Seq::<u32>::empty());
    } else {
        let k1 = (k - 1) as nat;
        assert(k1 * pbs + pbs == k * pbs) by (nonlinear_arith)
            requires k1 == k - 1;
        if k1 > 0 {
            assert((k1 - 1) * pbs < k1 * pbs) by (nonlinear_arith)
                requires k1 > 0, pbs > 0;
        }
        lemma_joined_prefix(row, pbs, k1);
        assert(joined_chunks(row, pbs, k) =~= row.subrange(0, if k * pbs < row.len() { (k * pbs) as int } else { row.len() as int }));
    }
}

/// Cutting a prompt into parts of `pbs` tokens loses and repeats nothing:
/// the parts of all its chunks, joined in chunk order, give back the prompt,
/// and the part in its last chunk ends at the prompt's length, the position
/// at which a single unchunked pass ends too.
pub proof fn lemma_chunks_rebuild_prompt(row: Seq<u32>, pbs: nat)
    requires
        pbs > 0,
    ensures
        joined_chunks(row, pbs, ceil_div(row.len(), pbs)) == row,
        row.len() > 0 ==> ({
            let k = ceil_div(row.len(), pbs);
            k >= 1 && (k - 1) * pbs + chunk_of(row, pbs, (k - 1) as nat).len() == row.len()
        }),
{
    let k = ceil_div(row.len(), pbs);
    let n = row.len();
    vstd::arithmetic::div_mod::lemma_fundamental_div_mod(n as int, pbs as int);
    if n == 0 {
        assert(k == 0) by {
            vstd::arithmetic::div_mod::lemma_fundamental_div_mod_converse(0, pbs as int, 0, 0);
        }
        assert(row =~= Seq::<u32>::empty());
    } else {
        assert(k >= 1 && (k - 1) * pbs < n && k * pbs >= n) by (nonlinear_arith)
            requires
                n > 0,
                pbs > 0,
                n == pbs * (n / pbs) + n % pbs,
                0 <= n % pbs < pbs,
                k == if n % pbs == 0 { n / pbs } else { n / pbs + 1 },
        ;
        lemma_joined_prefix(row, pbs, k);
        assert(row.subrange(0, n as int) =~= row);
        let k1 = (k - 1) as nat;
        assert(k1 * pbs + pbs == k * pbs) by (nonlinear_arith)
            requires k1 == k - 1;
    }
}

/// Elements `a .. b` of `v`.
fn slice_vec(v: &Vec<u32>, a: usize, b: usize) -> (r: Vec<u32>)
    requires
        a <= b <= v@.len(),
    ensures
        r@ == v@.subrange(a as int, b as int),
{
    let mut r: Vec<u32> = Vec::new();
    let mut j: usize = a;
    while j < b
        invariant
            a <= j <= b,
            b <= v@.len(),
            r@ == v@.subrange(a as int, j as int),
        decreases b - j,
    {
        r.push(v[j]);
        j = j + 1;
        assert(r@ =~= v@.subrange(a as int, j as int));
    }
    r
}

/// Whether every row of every chunk of size `pbs` holds `a` tokens.
pub open spec fn chunks_hold(rows: Seq<Seq<u32>>, pbs: nat, a: nat) -> bool {
    forall|i: nat| i < ceil_div(max_len(rows), pbs) ==> rows_hold(#[trigger] chunk_rows(rows, pbs, i), a)
}

/// A row of a chunk holds at least one token.
pub proof fn lemma_chunks_hold_one(rows: Seq<Seq<u32>>, pbs: nat)
    requires
        pbs > 0,
        rows.len() <= usize::MAX,
    ensures
        chunks_hold(rows, pbs, 1),
{
    assert forall|i: nat| i < ceil_div(max_len(rows), pbs) implies rows_hold(#[trigger] chunk_rows(rows, pbs, i), 1) by {
        lemma_chunk_members(rows, pbs, i);
        assert((i + 1) * pbs == i * pbs + pbs) by (nonlinear_arith);
        let cr = chunk_rows(rows, pbs, i);
        assert forall|k: int| 0 <= k < cr.len() implies 1 <= (#[trigger] cr[k]).len() by {
            let m = chunk_members(rows, pbs, i)[k];
            assert(rows[m as int].len() > i * pbs);
        }
    }
}

/// Whether the paged metadata of a prompt step, if any, is usable: the pool
/// is well formed and every table that exists covers the prompt.
pub open spec fn prompt_paged_ready(paged: Option<&PagedAttentionMeta>, rows: Seq<Seq<u32>>, ids: Seq<usize>) -> bool {
    match paged {
        None => true,
        Some(m) => m.block_engine.wf() && m.block_size == m.block_engine.block_size && tables_cover_chunk(
            rows,
            ids,
            m.block_engine,
            m.block_size as nat,
            0,
        ),
    }
}

/// Whether the paged metadata of a completion step, if any, is usable: the
/// pool is well formed and every sequence has a table that covers its last
/// position.
pub open spec fn completion_paged_ready(paged: Option<&PagedAttentionMeta>, rows: Seq<Seq<u32>>, ids: Seq<usize>) -> bool {
    match paged {
        None => true,
        Some(m) => m.block_engine.wf() && m.block_size == m.block_engine.block_size && tables_cover_last(
            rows,
            ids,
            m.block_engine,
            m.block_size as nat,
        ),
    }
}

/// What a prompt step needs of its arguments: a non-empty batch whose
/// bookkeeping fits machine integers, and rows (or, when chunked, chunk rows)
/// that hold the kept logits. Chunking with paged attention needs nothing,
/// since it is refused before the batch is read.
pub open spec fn prompt_input_ready(
    toks: Seq<Vec<u32>>,
    seq_ids: Seq<usize>,
    last_n_context_len: Option<(usize, usize)>,
    paged_attn_metadata: Option<&PagedAttentionMeta>,
    prompt_batchsize: Option<usize>,
) -> bool {
    let rows = rows_of(toks);
    let a = kept_logits(last_n_context_len);
    let batch_fits = toks.len() > 0 && seq_ids.len() == toks.len() && prompt_fits(toks, 0, last_n_context_len);
    match (prompt_batchsize, paged_attn_metadata) {
        (Some(_), Some(_)) => true,
        (Some(b), None) => batch_fits && b > 0 && chunks_hold(rows, b as nat, a),
        (None, paged) => batch_fits && rows_hold(rows, a) && prompt_paged_ready(paged, rows, seq_ids),
    }
}

/// What a completion step needs of its arguments: a token in every sequence,
/// a total length that fits, and usable paged metadata.
pub open spec fn completion_input_ready(
    toks: Seq<Vec<u32>>,
    seq_ids: Seq<usize>,
    paged_attn_metadata: Option<&PagedAttentionMeta>,
) -> bool {
    &&& seq_ids.len() == toks.len()
    &&& forall|s: int| 0 <= s < toks.len() ==> (#[trigger] toks[s])@.len() >= 1
    &&& prefix_sums(lens_of(toks)).last() <= usize::MAX
    &&& completion_paged_ready(paged_attn_metadata, rows_of(toks), seq_ids)
}

/// What `get_prompt_input` returns for these arguments.
pub open spec fn prompt_input_result(
    toks: Seq<Vec<u32>>,
    seq_ids: Seq<usize>,
    last_n_context_len: Option<(usize, usize)>,
    paged_attn_metadata: Option<&PagedAttentionMeta>,
    prompt_batchsize: Option<usize>,
    r: Result<Vec<InnerInputProcessorOutput>, InputsError>,
) -> bool {
    match (prompt_batchsize, paged_attn_metadata, r) {
        (Some(_), Some(_), r) => r == Err::<Vec<InnerInputProcessorOutput>, InputsError>(
            InputsError::ConfigurationConflict,
        ),
        (Some(b), None, Ok(chunks)) => {
            let rows = rows_of(toks);
            &&& chunks@.len() == ceil_div(max_len(rows), b as nat)
            &&& forall|i: int|
                0 <= i < chunks@.len() ==> {
                    &&& (#[trigger] chunks@[i]).seq_indices@ == chunk_members(rows, b as nat, i as nat)
                    &&& prompt_rows(
                        &chunks@[i].inputs,
                        (i * b) as nat,
                        chunk_rows(rows, b as nat, i as nat),
                        last_n_context_len,
                    )
                    &&& chunks@[i].inputs.paged_attn_meta is None
                }
        },
        (None, paged, Ok(chunks)) => {
            &&& chunks@.len() == 1
            &&& chunks@[0].seq_indices@ == Seq::new(toks.len(), |j: int| j as usize)
            &&& prompt_rows(&chunks@[0].inputs, 0, rows_of(toks), last_n_context_len)
            &&& match paged {
                None => chunks@[0].inputs.paged_attn_meta is None,
                Some(m) => chunks@[0].inputs.paged_attn_meta matches Some(p) && prompt_paged(
                    &p,
                    0,
                    toks,
                    seq_ids,
                    m.block_engine,
                    m.block_size as nat,
                ),
            }
        },
        _ => false,
    }
}

/// What `get_completion_input` returns for a step that uses the cache: one
/// chunk of all sequences, in order.
pub open spec fn completion_input_result(
    toks: Seq<Vec<u32>>,
    seq_ids: Seq<usize>,
    paged_attn_metadata: Option<&PagedAttentionMeta>,
    r: Result<Vec<InnerInputProcessorOutput>, InputsError>,
) -> bool {
    match r {
        Ok(chunks) => {
            &&& chunks@.len() == 1
            &&& chunks@[0].seq_indices@ == Seq::new(toks.len(), |j: int| j as usize)
            &&& completion_rows(&chunks@[0].inputs, toks)
            &&& match paged_attn_metadata {
                None => chunks@[0].inputs.paged_attn_meta is None,
                Some(m) => chunks@[0].inputs.paged_attn_meta matches Some(p) && completion_paged(
                    &p,
                    toks,
                    seq_ids,
                    m.block_engine,
                    m.block_size as nat,
                    m.sliding_window,
                ),
            }
        },
        Err(_) => false,
    }
}

/// `0, 1, ..., n - 1`.
fn indices(n: usize) -> (r: Vec<usize>)
    ensures
        r@ == Seq::new(n as nat, |q: int| q as usize),
{
    let mut v: Vec<usize> = Vec::new();
    let mut j: usize = 0;
    while j < n
        invariant
            j <= n,
            v@ == Seq::new(j as nat, |q: int| q as usize),
        decreases n - j,
    {
        v.push(j);
        j = j + 1;
        assert(v@ =~= Seq::new(j as nat, |q: int| q as usize));
    }
    v
}

/// Builds the inputs of a prompt step. Without `prompt_batchsize` this is one
/// chunk of all sequences. With it, each prompt is cut into parts of that
/// size and chunk `i` holds part `i` of every prompt that reaches it, with
/// positions starting at `i * prompt_batchsize`; chunked batching together
/// with paged attention is refused as a configuration conflict.
pub fn get_prompt_input(
    toks: &Vec<Vec<u32>>,
    seq_ids: &Vec<usize>,
    last_n_context_len: Option<(usize, usize)>,
    paged_attn_metadata: Option<&PagedAttentionMeta>,
    prompt_batchsize: Option<usize>,
) -> (r: Result<Vec<InnerInputProcessorOutput>, InputsError>)
    requires
        prompt_input_ready(toks@, seq_ids@, last_n_context_len, paged_attn_metadata, prompt_batchsize),
    ensures
        prompt_input_result(toks@, seq_ids@, last_n_context_len, paged_attn_metadata, prompt_batchsize, r),
{
    let n = toks.len();
    match prompt_batchsize {
        Some(pbs) => {
            if paged_attn_metadata.is_some() {
                return Err(InputsError::ConfigurationConflict);
            }
            let ghost rows = rows_of(toks@);
            let ghost a = kept_logits(last_n_context_len);
            let total = longest(toks);
            proof {
                lemma_max_len(rows);
            }
            let nchunks = blocks_for(total, pbs);
            let mut chunks: Vec<InnerInputProcessorOutput> = Vec::new();
            let mut i: usize = 0;
            while i < nchunks
                invariant
                    n == toks@.len(),
                    n > 0,
                    seq_ids@.len() == n,
                    rows == rows_of(toks@),
                    total == max_len(rows),
                    forall|q: int| 0 <= q < rows.len() ==> (#[trigger] rows[q]).len() <= total,
                    exists|q: int| 0 <= q < rows.len() && (#[trigger] rows[q]).len() == total,
                    pbs > 0,
                    nchunks == ceil_div(total as nat, pbs as nat),
                    a == kept_logits(last_n_context_len),
                    chunks_hold(rows, pbs as nat, a),
                    prompt_fits(toks@, 0, last_n_context_len),
                    i <= nchunks,
                    chunks@.len() == i,
                    forall|k: int|
                        0 <= k < i ==> {
                            &&& (#[trigger] chunks@[k]).seq_indices@ == chunk_members(rows, pbs as nat, k as nat)
                            &&& prompt_rows(&chunks@[k].inputs, (k * pbs) as nat, chunk_rows(rows, pbs as nat, k as nat), last_n_context_len)
                            &&& chunks@[k].inputs.paged_attn_meta is None
                        },
                decreases nchunks - i,
            {
                proof {
                    lemma_chunk_start(i as nat, pbs as nat, total as nat);
                }
                let start = i * pbs;
                let ghost crow = chunk_rows(rows, pbs as nat, i as nat);
                let mut ct: Vec<Vec<u32>> = Vec::new();
                let mut cids: Vec<usize> = Vec::new();
                let mut idx: Vec<usize> = Vec::new();
                let mut s: usize = 0;
                while s < n
                    invariant
                        n == toks@.len(),
                        seq_ids@.len() == n,
                        rows == rows_of(toks@),
                        start == i * pbs,
                        (i + 1) * pbs == start + pbs,
                        pbs > 0,
                        s <= n,
                        idx@ == chunk_members(rows.subrange(0, s as int), pbs as nat, i as nat),
                        ct@.len() == idx@.len(),
                        cids@.len() == idx@.len(),
                        forall|k: int| 0 <= k < idx@.len() ==> idx@[k] < s,
                        forall|k: int| 0 <= k < idx@.len() ==> (#[trigger] ct@[k])@ == chunk_of(rows[idx@[k] as int], pbs as nat, i as nat),
                        forall|k: int| 0 <= k < idx@.len() ==> #[trigger] cids@[k] == seq_ids@[idx@[k] as int],
                    decreases n - s,
                {
                    let l = toks[s].len();
                    assert(rows[s as int] == toks@[s as int]@);
                    let ghost sub = rows.subrange(0, s as int + 1);
                    assert(sub.drop_last() =~= rows.subrange(0, s as int));
                    if l > start {
                        let end = if l - start < pbs { l } else { start + pbs };
                        ct.push(slice_vec(&toks[s], start, end));
                        cids.push(seq_ids[s]);
                        idx.push(s);
                    }
                    s = s + 1;
                }
                proof {
                    assert(rows.subrange(0, n as int) =~= rows);
                    lemma_chunk_members(rows, pbs as nat, i as nat);
                    assert(rows_of(ct@) =~= crow);
                    assert(rows_hold(crow, a));
                    lemma_max_len(rows_of(ct@));
                    let q = choose|q: int| 0 <= q < rows.len() && (#[trigger] rows[q]).len() == total;
                    assert(chunk_members(rows, pbs as nat, i as nat).contains(q as usize));
                    assert(ct@.len() > 0);
                    assert forall|k: int| 0 <= k < ct@.len() implies (#[trigger] rows_of(ct@)[k]).len() + start <= total by {
                        assert(rows_of(ct@)[k] == chunk_of(rows[idx@[k] as int], pbs as nat, i as nat));
                        assert(rows[idx@[k] as int].len() <= total);
                    }
                    let cm = max_len(rows_of(ct@));
                    let kk = choose|k: int| 0 <= k < rows_of(ct@).len() && (#[trigger] rows_of(ct@)[k]).len() == cm;
                    assert(cm + start <= total);
                    assert(ct@.len() * (cm + start) <= n * total) by (nonlinear_arith)
                        requires ct@.len() <= n, cm + start <= total;
                }
                let inputs = make_prompt_chunk(start, &ct, &cids, last_n_context_len, None);
                chunks.push(InnerInputProcessorOutput { inputs, seq_indices: idx });
                i = i + 1;
            }
            Ok(chunks)
        },
        None => {
            let inputs = make_prompt_chunk(0, toks, seq_ids, last_n_context_len, paged_attn_metadata);
            let seq_indices = indices(n);
            let mut chunks: Vec<InnerInputProcessorOutput> = Vec::new();
            chunks.push(InnerInputProcessorOutput { inputs, seq_indices });
            Ok(chunks)
        },
    }
}

/// Builds the inputs of a completion step: one chunk with the last token of
/// each sequence. Without a key/value cache every step is built as a prompt
/// step over the whole history instead.
pub fn get_completion_input(
    toks: &Vec<Vec<u32>>,
    seq_ids: &Vec<usize>,
    no_kv_cache: bool,
    last_n_context_len: Option<(usize, usize)>,
    paged_attn_metadata: Option<&PagedAttentionMeta>,
    prompt_batchsize: Option<usize>,
) -> (r: Result<Vec<InnerInputProcessorOutput>, InputsError>)
    requires
        no_kv_cache ==> prompt_input_ready(toks@, seq_ids@, last_n_context_len, paged_attn_metadata, prompt_batchsize),
        !no_kv_cache ==> completion_input_ready(toks@, seq_ids@, paged_attn_metadata),
    ensures
        no_kv_cache ==> prompt_input_result(
            toks@,
            seq_ids@,
            last_n_context_len,
            paged_attn_metadata,
            prompt_batchsize,
            r,
        ),
        !no_kv_cache ==> completion_input_result(toks@, seq_ids@, paged_attn_metadata, r),
{
    if no_kv_cache {
        return get_prompt_input(toks, seq_ids, last_n_context_len, paged_attn_metadata, prompt_batchsize);
    }
    let inputs = make_completion_chunk(toks, seq_ids, paged_attn_metadata);
    let seq_indices = indices(toks.len());
    let mut chunks: Vec<InnerInputProcessorOutput> = Vec::new();
    chunks.push(InnerInputProcessorOutput { inputs, seq_indices });
    Ok(chunks)
}

/// Which kind of inputs a processor prepares.
#[derive(Debug, Clone, Copy, PartialEq, Eq, Structural)]
pub enum InputsProcessorType {
    Text,
    Vision,
}

/// Inputs processor for text models.
pub struct TextInputsProcessor;

impl TextInputsProcessor {
    pub fn get_type(&self) -> (r: InputsProcessorType)
        ensures
            r == InputsProcessorType::Text,
    {
        InputsProcessorType::Text
    }

    /// The chunks of one step: prompt chunks for a prompt step (or for any
    /// step without a key/value cache), the completion chunk otherwise.
    pub fn process_inputs(
        &self,
        toks: &Vec<Vec<u32>>,
        seq_ids: &Vec<usize>,
        is_prompt: bool,
        no_kv_cache: bool,
        last_n_context_len: Option<(usize, usize)>,
        paged_attn_metadata: Option<&PagedAttentionMeta>,
        prompt_batchsize: Option<usize>,
    ) -> (r: Result<Vec<InnerInputProcessorOutput>, InputsError>)
        requires
            is_prompt || no_kv_cache ==> prompt_input_ready(
                toks@,
                seq_ids@,
                last_n_context_len,
                paged_attn_metadata,
                prompt_batchsize,
            ),
            !(is_prompt || no_kv_cache) ==> completion_input_ready(toks@, seq_ids@, paged_attn_metadata),
        ensures
            is_prompt || no_kv_cache ==> prompt_input_result(
                toks@,
                seq_ids@,
                last_n_context_len,
                paged_attn_metadata,
                prompt_batchsize,
                r,
            ),
            !(is_prompt || no_kv_cache) ==> completion_input_result(toks@, seq_ids@, paged_attn_metadata, r),
    {
        if is_prompt {
            get_prompt_input(toks, seq_ids, last_n_context_len, paged_attn_metadata, prompt_batchsize)
        } else {
            get_completion_input(
                toks,
                seq_ids,
                no_kv_cache,
                last_n_context_len,
                paged_attn_metadata,
                prompt_batchsize,
            )
        }
    }
}

} // verus!
