//! Paged key/value memory: a pool of fixed-size blocks addressed by integer id,
//! reference counted so that sequences can share a common prefix.
use vstd::prelude::*;

verus! {

/// Whether block `b` appears in table `t`, as 0 or 1.
pub open spec fn holds(t: Seq<usize>, b: usize) -> nat {
    if t.contains(b) { 1 } else { 0 }
}

/// Number of tables in `ts` that reference block `b`.
pub open spec fn refs(ts: Seq<Seq<usize>>, b: usize) -> nat
    decreases ts.len(),
{
    if ts.len() == 0 {
        0
    } else {
        refs(ts.drop_last(), b) + holds(ts.last(), b)
    }
}

pub proof fn lemma_refs_push(ts: Seq<Seq<usize>>, t: Seq<usize>, b: usize)
    ensures
        refs(ts.push(t), b) == refs(ts, b) + holds(t, b),
{
    assert(ts.push(t).drop_last() =~= ts);
}

pub proof fn lemma_refs_update(ts: Seq<Seq<usize>>, i: int, t: Seq<usize>, b: usize)
    requires
        0 <= i < ts.len(),
    ensures
        refs(ts.update(i, t), b) + holds(ts[i], b) == refs(ts, b) + holds(t, b),
    decreases ts.len(),
{
    if i == ts.len() - 1 {
        assert(ts.update(i, t).drop_last() =~= ts.drop_last());
    } else {
        lemma_refs_update(ts.drop_last(), i, t, b);
        assert(ts.update(i, t).drop_last() =~= ts.drop_last().update(i, t));
    }
}

pub proof fn lemma_refs_remove(ts: Seq<Seq<usize>>, i: int, b: usize)
    requires
        0 <= i < ts.len(),
    ensures
        refs(ts.remove(i), b) + holds(ts[i], b) == refs(ts, b),
    decreases ts.len(),
{
    if i == ts.len() - 1 {
        assert(ts.remove(i) =~= ts.drop_last());
    } else {
        lemma_refs_remove(ts.drop_last(), i, b);
        assert(ts.remove(i).drop_last() =~= ts.drop_last().remove(i));
    }
}

/// A table that holds `b` adds one to its count.
pub proof fn lemma_refs_member(ts: Seq<Seq<usize>>, i: int, b: usize)
    requires
        0 <= i < ts.len(),
        ts[i].contains(b),
    ensures
        refs(ts, b) >= 1,
        forall|j: int| 0 <= j < ts.len() && j != i && ts[j].contains(b) ==> refs(ts, b) >= 2,
    decreases ts.len(),
{
    lemma_refs_remove(ts, i, b);
    assert forall|j: int| 0 <= j < ts.len() && j != i && ts[j].contains(b) implies refs(ts, b) >= 2 by {
        let k = if j < i { j } else { j - 1 };
        assert(ts.remove(i)[k] == ts[j]);
        lemma_refs_member(ts.remove(i), k, b);
    }
}

/// No table references a block counted zero times.
pub proof fn lemma_refs_zero(ts: Seq<Seq<usize>>, b: usize)
    requires
        refs(ts, b) == 0,
    ensures
        forall|j: int| 0 <= j < ts.len() ==> !ts[j].contains(b),
{
    assert forall|j: int| 0 <= j < ts.len() implies !ts[j].contains(b) by {
        if ts[j].contains(b) {
            lemma_refs_member(ts, j, b);
        }
    }
}


proof fn lemma_push_contains(s: Seq<usize>, b: usize)
    ensures
        forall|x: usize| #[trigger] s.push(b).contains(x) <==> (s.contains(x) || x == b),
        !s.contains(b) && s.no_duplicates() ==> s.push(b).no_duplicates(),
{
    assert forall|x: usize| #[trigger] s.push(b).contains(x) <==> (s.contains(x) || x == b) by {
        if s.contains(x) {
            let k = s.index_of(x);
            assert(s.push(b)[k] == x);
        }
        if x == b {
            assert(s.push(b)[s.len() as int] == b);
        }
        if s.push(b).contains(x) {
            let k = s.push(b).index_of(x);
            if k < s.len() {
                assert(s[k] == x);
            }
        }
    }
}

/// Whether `b` occurs in `t` from position `k` on.
proof fn lemma_holds_step(t: Seq<usize>, k: int, b: usize)
    requires
        0 <= k < t.len(),
        t.no_duplicates(),
    ensures
        holds(t.subrange(k, t.len() as int), b) == holds(t.subrange(k + 1, t.len() as int), b) + if t[k]
            == b {
            1nat
        } else {
            0nat
        },
{
    let r0 = t.subrange(k, t.len() as int);
    let r1 = t.subrange(k + 1, t.len() as int);
    if r1.contains(b) {
        let j = r1.index_of(b);
        assert(r0[j + 1] == b);
        assert(t[k + 1 + j] == b);
    }
    if t[k] == b {
        assert(r0[0] == b);
    } else if r0.contains(b) {
        let j = r0.index_of(b);
        assert(j != 0);
        assert(r1[j - 1] == b);
    }
}

proof fn lemma_refs_none(ts: Seq<Seq<usize>>, b: usize)
    requires
        forall|j: int| 0 <= j < ts.len() ==> !(#[trigger] ts[j]).contains(b),
    ensures
        refs(ts, b) == 0,
    decreases ts.len(),
{
    if ts.len() > 0 {
        let d = ts.drop_last();
        assert forall|j: int| 0 <= j < d.len() implies !(#[trigger] d[j]).contains(b) by {
            assert(d[j] == ts[j]);
        }
        lemma_refs_none(d, b);
        assert(!ts[ts.len() - 1].contains(b));
    }
}

/// Number of blocks of `block_size` slots needed to hold `tokens` slots.
pub open spec fn ceil_div(tokens: nat, block_size: nat) -> nat {
    if tokens % block_size == 0 {
        tokens / block_size
    } else {
        tokens / block_size + 1
    }
}

/// Number of blocks of `block_size` slots needed to hold `tokens` slots.
pub fn blocks_for(tokens: usize, block_size: usize) -> (r: usize)
    requires
        block_size > 0,
    ensures
        r == ceil_div(tokens as nat, block_size as nat),
{
    if tokens % block_size == 0 {
        tokens / block_size
    } else {
        assert(tokens / block_size < tokens) by (nonlinear_arith)
            requires
                tokens % block_size != 0,
                block_size > 0,
        {
            if block_size == 1 {
                assert(tokens % block_size == 0);
            }
        }
        tokens / block_size + 1
    }
}

proof fn lemma_ceil_mono(a: nat, b: nat, d: nat)
    requires
        a <= b,
        d > 0,
    ensures
        ceil_div(a, d) <= ceil_div(b, d),
{
    vstd::arithmetic::div_mod::lemma_div_is_ordered(a as int, b as int, d as int);
    vstd::arithmetic::div_mod::lemma_fundamental_div_mod(a as int, d as int);
    vstd::arithmetic::div_mod::lemma_fundamental_div_mod(b as int, d as int);
}

/// One more position needs a new block exactly when the last block is full.
proof fn lemma_ceil_succ(t: nat, d: nat)
    requires
        d > 0,
    ensures
        ceil_div(t, d) == if t % d == 0 { t / d } else { t / d + 1 },
        t % d == 0 ==> ceil_div(t + 1, d) == t / d + 1,
        t % d != 0 ==> ceil_div(t + 1, d) == t / d + 1,
{
    let q = t / d;
    let r = t % d;
    vstd::arithmetic::div_mod::lemma_fundamental_div_mod(t as int, d as int);
    if r + 1 < d {
        vstd::arithmetic::div_mod::lemma_fundamental_div_mod_converse((t + 1) as int, d as int, q as int, (r + 1) as int);
    } else {
        assert(t + 1 == (q + 1) * d) by (nonlinear_arith)
            requires
                t == q * d + r,
                r + 1 == d,
        ;
        vstd::arithmetic::div_mod::lemma_fundamental_div_mod_converse((t + 1) as int, d as int, (q + 1) as int, 0);
    }
}

/// A slot of a block of the pool has an index that fits the pool.
proof fn lemma_slot_bound(w: nat, off: nat, n: nat, d: nat)
    requires
        w < n,
        off < d,
    ensures
        w * d + off < n * d,
{
    assert(w * d + off < n * d) by (nonlinear_arith)
        requires
            w < n,
            off < d,
    ;
}

/// The first `k` blocks that repeated pops take from the end of `free`.
pub open spec fn fresh_blocks(free: Seq<usize>, k: nat) -> Seq<usize> {
    Seq::new(k, |j: int| free[free.len() - 1 - j])
}

/// Why a request to the allocator could not be met.
#[derive(Debug, Clone, Copy, PartialEq, Eq, Structural)]
pub enum AllocError {
    /// The free list holds fewer blocks than the request needs.
    OutOfMemory,
    /// No block table is registered under the given sequence id.
    UnknownSequence,
    /// A block table is already registered under the given sequence id.
    SequenceExists,
    /// A block is already shared by as many sequences as a counter can hold.
    TooManyReferences,
}

/// The block table of one sequence: the physical block behind each run of
/// `block_size` logical positions, and how many positions are in use.
pub struct SeqBlocks {
    pub seq_id: usize,
    pub num_tokens: usize,
    pub blocks: Vec<usize>,
}

/// An arena of `ref_counts.len()` physical blocks with a free list, a
/// reference count per block and one block table per sequence.
pub struct BlockEngine {
    pub block_size: usize,
    pub ref_counts: Vec<usize>,
    pub free_list: Vec<usize>,
    pub block_tables: Vec<SeqBlocks>,
    /// Copies `(from, to)` of block contents that copy-on-write has scheduled.
    pub pending_copies: Vec<(usize, usize)>,
}

impl BlockEngine {
    pub open spec fn tables(&self) -> Seq<Seq<usize>> {
        self.block_tables@.map_values(|t: SeqBlocks| t.blocks@)
    }

    pub open spec fn ids(&self) -> Seq<usize> {
        self.block_tables@.map_values(|t: SeqBlocks| t.seq_id)
    }

    pub open spec fn token_counts(&self) -> Seq<usize> {
        self.block_tables@.map_values(|t: SeqBlocks| t.num_tokens)
    }

    pub open spec fn num_blocks(&self) -> nat {
        self.ref_counts@.len()
    }

    pub open spec fn is_free(&self, b: usize) -> bool {
        self.free_list@.contains(b)
    }

    /// The pool's invariant: counts agree with the tables, and the free list
    /// holds exactly the blocks that no table references.
    pub open spec fn pool_wf(&self) -> bool {
        &&& self.block_size > 0
        &&& self.ref_counts@.len() * self.block_size <= usize::MAX
        &&& self.free_list@.no_duplicates()
        &&& forall|k: int|
            0 <= k < self.free_list@.len() ==> #[trigger] self.free_list@[k] < self.ref_counts@.len()
        &&& forall|b: usize|
            b < self.ref_counts@.len() ==> #[trigger] self.ref_counts@[b as int] == refs(
                self.tables(),
                b,
            )
        &&& forall|b: usize|
            b < self.ref_counts@.len() ==> (#[trigger] self.ref_counts@[b as int] == 0
                <==> self.free_list@.contains(b))
        &&& forall|i: int, k: int|
            0 <= i < self.tables().len() && 0 <= k < self.tables()[i].len() ==> #[trigger] self.tables()[i][k]
                < self.ref_counts@.len()
        &&& forall|i: int| 0 <= i < self.tables().len() ==> #[trigger] self.tables()[i].no_duplicates()
        &&& forall|i: int, j: int|
            0 <= i < self.ids().len() && 0 <= j < self.ids().len() && i != j ==> #[trigger] self.ids()[i]
                != #[trigger] self.ids()[j]
    }

    /// Each table has exactly the blocks that its token count needs.
    pub open spec fn sized(&self) -> bool {
        forall|i: int|
            0 <= i < self.block_tables@.len() ==> (#[trigger] self.block_tables@[i]).blocks@.len()
                == ceil_div(self.block_tables@[i].num_tokens as nat, self.block_size as nat)
    }

    pub open spec fn wf(&self) -> bool {
        self.pool_wf() && self.sized()
    }

    pub open spec fn has_seq(&self, id: usize) -> bool {
        self.ids().contains(id)
    }

    /// Position of the table of sequence `id`.
    pub open spec fn index_of(&self, id: usize) -> int {
        self.ids().index_of(id)
    }

    /// A pool of `num_blocks` free blocks of `block_size` slots, with no tables.
    pub fn new(num_blocks: usize, block_size: usize) -> (r: Self)
        requires
            block_size > 0,
            num_blocks * block_size <= usize::MAX,
        ensures
            r.wf(),
            r.num_blocks() == num_blocks,
            r.block_size == block_size,
            r.free_list@.len() == num_blocks,
            r.block_tables@.len() == 0,
            r.pending_copies@.len() == 0,
    {
        let mut ref_counts: Vec<usize> = Vec::new();
        let mut free_list: Vec<usize> = Vec::new();
        let mut i: usize = 0;
        while i < num_blocks
            invariant
                i <= num_blocks,
                ref_counts@.len() == i,
                free_list@.len() == i,
                forall|k: int| 0 <= k < i ==> ref_counts@[k] == 0,
                forall|k: int| 0 <= k < i ==> #[trigger] free_list@[k] == num_blocks - 1 - k,
            decreases num_blocks - i,
        {
            ref_counts.push(0);
            free_list.push(num_blocks - 1 - i);
            i = i + 1;
        }
        let r = BlockEngine {
            block_size,
            ref_counts,
            free_list,
            block_tables: Vec::new(),
            pending_copies: Vec::new(),
        };
        assert(r.tables() =~= Seq::<Seq<usize>>::empty());
        assert forall|b: usize| b < num_blocks implies r.free_list@.contains(b) by {
            assert(r.free_list@[num_blocks - 1 - b] == b);
        }
        r
    }

    /// Position of the table of sequence `seq_id`, if one is registered.
    pub fn find(&self, seq_id: usize) -> (r: Option<usize>)
        ensures
            r is None <==> !self.has_seq(seq_id),
            r matches Some(i) ==> i < self.block_tables@.len() && self.ids()[i as int] == seq_id,
            self.pool_wf() ==> (r matches Some(i) ==> i == self.index_of(seq_id)),
    {
        let mut i: usize = 0;
        while i < self.block_tables.len()
            invariant
                i <= self.block_tables@.len(),
                forall|k: int| 0 <= k < i ==> self.ids()[k] != seq_id,
            decreases self.block_tables@.len() - i,
        {
            if self.block_tables[i].seq_id == seq_id {
                assert(self.ids()[i as int] == seq_id);
                proof {
                    if self.pool_wf() {
                        self.ids().index_of_first_ensures(seq_id);
                    }
                }
                return Some(i);
            }
            i = i + 1;
        }
        None
    }

    /// Takes the last block of the free list and appends it to table `i`.
    fn push_free_block(&mut self, i: usize) -> (b: usize)
        requires
            old(self).pool_wf(),
            i < old(self).block_tables@.len(),
            old(self).free_list@.len() > 0,
        ensures
            final(self).pool_wf(),
            b == old(self).free_list@.last(),
            final(self).free_list@ == old(self).free_list@.drop_last(),
            final(self).tables() == old(self).tables().update(i as int, old(self).tables()[i as int].push(b)),
            final(self).ids() == old(self).ids(),
            final(self).token_counts() == old(self).token_counts(),
            final(self).block_size == old(self).block_size,
            final(self).num_blocks() == old(self).num_blocks(),
            final(self).ref_counts@ == old(self).ref_counts@.update(b as int, 1),
            final(self).pending_copies@ == old(self).pending_copies@,
    {
        let ghost ts = self.tables();
        let b = self.free_list.pop().unwrap();
        assert(old(self).free_list@[old(self).free_list@.len() - 1] == b);
        assert(self.ref_counts@[b as int] == 0);
        proof {
            lemma_refs_zero(ts, b);
        }
        let mut t = self.block_tables.remove(i);
        t.blocks.push(b);
        self.block_tables.insert(i, t);
        self.ref_counts.set(b, 1);
        let ghost nt = ts[i as int].push(b);
        assert(self.tables() =~= ts.update(i as int, nt));
        assert(self.ids() =~= old(self).ids());
        assert(self.token_counts() =~= old(self).token_counts());
        assert forall|x: usize| x < self.ref_counts@.len() implies #[trigger] self.ref_counts@[x as int]
            == refs(self.tables(), x) by {
            lemma_refs_update(ts, i as int, nt, x);
            lemma_push_contains(ts[i as int], b);
        }
        assert forall|x: usize| x < self.ref_counts@.len() implies (#[trigger] self.ref_counts@[x as int]
            == 0 <==> self.free_list@.contains(x)) by {
            if x != b {
                if old(self).free_list@.contains(x) {
                    let k = old(self).free_list@.index_of(x);
                    assert(k != old(self).free_list@.len() - 1);
                    assert(self.free_list@[k] == x);
                }
            } else {
                assert(!self.free_list@.contains(b));
            }
        }
        assert forall|j: int, k: int|
            0 <= j < self.tables().len() && 0 <= k < self.tables()[j].len() implies #[trigger] self.tables()[j][k]
            < self.ref_counts@.len() by {
            if j == i && k == ts[j].len() {
            } else {
                assert(self.tables()[j][k] == ts[j][k]);
            }
        }
        proof {
            lemma_push_contains(ts[i as int], b);
        }
        b
    }

    /// Number of positions in use by sequence `id`; zero without a table.
    pub open spec fn tokens_of(&self, id: usize) -> nat {
        if self.has_seq(id) {
            self.token_counts()[self.index_of(id)] as nat
        } else {
            0
        }
    }

    /// Block table of sequence `id`; empty without a table.
    pub open spec fn table_of(&self, id: usize) -> Seq<usize> {
        if self.has_seq(id) {
            self.tables()[self.index_of(id)]
        } else {
            Seq::empty()
        }
    }

    /// Blocks that sequence `id` must gain to hold `n` more positions.
    pub open spec fn blocks_to_add(&self, id: usize, n: nat) -> int {
        ceil_div(self.tokens_of(id) + n, self.block_size as nat) - self.table_of(id).len()
    }

    /// Every sequence but `id` keeps its table and its token count.
    pub open spec fn others_kept(&self, old: &Self, id: usize) -> bool {
        forall|o: usize|
            o != id ==> (#[trigger] self.has_seq(o) == old.has_seq(o) && self.table_of(o) == old.table_of(o)
                && self.tokens_of(o) == old.tokens_of(o))
    }

    /// Grows the table of `seq_id` (registering it when new) so that it covers
    /// `n_new_slots` more positions, taking the blocks from the free list.
    /// The last block receives new positions as it is: see `allocate_for`.
    fn grow(&mut self, seq_id: usize, n_new_slots: usize) -> (r: Result<(), AllocError>)
        requires
            old(self).wf(),
            old(self).tokens_of(seq_id) + n_new_slots <= usize::MAX,
        ensures
            final(self).wf(),
            r is Err <==> old(self).free_list@.len() < old(self).blocks_to_add(seq_id, n_new_slots as nat),
            r is Err ==> r == Err::<(), AllocError>(AllocError::OutOfMemory) && *final(self) == *old(self),
            r is Ok ==> {
                let k = old(self).blocks_to_add(seq_id, n_new_slots as nat);
                &&& k >= 0
                &&& final(self).has_seq(seq_id)
                &&& final(self).tokens_of(seq_id) == old(self).tokens_of(seq_id) + n_new_slots
                &&& final(self).table_of(seq_id) == old(self).table_of(seq_id) + fresh_blocks(
                    old(self).free_list@,
                    k as nat,
                )
                &&& final(self).free_list@ == old(self).free_list@.subrange(
                    0,
                    old(self).free_list@.len() - k,
                )
                &&& final(self).others_kept(old(self), seq_id)
                &&& final(self).block_size == old(self).block_size
                &&& final(self).num_blocks() == old(self).num_blocks()
                &&& final(self).pending_copies@ == old(self).pending_copies@
                &&& forall|b: usize|
                    b < old(self).num_blocks() ==> #[trigger] final(self).ref_counts@[b as int] == if fresh_blocks(
                        old(self).free_list@,
                        k as nat,
                    ).contains(b) {
                        1
                    } else {
                        old(self).ref_counts@[b as int]
                    }
            },
    {
        let found = self.find(seq_id);
        let (tokens, have) = match found {
            Some(i) => (self.block_tables[i].num_tokens, self.block_tables[i].blocks.len()),
            None => (0, 0),
        };
        proof {
            if found is Some {
                assert(self.block_tables@[self.index_of(seq_id)].blocks@.len() == have);
            }
            lemma_ceil_mono(tokens as nat, (tokens + n_new_slots) as nat, self.block_size as nat);
        }
        let total = tokens + n_new_slots;
        let want = blocks_for(total, self.block_size);
        let needed = want - have;
        if self.free_list.len() < needed {
            return Err(AllocError::OutOfMemory);
        }
        let ghost old_free = self.free_list@;
        let idx = match found {
            Some(i) => i,
            None => {
                let ghost ts = self.tables();
                self.block_tables.push(SeqBlocks { seq_id, num_tokens: 0, blocks: Vec::new() });
                assert(self.tables() =~= ts.push(Seq::empty()));
                assert forall|b: usize| b < self.ref_counts@.len() implies #[trigger] self.ref_counts@[b as int]
                    == refs(self.tables(), b) by {
                    lemma_refs_push(ts, Seq::empty(), b);
                }
                assert forall|i: int, j: int|
                    0 <= i < self.ids().len() && 0 <= j < self.ids().len() && i != j implies #[trigger] self.ids()[i]
                    != #[trigger] self.ids()[j] by {
                    if i < old(self).ids().len() && j < old(self).ids().len() {
                        assert(self.ids()[i] == old(self).ids()[i]);
                        assert(self.ids()[j] == old(self).ids()[j]);
                    } else if i < old(self).ids().len() {
                        assert(self.ids()[i] == old(self).ids()[i]);
                    } else {
                        assert(self.ids()[j] == old(self).ids()[j]);
                    }
                }
                self.block_tables.len() - 1
            },
        };
        let ghost base_tables = self.tables();
        let ghost base_ids = self.ids();
        let ghost base_counts = self.token_counts();
        let ghost base_t = self.tables()[idx as int];
        assert(base_t.len() == have);
        assert(base_ids[idx as int] == seq_id);
        let mut k: usize = 0;
        while k < needed
            invariant
                self.pool_wf(),
                idx < self.block_tables@.len(),
                k <= needed,
                needed <= old_free.len(),
                self.free_list@ == old_free.subrange(0, old_free.len() - k),
                self.tables() == base_tables.update(idx as int, base_t + fresh_blocks(old_free, k as nat)),
                self.ids() == base_ids,
                self.token_counts() == base_counts,
                self.block_size == old(self).block_size,
                self.num_blocks() == old(self).num_blocks(),
                self.pending_copies@ == old(self).pending_copies@,
                base_tables.len() == base_ids.len(),
                0 <= idx < base_tables.len(),
                self.ref_counts@.len() == old(self).ref_counts@.len(),
                forall|b: usize|
                    b < old(self).num_blocks() ==> #[trigger] self.ref_counts@[b as int] == if fresh_blocks(
                        old_free,
                        k as nat,
                    ).contains(b) {
                        1
                    } else {
                        old(self).ref_counts@[b as int]
                    },
            decreases needed - k,
        {
            let b = self.push_free_block(idx);
            assert(b == old_free[old_free.len() - 1 - k]);
            assert(base_t + fresh_blocks(old_free, (k + 1) as nat) =~= (base_t + fresh_blocks(
                old_free,
                k as nat,
            )).push(b));
            assert(self.free_list@ =~= old_free.subrange(0, old_free.len() - (k + 1)));
            assert(fresh_blocks(old_free, (k + 1) as nat) =~= fresh_blocks(old_free, k as nat).push(b));
            proof {
                lemma_push_contains(fresh_blocks(old_free, k as nat), b);
            }
            assert(self.tables() =~= base_tables.update(
                idx as int,
                base_t + fresh_blocks(old_free, (k + 1) as nat),
            ));
            k = k + 1;
        }
        let mut t = self.block_tables.remove(idx);
        t.num_tokens = total;
        self.block_tables.insert(idx, t);
        assert(self.tables() =~= base_tables.update(idx as int, base_t + fresh_blocks(old_free, needed as nat)));
        assert(self.ids() =~= base_ids);
        assert(self.token_counts() =~= base_counts.update(idx as int, total));
        assert(self.pool_wf());
        assert(self.ids()[idx as int] == seq_id);
        assert(self.index_of(seq_id) == idx);
        assert(self.sized()) by {
            assert forall|i: int| 0 <= i < self.block_tables@.len() implies (#[trigger] self.block_tables@[i]).blocks@.len()
                == ceil_div(self.block_tables@[i].num_tokens as nat, self.block_size as nat) by {
                assert(self.tables()[i] == self.block_tables@[i].blocks@);
                assert(self.token_counts()[i] == self.block_tables@[i].num_tokens);
                if i != idx {
                    if i < old(self).block_tables@.len() {
                        assert(self.tables()[i] == old(self).tables()[i]);
                        assert(self.token_counts()[i] == old(self).token_counts()[i]);
                        assert(old(self).tables()[i] == old(self).block_tables@[i].blocks@);
                        assert(old(self).token_counts()[i] == old(self).block_tables@[i].num_tokens);
                    }
                } else {
                    assert(self.tables()[i].len() == have + needed);
                }
            }
        }
        assert forall|o: usize| o != seq_id implies (#[trigger] self.has_seq(o) == old(self).has_seq(o)
            && self.table_of(o) == old(self).table_of(o) && self.tokens_of(o) == old(self).tokens_of(o)) by {
            if old(self).has_seq(o) {
                let j = old(self).index_of(o);
                assert(self.ids()[j] == o);
            }
            if self.has_seq(o) {
                let j = self.index_of(o);
                assert(j != idx);
                assert(old(self).ids()[j] == o);
            }
        }
        Ok(())
    }

    /// Drops the table of `seq_id`: each of its blocks loses one reference, and
    /// those left with none go back to the free list. Returns whether a table
    /// was registered under `seq_id`.
    pub fn free(&mut self, seq_id: usize) -> (r: bool)
        requires
            old(self).wf(),
        ensures
            final(self).wf(),
            r == old(self).has_seq(seq_id),
            !final(self).has_seq(seq_id),
            final(self).others_kept(old(self), seq_id),
            final(self).block_size == old(self).block_size,
            final(self).num_blocks() == old(self).num_blocks(),
            final(self).pending_copies@ == old(self).pending_copies@,
            forall|b: usize|
                b < old(self).num_blocks() ==> #[trigger] final(self).ref_counts@[b as int]
                    == old(self).ref_counts@[b as int] - holds(old(self).table_of(seq_id), b),
            forall|b: usize|
                b < old(self).num_blocks() ==> (#[trigger] final(self).is_free(b) <==> (old(self).is_free(b) || (
                old(self).table_of(seq_id).contains(b) && old(self).ref_counts@[b as int] == 1))),
    {
        let i = match self.find(seq_id) {
            Some(i) => i,
            None => {
                return false;
            },
        };
        let ghost ts = self.tables();
        let ghost t0 = ts[i as int];
        let entry = self.block_tables.remove(i);
        let blocks = entry.blocks;
        assert(blocks@ == t0);
        let ghost nts = self.tables();
        assert(nts =~= ts.remove(i as int));
        let ghost n = self.ref_counts@.len();
        proof {
            assert forall|b: usize| b < n implies self.ref_counts@[b as int] == refs(nts, b) + holds(
                t0.subrange(0, t0.len() as int),
                b,
            ) by {
                lemma_refs_remove(ts, i as int, b);
                assert(t0.subrange(0, t0.len() as int) =~= t0);
            }
            assert forall|b: usize| b < n implies #[trigger] old(self).ref_counts@[b as int] == refs(nts, b)
                + holds(t0, b) by {
                lemma_refs_remove(ts, i as int, b);
            }
        }
        let mut k: usize = 0;
        while k < blocks.len()
            invariant
                self.block_size == old(self).block_size,
                self.ref_counts@.len() == n,
                self.tables() == nts,
                i < old(self).block_tables@.len(),
                self.block_tables@ == old(self).block_tables@.remove(i as int),
                self.pending_copies@ == old(self).pending_copies@,
                blocks@ == t0,
                t0.no_duplicates(),
                k <= t0.len(),
                forall|j: int| 0 <= j < t0.len() ==> #[trigger] t0[j] < n,
                self.free_list@.no_duplicates(),
                forall|j: int| 0 <= j < self.free_list@.len() ==> #[trigger] self.free_list@[j] < n,
                forall|b: usize|
                    b < n ==> #[trigger] self.ref_counts@[b as int] == refs(nts, b) + holds(
                        t0.subrange(k as int, t0.len() as int),
                        b,
                    ),
                forall|b: usize|
                    b < n ==> (#[trigger] self.ref_counts@[b as int] == 0 <==> self.free_list@.contains(b)),
                forall|b: usize|
                    b < n ==> (#[trigger] self.free_list@.contains(b) <==> (old(self).free_list@.contains(b) || (
                    t0.subrange(0, k as int).contains(b) && old(self).ref_counts@[b as int] == 1))),
                forall|b: usize|
                    b < n ==> #[trigger] old(self).ref_counts@[b as int] == refs(nts, b) + holds(t0, b),
            decreases t0.len() - k,
        {
            let b = blocks[k];
            proof {
                lemma_holds_step(t0, k as int, b);
                assert(t0.subrange(k as int, t0.len() as int).contains(b)) by {
                    assert(t0.subrange(k as int, t0.len() as int)[0] == b);
                }
            }
            let c = self.ref_counts[b];
            self.ref_counts.set(b, c - 1);
            if c == 1 {
                proof {
                    lemma_push_contains(self.free_list@, b);
                }
                self.free_list.push(b);
            }
            proof {
                assert forall|x: usize| x < n implies #[trigger] self.ref_counts@[x as int] == refs(nts, x)
                    + holds(t0.subrange((k + 1) as int, t0.len() as int), x) by {
                    lemma_holds_step(t0, k as int, x);
                }
                assert forall|x: usize| x < n implies (#[trigger] self.free_list@.contains(x) <==> (old(
                    self,
                ).free_list@.contains(x) || (t0.subrange(0, (k + 1) as int).contains(x) && old(
                    self,
                ).ref_counts@[x as int] == 1))) by {
                    let done = t0.subrange(0, k as int);
                    assert(t0.subrange(0, (k + 1) as int) =~= done.push(b));
                    lemma_push_contains(done, b);
                    if x == b {
                        assert(holds(t0, b) == 1) by {
                            assert(t0[k as int] == b);
                        }
                        if done.contains(b) {
                            let j = done.index_of(b);
                            assert(t0[j] == b);
                        }
                    }
                    if c == 1 {
                        lemma_push_contains(old(self).free_list@, b);
                    }
                }
            }
            k = k + 1;
        }
        proof {
            assert(t0.subrange(k as int, t0.len() as int) =~= Seq::<usize>::empty());
            assert(t0.subrange(0, k as int) =~= t0);
            assert forall|i2: int, j2: int|
                0 <= i2 < self.ids().len() && 0 <= j2 < self.ids().len() && i2 != j2 implies #[trigger] self.ids()[i2]
                != #[trigger] self.ids()[j2] by {
                let a = if i2 < i { i2 } else { i2 + 1 };
                let c = if j2 < i { j2 } else { j2 + 1 };
                assert(self.ids()[i2] == old(self).ids()[a]);
                assert(self.ids()[j2] == old(self).ids()[c]);
            }
            assert forall|i2: int, j2: int|
                0 <= i2 < self.tables().len() && 0 <= j2 < self.tables()[i2].len() implies #[trigger] self.tables()[i2][j2]
                < self.ref_counts@.len() by {
                let a = if i2 < i { i2 } else { i2 + 1 };
                assert(self.tables()[i2] == ts[a]);
            }
            assert forall|i2: int| 0 <= i2 < self.tables().len() implies #[trigger] self.tables()[i2].no_duplicates() by {
                let a = if i2 < i { i2 } else { i2 + 1 };
                assert(self.tables()[i2] == ts[a]);
            }
            assert(self.sized()) by {
                assert forall|i2: int| 0 <= i2 < self.block_tables@.len() implies (#[trigger] self.block_tables@[i2]).blocks@.len()
                    == ceil_div(self.block_tables@[i2].num_tokens as nat, self.block_size as nat) by {
                    let a = if i2 < i { i2 } else { i2 + 1 };
                    assert(self.block_tables@[i2] == old(self).block_tables@[a]);
                }
            }
            assert(old(self).index_of(seq_id) == i);
            assert(!self.has_seq(seq_id)) by {
                if self.has_seq(seq_id) {
                    let j = self.ids().index_of(seq_id);
                    let a = if j < i { j } else { j + 1 };
                    assert(old(self).ids()[a] == seq_id);
                }
            }
            assert forall|o: usize| o != seq_id implies (#[trigger] self.has_seq(o) == old(self).has_seq(o)
                && self.table_of(o) == old(self).table_of(o) && self.tokens_of(o) == old(self).tokens_of(o)) by {
                if old(self).has_seq(o) {
                    let j = old(self).index_of(o);
                    assert(j != i);
                    let a = if j < i { j } else { j - 1 };
                    assert(self.ids()[a] == o);
                    assert(self.index_of(o) == a);
                }
                if self.has_seq(o) {
                    let j = self.index_of(o);
                    let a = if j < i { j } else { j + 1 };
                    assert(old(self).ids()[a] == o);
                }
            }
        }
        true
    }

    /// Registers `child` with the same block table and token count as
    /// `parent`: both share every block, whose counts gain one. No data moves.
    pub fn fork(&mut self, parent: usize, child: usize) -> (r: Result<(), AllocError>)
        requires
            old(self).wf(),
        ensures
            final(self).wf(),
            !old(self).has_seq(parent) ==> r == Err::<(), AllocError>(AllocError::UnknownSequence),
            old(self).has_seq(parent) && old(self).has_seq(child) ==> r == Err::<(), AllocError>(
                AllocError::SequenceExists,
            ),
            r == Err::<(), AllocError>(AllocError::TooManyReferences) <==> (old(self).has_seq(parent)
                && !old(self).has_seq(child) && exists|k: int|
                0 <= k < old(self).table_of(parent).len() && old(self).ref_counts@[old(self).table_of(
                    parent,
                )[k] as int] == usize::MAX),
            r is Ok <==> (old(self).has_seq(parent) && !old(self).has_seq(child) && forall|k: int|
                0 <= k < old(self).table_of(parent).len() ==> old(self).ref_counts@[old(self).table_of(
                    parent,
                )[k] as int] < usize::MAX),
            r is Err ==> *final(self) == *old(self),
            r is Ok ==> {
                &&& final(self).has_seq(child)
                &&& final(self).table_of(child) == old(self).table_of(parent)
                &&& final(self).tokens_of(child) == old(self).tokens_of(parent)
                &&& final(self).others_kept(old(self), child)
                &&& final(self).free_list@ == old(self).free_list@
                &&& final(self).block_size == old(self).block_size
                &&& final(self).num_blocks() == old(self).num_blocks()
                &&& final(self).pending_copies@ == old(self).pending_copies@
                &&& forall|b: usize|
                    b < old(self).num_blocks() ==> #[trigger] final(self).ref_counts@[b as int]
                        == old(self).ref_counts@[b as int] + holds(old(self).table_of(parent), b)
            },
    {
        let pi = match self.find(parent) {
            Some(i) => i,
            None => {
                return Err(AllocError::UnknownSequence);
            },
        };
        if self.find(child).is_some() {
            return Err(AllocError::SequenceExists);
        }
        let ghost t0 = self.tables()[pi as int];
        let mut j: usize = 0;
        while j < self.block_tables[pi].blocks.len()
            invariant
                pi < self.block_tables@.len(),
                self.block_tables@[pi as int].blocks@ == t0,
                self.tables()[pi as int] == t0,
                *self == *old(self),
                self.wf(),
                old(self).has_seq(parent),
                !old(self).has_seq(child),
                pi == old(self).index_of(parent),
                t0 == old(self).table_of(parent),
                j <= t0.len(),
                forall|k: int| 0 <= k < j ==> self.ref_counts@[#[trigger] t0[k] as int] < usize::MAX,
                self.pool_wf(),
            decreases t0.len() - j,
        {
            assert(t0[j as int] < self.ref_counts@.len());
            if self.ref_counts[self.block_tables[pi].blocks[j]] == usize::MAX {
                return Err(AllocError::TooManyReferences);
            }
            j = j + 1;
        }
        let blocks = self.block_tables[pi].blocks.clone();
        assert(blocks@ =~= t0);
        let tokens = self.block_tables[pi].num_tokens;
        let ghost ts = self.tables();
        let ghost n = self.ref_counts@.len();
        self.block_tables.push(SeqBlocks { seq_id: child, num_tokens: tokens, blocks });
        let ghost nts = self.tables();
        assert(nts =~= ts.push(t0));
        assert forall|b: usize| b < n implies #[trigger] old(self).ref_counts@[b as int] + holds(t0, b) == refs(
            nts,
            b,
        ) by {
            lemma_refs_push(ts, t0, b);
        }
        assert(t0.subrange(0, t0.len() as int) =~= t0);
        let mut k: usize = 0;
        while k < self.block_tables[pi].blocks.len()
            invariant
                self.block_size == old(self).block_size,
                self.ref_counts@.len() == n,
                self.tables() == nts,
                self.block_tables@ == old(self).block_tables@.push(
                    SeqBlocks { seq_id: child, num_tokens: tokens, blocks },
                ),
                pi < old(self).block_tables@.len(),
                self.free_list@ == old(self).free_list@,
                self.pending_copies@ == old(self).pending_copies@,
                t0 == nts[pi as int],
                pi < ts.len(),
                ts[pi as int] == t0,
                ts == old(self).tables(),
                old(self).ref_counts@.len() == n,
                old(self).wf(),
                t0.no_duplicates(),
                k <= t0.len(),
                forall|q: int| k <= q < t0.len() ==> self.ref_counts@[#[trigger] t0[q] as int] < usize::MAX,
                forall|q: int| 0 <= q < t0.len() ==> #[trigger] t0[q] < n,
                forall|b: usize|
                    b < n ==> #[trigger] self.ref_counts@[b as int] + holds(
                        t0.subrange(k as int, t0.len() as int),
                        b,
                    ) == refs(nts, b),
                forall|b: usize|
                    b < n ==> #[trigger] old(self).ref_counts@[b as int] + holds(t0, b) == refs(nts, b),
                forall|b: usize| b < n ==> (#[trigger] self.ref_counts@[b as int] == 0 <==> old(self).ref_counts@[b as int] == 0),
                forall|b: usize|
                    b < n ==> #[trigger] self.ref_counts@[b as int] == old(self).ref_counts@[b as int] + holds(
                        t0.subrange(0, k as int),
                        b,
                    ),
            decreases t0.len() - k,
        {
            let b = self.block_tables[pi].blocks[k];
            assert(b == t0[k as int]);
            let c = self.ref_counts[b];
            let ghost prev = self.ref_counts@;
            self.ref_counts.set(b, c + 1);
            proof {
                assert forall|x: usize| x < n implies #[trigger] self.ref_counts@[x as int] + holds(
                    t0.subrange((k + 1) as int, t0.len() as int),
                    x,
                ) == refs(nts, x) by {
                    lemma_holds_step(t0, k as int, x);
                }
                assert forall|x: usize| x < n implies #[trigger] self.ref_counts@[x as int] == old(
                    self,
                ).ref_counts@[x as int] + holds(t0.subrange(0, (k + 1) as int), x) by {
                    let done = t0.subrange(0, k as int);
                    assert(t0.subrange(0, (k + 1) as int) =~= done.push(b));
                    lemma_push_contains(done, b);
                    if x == b && done.contains(b) {
                        let q = done.index_of(b);
                        assert(t0[q] == b);
                    }
                }
                assert forall|q: int| (k + 1) <= q < t0.len() implies self.ref_counts@[#[trigger] t0[q] as int]
                    < usize::MAX by {
                    assert(t0[q] != b);
                }
                assert forall|x: usize| x < n implies (#[trigger] self.ref_counts@[x as int] == 0 <==> old(self).ref_counts@[x as int] == 0) by {
                    if x == b {
                        assert(t0.contains(b)) by { assert(t0[k as int] == b); }
                        assert(ts[pi as int] == t0);
                        lemma_refs_member(ts, pi as int, b);
                        assert(old(self).ref_counts@.len() == n);
                        assert(old(self).ref_counts@[b as int] == refs(ts, b));
                    } else {
                        assert(self.ref_counts@[x as int] == prev[x as int]);
                    }
                }
            }
            k = k + 1;
        }
        proof {
            assert(t0.subrange(k as int, t0.len() as int) =~= Seq::<usize>::empty());
            assert(t0.subrange(0, k as int) =~= t0);
            let ol = old(self).block_tables@.len() as int;
            assert(self.ids() =~= old(self).ids().push(child));
            assert forall|a: int, c: int|
                0 <= a < self.ids().len() && 0 <= c < self.ids().len() && a != c implies #[trigger] self.ids()[a]
                != #[trigger] self.ids()[c] by {
                if a < ol && c < ol {
                    assert(self.ids()[a] == old(self).ids()[a]);
                    assert(self.ids()[c] == old(self).ids()[c]);
                } else if a < ol {
                    assert(self.ids()[a] == old(self).ids()[a]);
                } else {
                    assert(self.ids()[c] == old(self).ids()[c]);
                }
            }
            assert forall|a: int, c: int|
                0 <= a < self.tables().len() && 0 <= c < self.tables()[a].len() implies #[trigger] self.tables()[a][c]
                < self.ref_counts@.len() by {
                if a == ol {
                    assert(self.tables()[a] == t0);
                } else {
                    assert(self.tables()[a] == old(self).tables()[a]);
                }
            }
            assert forall|a: int| 0 <= a < self.tables().len() implies #[trigger] self.tables()[a].no_duplicates() by {
                if a == ol {
                    assert(self.tables()[a] == t0);
                } else {
                    assert(self.tables()[a] == old(self).tables()[a]);
                }
            }
            assert(self.sized()) by {
                assert forall|a: int| 0 <= a < self.block_tables@.len() implies (#[trigger] self.block_tables@[a]).blocks@.len()
                    == ceil_div(self.block_tables@[a].num_tokens as nat, self.block_size as nat) by {
                    if a == ol {
                        assert(old(self).block_tables@[pi as int].blocks@.len() == ceil_div(
                            old(self).block_tables@[pi as int].num_tokens as nat,
                            self.block_size as nat,
                        ));
                    } else {
                        assert(self.block_tables@[a] == old(self).block_tables@[a]);
                    }
                }
            }
            assert(self.ids()[ol] == child);
            assert(self.index_of(child) == ol);
            assert(old(self).index_of(parent) == pi);
            assert forall|o: usize| o != child implies (#[trigger] self.has_seq(o) == old(self).has_seq(o)
                && self.table_of(o) == old(self).table_of(o) && self.tokens_of(o) == old(self).tokens_of(o)) by {
                if old(self).has_seq(o) {
                    let a = old(self).index_of(o);
                    assert(self.ids()[a] == o);
                    assert(self.index_of(o) == a);
                }
                if self.has_seq(o) {
                    let a = self.index_of(o);
                    assert(a != ol);
                    assert(old(self).ids()[a] == o);
                }
            }
        }
        Ok(())
    }

    /// Makes entry `index` of the table of `seq_id` exclusive before it is
    /// written: a block shared with other tables is replaced by a fresh one,
    /// the copy of its contents is scheduled, and the old block loses one
    /// reference. Returns the block now at `index`.
    pub fn write_before_mutate(&mut self, seq_id: usize, index: usize) -> (r: Result<usize, AllocError>)
        requires
            old(self).wf(),
            old(self).has_seq(seq_id) ==> index < old(self).table_of(seq_id).len(),
        ensures
            final(self).wf(),
            ({
                let t = old(self).table_of(seq_id);
                let b = t[index as int];
                if !old(self).has_seq(seq_id) {
                    r == Err::<usize, AllocError>(AllocError::UnknownSequence) && *final(self) == *old(self)
                } else if old(self).ref_counts@[b as int] == 1 {
                    r == Ok::<usize, AllocError>(b) && *final(self) == *old(self)
                } else if old(self).free_list@.len() == 0 {
                    r == Err::<usize, AllocError>(AllocError::OutOfMemory) && *final(self) == *old(self)
                } else {
                    let nb = old(self).free_list@.last();
                    &&& r == Ok::<usize, AllocError>(nb)
                    &&& final(self).has_seq(seq_id)
                    &&& final(self).table_of(seq_id) == t.update(index as int, nb)
                    &&& final(self).tokens_of(seq_id) == old(self).tokens_of(seq_id)
                    &&& final(self).others_kept(old(self), seq_id)
                    &&& final(self).free_list@ == old(self).free_list@.drop_last()
                    &&& final(self).ref_counts@ == old(self).ref_counts@.update(b as int, (
                    old(self).ref_counts@[b as int] - 1) as usize).update(nb as int, 1)
                    &&& final(self).pending_copies@ == old(self).pending_copies@.push((b, nb))
                    &&& final(self).block_size == old(self).block_size
                }
            }),
            r matches Ok(w) ==> final(self).ref_counts@[w as int] == 1 && final(self).has_seq(seq_id)
                && final(self).table_of(seq_id)[index as int] == w && w < final(self).num_blocks(),
    {
        let i = match self.find(seq_id) {
            Some(i) => i,
            None => {
                return Err(AllocError::UnknownSequence);
            },
        };
        let ghost ts = self.tables();
        let ghost t = ts[i as int];
        assert(self.index_of(seq_id) == i);
        let b = self.block_tables[i].blocks[index];
        assert(b == t[index as int]);
        assert(b < self.ref_counts@.len());
        let c = self.ref_counts[b];
        if c == 1 {
            return Ok(b);
        }
        if self.free_list.len() == 0 {
            return Err(AllocError::OutOfMemory);
        }
        proof {
            assert(t.contains(b)) by {
                assert(t[index as int] == b);
            }
            lemma_refs_member(ts, i as int, b);
        }
        let nb = self.free_list.pop().unwrap();
        assert(old(self).free_list@[old(self).free_list@.len() - 1] == nb);
        assert(self.ref_counts@[nb as int] == 0);
        proof {
            lemma_refs_zero(ts, nb);
        }
        assert(nb != b);
        let mut e = self.block_tables.remove(i);
        e.blocks.set(index, nb);
        self.block_tables.insert(i, e);
        self.ref_counts.set(b, c - 1);
        self.ref_counts.set(nb, 1);
        self.pending_copies.push((b, nb));
        let ghost nt = t.update(index as int, nb);
        assert(self.tables() =~= ts.update(i as int, nt));
        assert(self.ids() =~= old(self).ids());
        assert(self.token_counts() =~= old(self).token_counts());
        proof {
            assert(t.no_duplicates());
            assert(!t.contains(nb)) by {
                assert(!ts[i as int].contains(nb));
            }
            assert forall|x: usize| #[trigger] nt.contains(x) <==> (x == nb || (t.contains(x) && x != b)) by {
                if nt.contains(x) {
                    let k = nt.index_of(x);
                    if k != index {
                        assert(t[k] == x);
                    }
                }
                if x == nb {
                    assert(nt[index as int] == nb);
                }
                if t.contains(x) && x != b {
                    let k = t.index_of(x);
                    assert(k != index);
                    assert(nt[k] == x);
                }
            }
            assert(nt.no_duplicates()) by {
                assert forall|p: int, q: int| 0 <= p < nt.len() && 0 <= q < nt.len() && p != q implies nt[p] != nt[q] by {
                    if p == index {
                        assert(t.contains(nt[q])) by { assert(t[q] == nt[q]); }
                    } else if q == index {
                        assert(t.contains(nt[p])) by { assert(t[p] == nt[p]); }
                    }
                }
            }
            assert forall|x: usize| x < self.ref_counts@.len() implies #[trigger] self.ref_counts@[x as int]
                == refs(self.tables(), x) by {
                lemma_refs_update(ts, i as int, nt, x);
            }
            assert forall|x: usize| x < self.ref_counts@.len() implies (#[trigger] self.ref_counts@[x as int]
                == 0 <==> self.free_list@.contains(x)) by {
                if x != nb {
                    if old(self).free_list@.contains(x) {
                        let k = old(self).free_list@.index_of(x);
                        assert(k != old(self).free_list@.len() - 1);
                        assert(self.free_list@[k] == x);
                    }
                } else {
                    assert(!self.free_list@.contains(nb));
                }
            }
            assert forall|a: int, k: int|
                0 <= a < self.tables().len() && 0 <= k < self.tables()[a].len() implies #[trigger] self.tables()[a][k]
                < self.ref_counts@.len() by {
                if a == i && k != index {
                    assert(self.tables()[a][k] == t[k]);
                } else if a != i {
                    assert(self.tables()[a] == ts[a]);
                }
            }
            assert(self.sized()) by {
                assert forall|a: int| 0 <= a < self.block_tables@.len() implies (#[trigger] self.block_tables@[a]).blocks@.len()
                    == ceil_div(self.block_tables@[a].num_tokens as nat, self.block_size as nat) by {
                    assert(self.tables()[a] == self.block_tables@[a].blocks@);
                    assert(old(self).tables()[a] == old(self).block_tables@[a].blocks@);
                    assert(self.token_counts()[a] == self.block_tables@[a].num_tokens);
                    assert(old(self).token_counts()[a] == old(self).block_tables@[a].num_tokens);
                }
            }
            assert(self.pool_wf());
            assert(self.index_of(seq_id) == i);
            assert(self.ref_counts@ =~= old(self).ref_counts@.update(b as int, (c - 1) as usize).update(nb as int, 1));
        }
        Ok(nb)
    }

    /// Sets the token count of table `i`, which already has the blocks for it.
    fn set_token_count(&mut self, i: usize, n: usize)
        requires
            old(self).wf(),
            i < old(self).block_tables@.len(),
            old(self).tables()[i as int].len() == ceil_div(n as nat, old(self).block_size as nat),
        ensures
            final(self).wf(),
            final(self).tables() == old(self).tables(),
            final(self).ids() == old(self).ids(),
            final(self).token_counts() == old(self).token_counts().update(i as int, n),
            final(self).ref_counts@ == old(self).ref_counts@,
            final(self).free_list@ == old(self).free_list@,
            final(self).pending_copies@ == old(self).pending_copies@,
            final(self).block_size == old(self).block_size,
    {
        let mut e = self.block_tables.remove(i);
        e.num_tokens = n;
        self.block_tables.insert(i, e);
        assert(self.tables() =~= old(self).tables());
        assert(self.ids() =~= old(self).ids());
        assert(self.token_counts() =~= old(self).token_counts().update(i as int, n));
        assert(self.sized()) by {
            assert forall|a: int| 0 <= a < self.block_tables@.len() implies (#[trigger] self.block_tables@[a]).blocks@.len()
                == ceil_div(self.block_tables@[a].num_tokens as nat, self.block_size as nat) by {
                assert(self.tables()[a] == self.block_tables@[a].blocks@);
                assert(old(self).tables()[a] == old(self).block_tables@[a].blocks@);
                assert(self.token_counts()[a] == self.block_tables@[a].num_tokens);
                assert(old(self).token_counts()[a] == old(self).block_tables@[a].num_tokens);
            }
        }
    }

    /// Whether new positions for `id` would land in a partly filled last
    /// block that other tables share, which must then be copied first.
    pub open spec fn grow_needs_copy(&self, id: usize, n: nat) -> bool {
        let t = self.tokens_of(id);
        let tb = self.table_of(id);
        &&& self.has_seq(id)
        &&& n > 0
        &&& t % (self.block_size as nat) != 0
        &&& self.ref_counts@[tb[tb.len() - 1] as int] > 1
    }

    /// The table of `id` once its shared last block, if it needs one, has
    /// been replaced by the last free block.
    pub open spec fn table_after_copy(&self, id: usize, n: nat) -> Seq<usize> {
        let tb = self.table_of(id);
        if self.grow_needs_copy(id, n) {
            tb.update(tb.len() - 1, self.free_list@.last())
        } else {
            tb
        }
    }

    /// The free list once a needed copy has taken its block.
    pub open spec fn free_after_copy(&self, id: usize, n: nat) -> Seq<usize> {
        if self.grow_needs_copy(id, n) {
            self.free_list@.drop_last()
        } else {
            self.free_list@
        }
    }

    /// Grows the table of `seq_id` (registering it when new) so that it covers
    /// `n_new_slots` more positions, taking the blocks from the free list;
    /// fails with `OutOfMemory`, changing nothing, when the free list is too
    /// short. When the new positions start in a partly filled last block
    /// shared with other tables, that block is copied first (see
    /// `write_before_mutate`), so no other table sees the writes.
    pub fn allocate_for(&mut self, seq_id: usize, n_new_slots: usize) -> (r: Result<(), AllocError>)
        requires
            old(self).wf(),
            old(self).tokens_of(seq_id) + n_new_slots <= usize::MAX,
        ensures
            final(self).wf(),
            r is Err <==> old(self).free_list@.len() < old(self).blocks_to_add(seq_id, n_new_slots as nat) + if old(
                self,
            ).grow_needs_copy(seq_id, n_new_slots as nat) {
                1int
            } else {
                0int
            },
            r is Err ==> r == Err::<(), AllocError>(AllocError::OutOfMemory) && *final(self) == *old(self),
            r is Ok ==> {
                let k = old(self).blocks_to_add(seq_id, n_new_slots as nat);
                let free = old(self).free_after_copy(seq_id, n_new_slots as nat);
                &&& k >= 0
                &&& final(self).has_seq(seq_id)
                &&& final(self).tokens_of(seq_id) == old(self).tokens_of(seq_id) + n_new_slots
                &&& final(self).table_of(seq_id) == old(self).table_after_copy(seq_id, n_new_slots as nat)
                    + fresh_blocks(free, k as nat)
                &&& final(self).free_list@ == free.subrange(0, free.len() - k)
                &&& final(self).others_kept(old(self), seq_id)
                &&& final(self).block_size == old(self).block_size
                &&& final(self).num_blocks() == old(self).num_blocks()
            },
    {
        let ghost k = self.blocks_to_add(seq_id, n_new_slots as nat);
        if let Some(i) = self.find(seq_id) {
            let t = self.block_tables[i].num_tokens;
            let len = self.block_tables[i].blocks.len();
            assert(self.index_of(seq_id) == i);
            if n_new_slots > 0 && t % self.block_size != 0 {
                proof {
                    lemma_ceil_succ(t as nat, self.block_size as nat);
                    assert(len == self.tables()[i as int].len());
                }
                let last = self.block_tables[i].blocks[len - 1];
                assert(last == self.table_of(seq_id)[len - 1]);
                assert(last < self.ref_counts@.len());
                proof {
                    lemma_ceil_mono(t as nat, (t + n_new_slots) as nat, self.block_size as nat);
                    assert(self.block_tables@[i as int].blocks@.len() == ceil_div(t as nat, self.block_size as nat));
                }
                if self.ref_counts[last] > 1 {
                    if self.free_list.len() == 0 {
                        return Err(AllocError::OutOfMemory);
                    }
                    let need = blocks_for(t + n_new_slots, self.block_size) - len;
                    if self.free_list.len() - 1 < need {
                        return Err(AllocError::OutOfMemory);
                    }
                    let _ = self.write_before_mutate(seq_id, len - 1);
                }
            }
        }
        self.grow(seq_id, n_new_slots)
    }

    /// Whether appending one position to `id` needs a block from the free
    /// list: the last block is full, or it is shared and must be copied.
    pub open spec fn append_needs_block(&self, id: usize) -> bool {
        let t = self.tokens_of(id);
        t % (self.block_size as nat) == 0 || self.ref_counts@[self.table_of(id)[(t / (
        self.block_size as nat)) as int] as int] > 1
    }

    /// The table of `id` after one position is appended to it.
    pub open spec fn appended_table(&self, id: usize) -> Seq<usize> {
        let t = self.tokens_of(id);
        let tb = self.table_of(id);
        let k = (t / (self.block_size as nat)) as int;
        if t % (self.block_size as nat) == 0 {
            tb.push(self.free_list@.last())
        } else if self.ref_counts@[tb[k] as int] == 1 {
            tb
        } else {
            tb.update(k, self.free_list@.last())
        }
    }

    /// `self` is `old` after one position was appended to `id`, written to
    /// physical slot `slot`.
    pub open spec fn appended(&self, old: &Self, id: usize, slot: usize) -> bool {
        let t = old.tokens_of(id);
        let bs = old.block_size as nat;
        let w = self.table_of(id)[(t / bs) as int];
        &&& old.has_seq(id)
        &&& self.has_seq(id)
        &&& self.tokens_of(id) == t + 1
        &&& self.table_of(id) == old.appended_table(id)
        &&& (t / bs) < self.table_of(id).len()
        &&& slot == w * bs + t % bs
        &&& self.ref_counts@[w as int] == 1
        &&& self.others_kept(old, id)
        &&& self.block_size == old.block_size
        &&& self.num_blocks() == old.num_blocks()
    }

    /// Appends one position to sequence `seq_id` and returns the physical slot
    /// that the new token is written to. A full last block gets a successor
    /// from the free list; a shared last block is first copied (see
    /// `write_before_mutate`), so no other table sees the write.
    pub fn append_token(&mut self, seq_id: usize) -> (r: Result<usize, AllocError>)
        requires
            old(self).wf(),
            old(self).tokens_of(seq_id) < usize::MAX,
        ensures
            final(self).wf(),
            !old(self).has_seq(seq_id) ==> r == Err::<usize, AllocError>(AllocError::UnknownSequence),
            old(self).has_seq(seq_id) ==> (r == Err::<usize, AllocError>(AllocError::OutOfMemory) <==> (
            old(self).append_needs_block(seq_id) && old(self).free_list@.len() == 0)),
            old(self).has_seq(seq_id) && !(old(self).append_needs_block(seq_id) && old(self).free_list@.len() == 0)
                ==> r is Ok,
            r is Err ==> *final(self) == *old(self),
            r matches Ok(slot) ==> final(self).appended(old(self), seq_id, slot),
    {
        let i = match self.find(seq_id) {
            Some(i) => i,
            None => {
                return Err(AllocError::UnknownSequence);
            },
        };
        let t = self.block_tables[i].num_tokens;
        let bs = self.block_size;
        let ghost tb = self.tables()[i as int];
        assert(self.index_of(seq_id) == i);
        assert(tb == self.block_tables@[i as int].blocks@);
        proof {
            lemma_ceil_succ(t as nat, bs as nat);
        }
        if t % bs == 0 {
            if self.free_list.len() == 0 {
                return Err(AllocError::OutOfMemory);
            }
            match self.grow(seq_id, 1) {
                Ok(()) => {},
                Err(e) => {
                    return Err(e);
                },
            }
            assert(fresh_blocks(old(self).free_list@, 1) =~= seq![old(self).free_list@.last()]);
            assert(tb + seq![old(self).free_list@.last()] =~= tb.push(old(self).free_list@.last()));
        } else {
            let k = t / bs;
            assert(k < tb.len());
            match self.write_before_mutate(seq_id, k) {
                Ok(_) => {},
                Err(e) => {
                    return Err(e);
                },
            }
            let j = self.find(seq_id).unwrap();
            let ghost s1 = *self;
            self.set_token_count(j, t + 1);
            proof {
                let o = self.index_of(seq_id);
                assert(o == j);
                assert forall|x: usize| x != seq_id implies (#[trigger] self.has_seq(x) == old(self).has_seq(x)
                    && self.table_of(x) == old(self).table_of(x) && self.tokens_of(x) == old(self).tokens_of(x)) by {
                    assert(s1.has_seq(x) == old(self).has_seq(x));
                    assert(self.has_seq(x) == s1.has_seq(x));
                    if self.has_seq(x) {
                        assert(self.index_of(x) == s1.index_of(x));
                        assert(self.index_of(x) != j);
                    }
                }
                assert(self.table_of(seq_id) == s1.table_of(seq_id));
            }
        }
        let j = self.find(seq_id).unwrap();
        let w = self.block_tables[j].blocks[t / bs];
        proof {
            assert(self.tables()[j as int][(t / bs) as int] == w);
            assert(w < self.ref_counts@.len());
            lemma_slot_bound(w as nat, (t % bs) as nat, self.ref_counts@.len(), bs as nat);
        }
        Ok(w * bs + t % bs)
    }
}

/// Moves the table of `seq_id` from pool `from` to pool `to`: the sequence gets
/// fresh blocks in `to` for all of its positions and releases its blocks in
/// `from`. Returns, for each entry of the table, the pair (old block, new
/// block) whose contents the caller copies.
fn move_table(from: &mut BlockEngine, to: &mut BlockEngine, seq_id: usize) -> (r: Result<
    Vec<(usize, usize)>,
    AllocError,
>)
    requires
        old(from).wf(),
        old(to).wf(),
        old(from).block_size == old(to).block_size,
    ensures
        final(from).wf(),
        final(to).wf(),
        moved(old(from), old(to), final(from), final(to), seq_id, r),
{
    let i = match from.find(seq_id) {
        Some(i) => i,
        None => {
            return Err(AllocError::UnknownSequence);
        },
    };
    if to.find(seq_id).is_some() {
        return Err(AllocError::SequenceExists);
    }
    let tokens = from.block_tables[i].num_tokens;
    assert(from.index_of(seq_id) == i);
    match to.grow(seq_id, tokens) {
        Ok(()) => {},
        Err(e) => {
            return Err(e);
        },
    }
    let j = to.find(seq_id).unwrap();
    let ghost src = from.table_of(seq_id);
    let ghost dst = to.table_of(seq_id);
    assert(src.len() == dst.len());
    let mut pairs: Vec<(usize, usize)> = Vec::new();
    let mut k: usize = 0;
    while k < from.block_tables[i].blocks.len()
        invariant
            i < from.block_tables@.len(),
            j < to.block_tables@.len(),
            from.block_tables@[i as int].blocks@ == src,
            to.block_tables@[j as int].blocks@ == dst,
            src.len() == dst.len(),
            k <= src.len(),
            pairs@.len() == k,
            forall|q: int| 0 <= q < k ==> #[trigger] pairs@[q] == (src[q], dst[q]),
        decreases src.len() - k,
    {
        pairs.push((from.block_tables[i].blocks[k], to.block_tables[j].blocks[k]));
        k = k + 1;
    }
    from.free(seq_id);
    Ok(pairs)
}

/// `from2` and `to2` are `from` and `to` after `move_table` of `id` returned `r`.
pub open spec fn moved(
    from: &BlockEngine,
    to: &BlockEngine,
    from2: &BlockEngine,
    to2: &BlockEngine,
    id: usize,
    r: Result<Vec<(usize, usize)>, AllocError>,
) -> bool {
    let n = ceil_div(from.tokens_of(id), from.block_size as nat);
    &&& !from.has_seq(id) ==> r == Err::<Vec<(usize, usize)>, AllocError>(AllocError::UnknownSequence)
    &&& from.has_seq(id) && to.has_seq(id) ==> r == Err::<Vec<(usize, usize)>, AllocError>(
        AllocError::SequenceExists,
    )
    &&& from.has_seq(id) && !to.has_seq(id) ==> (r == Err::<Vec<(usize, usize)>, AllocError>(
        AllocError::OutOfMemory,
    ) <==> to.free_list@.len() < n)
    &&& from.has_seq(id) && !to.has_seq(id) && to.free_list@.len() >= n ==> r is Ok
    &&& r is Err ==> *from2 == *from && *to2 == *to
    &&& r matches Ok(pairs) ==> {
        &&& !from2.has_seq(id)
        &&& from2.others_kept(from, id)
        &&& to2.has_seq(id)
        &&& to2.others_kept(to, id)
        &&& to2.tokens_of(id) == from.tokens_of(id)
        &&& to2.table_of(id) == fresh_blocks(to.free_list@, n)
        &&& to2.free_list@ == to.free_list@.subrange(0, to.free_list@.len() - n)
        &&& pairs@.len() == n
        &&& forall|q: int|
            0 <= q < n ==> #[trigger] pairs@[q] == (from.table_of(id)[q], to2.table_of(id)[q])
        &&& forall|b: usize|
            b < from.num_blocks() ==> (#[trigger] from2.is_free(b) <==> (from.is_free(b) || (
            from.table_of(id).contains(b) && from.ref_counts@[b as int] == 1)))
    }
}

impl BlockEngine {
    /// Evicts sequence `seq_id` to the host pool `host`, keeping its data:
    /// see `move_table`. The device blocks it held alone become free.
    pub fn swap_out(&mut self, host: &mut BlockEngine, seq_id: usize) -> (r: Result<
        Vec<(usize, usize)>,
        AllocError,
    >)
        requires
            old(self).wf(),
            old(host).wf(),
            old(self).block_size == old(host).block_size,
        ensures
            final(self).wf(),
            final(host).wf(),
            moved(old(self), old(host), final(self), final(host), seq_id, r),
    {
        move_table(self, host, seq_id)
    }

    /// Brings sequence `seq_id` back from the host pool `host` into free
    /// blocks of this pool, which may differ from those it had before.
    pub fn swap_in(&mut self, host: &mut BlockEngine, seq_id: usize) -> (r: Result<
        Vec<(usize, usize)>,
        AllocError,
    >)
        requires
            old(self).wf(),
            old(host).wf(),
            old(self).block_size == old(host).block_size,
        ensures
            final(self).wf(),
            final(host).wf(),
            moved(old(host), old(self), final(host), final(self), seq_id, r),
    {
        move_table(host, self, seq_id)
    }

    /// A copy of the block table of `seq_id`, if it has one.
    pub fn block_table(&self, seq_id: usize) -> (r: Option<Vec<usize>>)
        requires
            self.wf(),
        ensures
            r is None <==> !self.has_seq(seq_id),
            r matches Some(v) ==> v@ == self.table_of(seq_id),
    {
        match self.find(seq_id) {
            Some(i) => {
                let v = self.block_tables[i].blocks.clone();
                assert(v@ =~= self.table_of(seq_id));
                Some(v)
            },
            None => None,
        }
    }

    /// Number of positions held by `seq_id`, if it has a table.
    pub fn num_tokens(&self, seq_id: usize) -> (r: Option<usize>)
        requires
            self.wf(),
        ensures
            r is None <==> !self.has_seq(seq_id),
            r matches Some(n) ==> n == self.tokens_of(seq_id),
    {
        match self.find(seq_id) {
            Some(i) => Some(self.block_tables[i].num_tokens),
            None => None,
        }
    }

    /// Number of blocks on the free list.
    pub fn num_free_blocks(&self) -> (r: usize)
        ensures
            r == self.free_list@.len(),
    {
        self.free_list.len()
    }
}

/// A block of a well-formed pool is on the free list exactly when no
/// sequence's table references it. Since `free` keeps the pool well formed,
/// after any series of frees a block has returned to the free list if and
/// only if no remaining table holds it.
pub proof fn lemma_free_iff_unreferenced(e: &BlockEngine, b: usize)
    requires
        e.wf(),
        b < e.num_blocks(),
    ensures
        e.is_free(b) <==> forall|id: usize| #[trigger] e.has_seq(id) ==> !e.table_of(id).contains(b),
{
    let ts = e.tables();
    assert(e.ref_counts@[b as int] == refs(ts, b));
    assert(e.ref_counts@[b as int] == 0 <==> e.free_list@.contains(b));
    if e.is_free(b) {
        lemma_refs_zero(ts, b);
        assert forall|id: usize| #[trigger] e.has_seq(id) implies !e.table_of(id).contains(b) by {
            let j = e.index_of(id);
            assert(0 <= j < ts.len());
        }
    }
    if forall|id: usize| #[trigger] e.has_seq(id) ==> !e.table_of(id).contains(b) {
        assert forall|j: int| 0 <= j < ts.len() implies !(#[trigger] ts[j]).contains(b) by {
            let id = e.ids()[j];
            assert(e.has_seq(id));
            assert(e.index_of(id) == j);
        }
        lemma_refs_none(ts, b);
    }
}

/// After `child` was forked from `parent`, appending a position to `child`
/// leaves the table of `parent` as it was, writes to a block that `parent`
/// does not reference, and the two tables differ at most at the written entry.
pub proof fn lemma_append_after_fork_isolated(
    forked: &BlockEngine,
    after: &BlockEngine,
    parent: usize,
    child: usize,
    slot: usize,
)
    requires
        forked.wf(),
        after.wf(),
        parent != child,
        forked.has_seq(parent),
        forked.has_seq(child),
        forked.table_of(child) == forked.table_of(parent),
        forked.tokens_of(child) == forked.tokens_of(parent),
        after.appended(forked, child, slot),
    ensures
        ({
            let k = (forked.tokens_of(child) / (forked.block_size as nat)) as int;
            let w = after.table_of(child)[k];
            &&& after.table_of(parent) == forked.table_of(parent)
            &&& slot / forked.block_size == w
            &&& !after.table_of(parent).contains(w)
            &&& forall|q: int|
                0 <= q < after.table_of(parent).len() && q != k ==> #[trigger] after.table_of(child)[q]
                    == after.table_of(parent)[q]
        }),
{
    let bs = forked.block_size as nat;
    let t = forked.tokens_of(child);
    let k = (t / bs) as int;
    let w = after.table_of(child)[k];
    assert(after.has_seq(parent));
    let ip = after.index_of(parent);
    let ic = after.index_of(child);
    assert(ip != ic);
    if after.table_of(parent).contains(w) {
        assert(after.tables()[ic].contains(w)) by {
            assert(after.tables()[ic][k] == w);
        }
        lemma_refs_member(after.tables(), ic, w);
        assert(w < after.num_blocks());
        assert(after.ref_counts@[w as int] == refs(after.tables(), w));
    }
    assert(slot / forked.block_size == w) by {
        vstd::arithmetic::div_mod::lemma_fundamental_div_mod_converse(
            slot as int,
            bs as int,
            w as int,
            (t % bs) as int,
        );
    }
}

} // verus!
