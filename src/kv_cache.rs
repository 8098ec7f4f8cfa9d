//! Dense key/value cache: per layer, one growing run of key rows and one of
//! value rows, each row standing for one position of the sequence.
use vstd::prelude::*;

verus! {

/// Cached keys and values of one layer, one row per position.
pub struct KvPair {
    pub key: Vec<u64>,
    pub value: Vec<u64>,
}

/// The last `w` rows of `s`, or all of them when there are fewer.
pub open spec fn trailing(s: Seq<u64>, w: nat) -> Seq<u64> {
    if s.len() > w {
        s.subrange(s.len() - w, s.len() as int)
    } else {
        s
    }
}

/// Rows held after `new` is appended to a cell that held `prior` (`None`:
/// empty). An empty cell takes the new rows as they are; otherwise the rows
/// are concatenated and, with a window, cut to its last `w` rows.
pub open spec fn updated_rows(prior: Option<Seq<u64>>, new: Seq<u64>, window: Option<nat>) -> Seq<u64> {
    match prior {
        None => new,
        Some(p) => match window {
            Some(w) => trailing(p + new, w),
            None => p + new,
        },
    }
}

/// Whether the update of a non-empty cell cut rows from the front.
pub open spec fn update_truncates(prior: Option<Seq<u64>>, new: Seq<u64>, window: Option<nat>) -> bool {
    match (prior, window) {
        (Some(p), Some(w)) => p.len() + new.len() > w,
        _ => false,
    }
}

/// What one cache update hands to attention.
pub struct KvUpdate {
    pub key: Vec<u64>,
    pub value: Vec<u64>,
    /// `Some(w)` when rows were cut: attention sees only the last `w` positions.
    pub mask_len: Option<usize>,
}

pub open spec fn key_rows(cell: Option<KvPair>) -> Option<Seq<u64>> {
    match cell {
        Some(p) => Some(p.key@),
        None => None,
    }
}

pub open spec fn value_rows(cell: Option<KvPair>) -> Option<Seq<u64>> {
    match cell {
        Some(p) => Some(p.value@),
        None => None,
    }
}

/// The window that applies to an update: the sliding window, for layers
/// that use it.
pub open spec fn window_of(sliding_window: Option<usize>, is_sliding_window: bool) -> Option<nat> {
    match sliding_window {
        Some(w) if is_sliding_window => Some(w as nat),
        _ => None,
    }
}

/// Keeps the last `w` rows of `v`.
fn keep_trailing(v: &mut Vec<u64>, w: usize)
    ensures
        final(v)@ == trailing(old(v)@, w as nat),
{
    if v.len() > w {
        let at = v.len() - w;
        let tail = v.split_off(at);
        *v = tail;
    }
}

/// Appends `new_key`/`new_value` to `cell` and returns the rows that
/// attention uses. An empty cell takes the new rows unmasked. Otherwise the
/// rows are concatenated; for a sliding-window layer whose window is set and
/// exceeded, the oldest rows are cut from the front of both and a mask over
/// the last `w` positions is returned.
pub fn update_kv_cache(
    cell: &mut Option<KvPair>,
    new_key: Vec<u64>,
    new_value: Vec<u64>,
    is_sliding_window: bool,
    sliding_window: Option<usize>,
) -> (r: KvUpdate)
    requires
        *old(cell) matches Some(p) ==> p.key@.len() + new_key@.len() <= usize::MAX && p.value@.len()
            + new_value@.len() <= usize::MAX,
    ensures
        ({
            let win = window_of(sliding_window, is_sliding_window);
            let k = updated_rows(key_rows(*old(cell)), new_key@, win);
            let v = updated_rows(value_rows(*old(cell)), new_value@, win);
            &&& key_rows(*final(cell)) == Some(k)
            &&& value_rows(*final(cell)) == Some(v)
            &&& r.key@ == k
            &&& r.value@ == v
            &&& r.mask_len == if update_truncates(key_rows(*old(cell)), new_key@, win) {
                sliding_window
            } else {
                None::<usize>
            }
        }),
{
    let mut taken: Option<KvPair> = None;
    std::mem::swap(cell, &mut taken);
    match taken {
        None => {
            let key = new_key.clone();
            let value = new_value.clone();
            assert(key@ =~= new_key@);
            assert(value@ =~= new_value@);
            *cell = Some(KvPair { key: new_key, value: new_value });
            KvUpdate { key, value, mask_len: None }
        },
        Some(p) => {
            let mut key = p.key;
            let mut value = p.value;
            let mut nk = new_key;
            let mut nv = new_value;
            let ghost full_k = key@ + nk@;
            key.append(&mut nk);
            value.append(&mut nv);
            let mut mask_len: Option<usize> = None;
            if is_sliding_window {
                if let Some(w) = sliding_window {
                    if key.len() > w {
                        mask_len = Some(w);
                    }
                    keep_trailing(&mut key, w);
                    keep_trailing(&mut value, w);
                }
            }
            let rk = key.clone();
            let rv = value.clone();
            assert(rk@ =~= key@);
            assert(rv@ =~= value@);
            *cell = Some(KvPair { key, value });
            KvUpdate { key: rk, value: rv, mask_len }
        },
    }
}

/// Rows held after appending the rows of `rows` one at a time to an empty
/// cell.
pub open spec fn rows_after_appends(rows: Seq<u64>, window: Option<nat>) -> Seq<u64>
    decreases rows.len(),
{
    if rows.len() == 0 {
        Seq::empty()
    } else if rows.len() == 1 {
        updated_rows(None, rows, window)
    } else {
        updated_rows(
            Some(rows_after_appends(rows.drop_last(), window)),
            seq![rows.last()],
            window,
        )
    }
}

/// Appending `N` single rows one call at a time leaves exactly the last
/// `min(N, w)` of them, in order, when a window `w` applies, and all `N`
/// without one.
pub proof fn lemma_dense_append(rows: Seq<u64>, window: Option<nat>)
    requires
        window matches Some(w) ==> w > 0,
    ensures
        rows_after_appends(rows, window) == match window {
            Some(w) => trailing(rows, w),
            None => rows,
        },
        window matches Some(w) ==> rows_after_appends(rows, window).len() == if rows.len() < w {
            rows.len()
        } else {
            w
        },
    decreases rows.len(),
{
    if rows.len() == 0 {
        assert(rows =~= Seq::<u64>::empty());
    } else if rows.len() == 1 {
        if let Some(w) = window {
            assert(trailing(rows, w) == rows);
        }
    } else {
        let d = rows.drop_last();
        lemma_dense_append(d, window);
        assert(d + seq![rows.last()] =~= rows);
        if let Some(w) = window {
            let p = trailing(d, w);
            if d.len() > w {
                assert(trailing(p + seq![rows.last()], w) =~= trailing(rows, w));
            } else {
                assert(p + seq![rows.last()] =~= rows);
            }
        }
    }
}

} // verus!
