//! The parts of a model description that carry no weights: the model
//! family and the attention cache.
use vstd::prelude::*;
use crate::attention::concat;
use crate::tensor::{copy_vec, Tensor};

verus! {

/// The two model families that share the forward pass.
#[derive(Debug, Clone, Copy, PartialEq, Eq, Structural)]
pub enum ModelType {
    GPT2,
    Llama,
}

/// The keys and values of past positions, per layer and per head, each a
/// matrix `[positions, head_dim]`.
pub struct KVCache<T> {
    pub k: Vec<Vec<Tensor<T>>>,
    pub v: Vec<Vec<Tensor<T>>>,
}

/// A tensor cut to its first `target` rows of `head_dim` elements: the
/// data keeps at most `target * head_dim` elements, the first dimension
/// becomes `target`.
pub open spec fn truncated_rows<T>(old: Tensor<T>, new: Tensor<T>, target: int, head_dim: int) -> bool {
    &&& new.data@ == (if target * head_dim <= old.data.len() {
        old.data@.take(target * head_dim)
    } else {
        old.data@
    })
    &&& new.shape@ == old.shape@.update(0, target as usize)
}

/// The cache can be cut: each key head has a row width, each value head
/// a first dimension, and the new sizes fit.
pub open spec fn can_truncate<T>(c: KVCache<T>, target_len: int) -> bool {
    &&& c.k.len() <= c.v.len()
    &&& forall|l: int| 0 <= l < c.k.len() ==> (#[trigger] c.k[l]).len() <= c.v[l].len()
    &&& forall|l: int, h: int|
        0 <= l < c.k.len() && 0 <= h < c.k[l].len() ==> {
            &&& (#[trigger] c.k[l][h]).shape.len() >= 2
            &&& c.v[l][h].shape.len() >= 1
            &&& target_len * c.k[l][h].shape[1] <= usize::MAX
        }
}

/// Every key head, and the value head beside it, cut to `target` rows of
/// the key head's width; all else unchanged.
pub open spec fn truncated_cache<T>(old: KVCache<T>, new: KVCache<T>, target: int) -> bool {
    &&& new.k.len() == old.k.len()
    &&& new.v.len() == old.v.len()
    &&& forall|l: int| 0 <= l < old.k.len() ==> (#[trigger] new.k[l]).len() == old.k[l].len()
    &&& forall|l: int| 0 <= l < old.v.len() ==> (#[trigger] new.v[l]).len() == old.v[l].len()
    &&& forall|l: int, h: int|
        0 <= l < old.k.len() && 0 <= h < old.k[l].len() ==> {
            &&& truncated_rows(old.k[l][h], #[trigger] new.k[l][h], target, old.k[l][h].shape[1] as int)
            &&& truncated_rows(old.v[l][h], new.v[l][h], target, old.k[l][h].shape[1] as int)
        }
    &&& forall|l: int, h: int|
        0 <= l < old.v.len() && 0 <= h < old.v[l].len() && !(l < old.k.len() && h < old.k[l].len())
            ==> #[trigger] new.v[l][h] == old.v[l][h]
}

fn truncate_rows<T>(t: &mut Tensor<T>, target_len: usize, head_dim: usize)
    requires
        old(t).shape.len() >= 1,
        target_len * head_dim <= usize::MAX,
    ensures
        truncated_rows(*old(t), *final(t), target_len as int, head_dim as int),
{
    t.data.truncate(target_len * head_dim);
    t.shape.set(0, target_len);
}

/// The heads of one layer can be cut: each key head has a row width, each
/// value head beside it a first dimension, and the new sizes fit.
pub open spec fn heads_can_truncate<T>(ks: Seq<Tensor<T>>, vs: Seq<Tensor<T>>, target_len: int) -> bool {
    &&& ks.len() <= vs.len()
    &&& forall|h: int|
        0 <= h < ks.len() ==> {
            &&& (#[trigger] ks[h]).shape.len() >= 2
            &&& vs[h].shape.len() >= 1
            &&& target_len * ks[h].shape[1] <= usize::MAX
        }
}

/// The heads of one layer after the cut: each key head, and the value
/// head beside it, cut to `target` rows of the key head's width; the value
/// heads without a key head unchanged.
pub open spec fn heads_truncated<T>(
    old_ks: Seq<Tensor<T>>,
    old_vs: Seq<Tensor<T>>,
    new_ks: Seq<Tensor<T>>,
    new_vs: Seq<Tensor<T>>,
    target: int,
) -> bool {
    &&& new_ks.len() == old_ks.len()
    &&& new_vs.len() == old_vs.len()
    &&& forall|h: int|
        0 <= h < old_ks.len() ==> {
            &&& truncated_rows(old_ks[h], #[trigger] new_ks[h], target, old_ks[h].shape[1] as int)
            &&& truncated_rows(old_vs[h], new_vs[h], target, old_ks[h].shape[1] as int)
        }
    &&& forall|h: int| old_ks.len() <= h < old_vs.len() ==> #[trigger] new_vs[h] == old_vs[h]
}

fn truncate_heads<T>(ks: &mut Vec<Tensor<T>>, vs: &mut Vec<Tensor<T>>, target_len: usize)
    requires
        heads_can_truncate(old(ks)@, old(vs)@, target_len as int),
    ensures
        heads_truncated(old(ks)@, old(vs)@, final(ks)@, final(vs)@, target_len as int),
{
    let ghost ks0 = ks@;
    let ghost vs0 = vs@;
    let n = ks.len();
    let mut h: usize = 0;
    while h < n
        invariant
            n == ks0.len(),
            h <= n,
            heads_can_truncate(ks0, vs0, target_len as int),
            ks@.len() == ks0.len(),
            vs@.len() == vs0.len(),
            forall|j: int|
                0 <= j < h ==> {
                    &&& truncated_rows(ks0[j], #[trigger] ks@[j], target_len as int, ks0[j].shape[1] as int)
                    &&& truncated_rows(vs0[j], vs@[j], target_len as int, ks0[j].shape[1] as int)
                },
            forall|j: int| h <= j < ks0.len() ==> #[trigger] ks@[j] == ks0[j],
            forall|j: int| h <= j < vs0.len() ==> #[trigger] vs@[j] == vs0[j],
        decreases n - h,
    {
        assert(ks@[h as int] == ks0[h as int]);
        assert(vs@[h as int] == vs0[h as int]);
        let head_dim = ks[h].shape[1];
        truncate_rows(&mut ks[h], target_len, head_dim);
        truncate_rows(&mut vs[h], target_len, head_dim);
        h = h + 1;
    }
    assert(heads_truncated(ks0, vs0, ks@, vs@, target_len as int));
}

/// Cuts every head of the cache back to its first `target_len` positions,
/// dropping what was cached after them. An empty cache stays empty.
pub fn truncate_cache<T>(cache: &mut Option<KVCache<T>>, target_len: usize)
    requires
        *old(cache) matches Some(c) ==> can_truncate(c, target_len as int),
    ensures
        match *old(cache) {
            None => final(cache).is_none(),
            Some(c) => *final(cache) matches Some(n) && truncated_cache(c, n, target_len as int),
        },
{
    match cache.take() {
        None => {
            assert(cache.is_none());
        },
        Some(mut c) => {
            let ghost c0 = c;
            let layers = c.k.len();
            for layer in 0..layers
                invariant
                    layers == c0.k.len(),
                    can_truncate(c0, target_len as int),
                    c.k.len() == c0.k.len(),
                    c.v.len() == c0.v.len(),
                    forall|l: int|
                        0 <= l < layer ==> heads_truncated(
                            c0.k[l]@,
                            c0.v[l]@,
                            (#[trigger] c.k[l])@,
                            c.v[l]@,
                            target_len as int,
                        ),
                    forall|l: int| layer <= l < c0.k.len() ==> #[trigger] c.k[l] == c0.k[l],
                    forall|l: int| layer <= l < c0.v.len() ==> #[trigger] c.v[l] == c0.v[l],
            {
                assert(c.k[layer as int] == c0.k[layer as int]);
                assert(c.v[layer as int] == c0.v[layer as int]);
                assert(heads_can_truncate(c0.k[layer as int]@, c0.v[layer as int]@, target_len as int));
                truncate_heads(&mut c.k[layer], &mut c.v[layer], target_len);
            }
            assert(truncated_cache(c0, c, target_len as int)) by {
                assert forall|l: int| 0 <= l < c0.k.len() implies (#[trigger] c.k[l]).len() == c0.k[l].len() by {
                    assert(heads_truncated(c0.k[l]@, c0.v[l]@, c.k[l]@, c.v[l]@, target_len as int));
                }
                assert forall|l: int| 0 <= l < c0.v.len() implies (#[trigger] c.v[l]).len() == c0.v[l].len() by {
                    if l < c0.k.len() {
                        assert(heads_truncated(c0.k[l]@, c0.v[l]@, c.k[l]@, c.v[l]@, target_len as int));
                    }
                }
                assert forall|l: int, h: int| 0 <= l < c0.k.len() && 0 <= h < c0.k[l].len() implies {
                    &&& truncated_rows(c0.k[l][h], #[trigger] c.k[l][h], target_len as int, c0.k[l][h].shape[1] as int)
                    &&& truncated_rows(c0.v[l][h], c.v[l][h], target_len as int, c0.k[l][h].shape[1] as int)
                } by {
                    let (ok, ov, nk, nv) = (c0.k[l]@, c0.v[l]@, c.k[l]@, c.v[l]@);
                    assert(heads_truncated(ok, ov, nk, nv, target_len as int));
                    assert(truncated_rows(ok[h], nk[h], target_len as int, ok[h].shape[1] as int));
                    assert(truncated_rows(ov[h], nv[h], target_len as int, ok[h].shape[1] as int));
                }
                assert forall|l: int, h: int|
                    0 <= l < c0.v.len() && 0 <= h < c0.v[l].len() && !(l < c0.k.len() && h < c0.k[l].len())
                    implies #[trigger] c.v[l][h] == c0.v[l][h] by {
                    if l < c0.k.len() {
                        assert(heads_truncated(c0.k[l]@, c0.v[l]@, c.k[l]@, c.v[l]@, target_len as int));
                        assert(c.v[l]@[h] == c0.v[l]@[h]);
                    }
                }
            }
            *cache = Some(c);
        },
    }
}

/// A cache with `n_layers` layers and no heads in any of them yet.
pub fn empty_cache<T>(n_layers: usize) -> (c: KVCache<T>)
    ensures
        c.k.len() == n_layers,
        c.v.len() == n_layers,
        forall|l: int| 0 <= l < n_layers ==> (#[trigger] c.k[l]).len() == 0 && c.v[l].len() == 0,
{
    let mut k: Vec<Vec<Tensor<T>>> = Vec::new();
    let mut v: Vec<Vec<Tensor<T>>> = Vec::new();
    let mut i: usize = 0;
    while i < n_layers
        invariant
            i <= n_layers,
            k.len() == i,
            v.len() == i,
            forall|l: int| 0 <= l < i ==> (#[trigger] k@[l]).len() == 0 && v@[l].len() == 0,
        decreases n_layers - i,
    {
        k.push(Vec::new());
        v.push(Vec::new());
        i = i + 1;
    }
    let c = KVCache { k, v };
    assert(c.k@ == k@ && c.v@ == v@);
    c
}

/// The number of positions a cache holds: the rows of the first key head
/// of the first layer, and none without a cache.
pub fn cached_positions<T>(cache: &Option<KVCache<T>>) -> (n: usize)
    requires
        cache matches Some(c) ==> c.k.len() > 0 && c.k[0].len() > 0 && c.k[0][0].shape.len() > 0,
    ensures
        n == match cache {
            Some(c) => c.k[0][0].shape[0],
            None => 0,
        },
{
    match cache {
        Some(c) => c.k[0][0].shape[0],
        None => 0,
    }
}

/// The same tensor: equal data and shape.
pub open spec fn same_tensor<T>(a: Tensor<T>, b: Tensor<T>) -> bool {
    a.data@ == b.data@ && a.shape@ == b.shape@
}

/// `t` is the head `old` with the rows of `new` after its own.
pub open spec fn extended<T>(old: Tensor<T>, new: Tensor<T>, t: Tensor<T>) -> bool {
    &&& t.data@ == old.data@ + new.data@
    &&& t.shape@ == seq![(old.shape[0] + new.shape[0]) as usize, old.shape[1]]
}

/// New rows can be added to the heads of a layer: there is a value head
/// for each key head; and where the layer has heads already, each of them
/// is a matrix and the new sizes fit.
pub open spec fn can_append<T>(ks: Seq<Tensor<T>>, vs: Seq<Tensor<T>>, k_heads: Seq<Tensor<T>>, v_heads: Seq<Tensor<T>>) -> bool {
    &&& v_heads.len() >= k_heads.len()
    &&& ks.len() > 0 ==> {
        &&& ks.len() >= k_heads.len()
        &&& vs.len() >= k_heads.len()
        &&& forall|h: int|
            0 <= h < k_heads.len() ==> {
                &&& (#[trigger] ks[h]).shape.len() >= 2
                &&& vs[h].shape.len() >= 2
                &&& k_heads[h].shape.len() >= 1
                &&& v_heads[h].shape.len() >= 1
                &&& ks[h].shape[0] + k_heads[h].shape[0] <= usize::MAX
                &&& vs[h].shape[0] + v_heads[h].shape[0] <= usize::MAX
                &&& ks[h].data.len() + k_heads[h].data.len() <= usize::MAX
                &&& vs[h].data.len() + v_heads[h].data.len() <= usize::MAX
            }
    }
}

/// The heads of a layer after new rows were added: a layer without key
/// heads takes the new key heads as they are and the new value heads after
/// its own; otherwise each head, up to the number of new key heads, has the
/// new rows of the same head after its own, and the rest stay.
pub open spec fn appended<T>(
    ks: Seq<Tensor<T>>,
    vs: Seq<Tensor<T>>,
    k_heads: Seq<Tensor<T>>,
    v_heads: Seq<Tensor<T>>,
    new_ks: Seq<Tensor<T>>,
    new_vs: Seq<Tensor<T>>,
) -> bool {
    let n = k_heads.len();
    if ks.len() == 0 {
        &&& new_ks.len() == n
        &&& new_vs.len() == vs.len() + n
        &&& forall|h: int| 0 <= h < n ==> same_tensor(#[trigger] new_ks[h], k_heads[h])
        &&& forall|h: int| 0 <= h < n ==> same_tensor(#[trigger] new_vs[vs.len() + h], v_heads[h])
        &&& forall|h: int| 0 <= h < vs.len() ==> #[trigger] new_vs[h] == vs[h]
    } else {
        &&& new_ks.len() == ks.len()
        &&& new_vs.len() == vs.len()
        &&& forall|h: int| 0 <= h < n ==> extended(ks[h], k_heads[h], #[trigger] new_ks[h])
        &&& forall|h: int| 0 <= h < n ==> extended(vs[h], v_heads[h], #[trigger] new_vs[h])
        &&& forall|h: int| n <= h < ks.len() ==> #[trigger] new_ks[h] == ks[h]
        &&& forall|h: int| n <= h < vs.len() ==> #[trigger] new_vs[h] == vs[h]
    }
}

fn copy_tensor<T: Copy>(t: &Tensor<T>) -> (r: Tensor<T>)
    ensures
        same_tensor(r, *t),
{
    Tensor { data: copy_vec(&t.data), shape: copy_vec(&t.shape) }
}

fn append_layer<T: Copy>(ks: &mut Vec<Tensor<T>>, vs: &mut Vec<Tensor<T>>, k_heads: &Vec<Tensor<T>>, v_heads: &Vec<Tensor<T>>)
    requires
        can_append(old(ks)@, old(vs)@, k_heads@, v_heads@),
    ensures
        appended(old(ks)@, old(vs)@, k_heads@, v_heads@, final(ks)@, final(vs)@),
{
    let ghost ks0 = ks@;
    let ghost vs0 = vs@;
    let n = k_heads.len();
    if ks.len() == 0 {
        for h in 0..n
            invariant
                n == k_heads.len(),
                v_heads.len() >= n,
                ks0.len() == 0,
                ks@.len() == h,
                vs@.len() == vs0.len() + h,
                forall|j: int| 0 <= j < h ==> same_tensor(#[trigger] ks@[j], k_heads@[j]),
                forall|j: int| 0 <= j < h ==> same_tensor(#[trigger] vs@[vs0.len() + j], v_heads@[j]),
                forall|j: int| 0 <= j < vs0.len() ==> #[trigger] vs@[j] == vs0[j],
        {
            let kt = copy_tensor(&k_heads[h]);
            let vt = copy_tensor(&v_heads[h]);
            ks.push(kt);
            vs.push(vt);
        }
    } else {
        for h in 0..n
            invariant
                n == k_heads.len(),
                ks0.len() > 0,
                can_append(ks0, vs0, k_heads@, v_heads@),
                ks@.len() == ks0.len(),
                vs@.len() == vs0.len(),
                forall|j: int| 0 <= j < h ==> extended(ks0[j], k_heads@[j], #[trigger] ks@[j]),
                forall|j: int| 0 <= j < h ==> extended(vs0[j], v_heads@[j], #[trigger] vs@[j]),
                forall|j: int| h <= j < ks0.len() ==> #[trigger] ks@[j] == ks0[j],
                forall|j: int| h <= j < vs0.len() ==> #[trigger] vs@[j] == vs0[j],
        {
            assert(ks@[h as int] == ks0[h as int]);
            assert(vs@[h as int] == vs0[h as int]);
            let kt = concat(&ks[h], &k_heads[h]);
            let vt = concat(&vs[h], &v_heads[h]);
            ks.set(h, kt);
            vs.set(h, vt);
        }
    }
}

/// Adds the keys and values of new positions, one tensor per head, to layer
/// `layer` of the cache: a layer without heads takes the new heads, else
/// each head gets the new rows of the same head after its own.
pub fn append_heads<T: Copy>(cache: &mut KVCache<T>, layer: usize, k_heads: &Vec<Tensor<T>>, v_heads: &Vec<Tensor<T>>)
    requires
        layer < old(cache).k.len(),
        layer < old(cache).v.len(),
        can_append(old(cache).k[layer as int]@, old(cache).v[layer as int]@, k_heads@, v_heads@),
    ensures
        final(cache).k.len() == old(cache).k.len(),
        final(cache).v.len() == old(cache).v.len(),
        appended(
            old(cache).k[layer as int]@,
            old(cache).v[layer as int]@,
            k_heads@,
            v_heads@,
            final(cache).k[layer as int]@,
            final(cache).v[layer as int]@,
        ),
        forall|l: int| 0 <= l < old(cache).k.len() && l != layer ==> #[trigger] final(cache).k[l] == old(cache).k[l],
        forall|l: int| 0 <= l < old(cache).v.len() && l != layer ==> #[trigger] final(cache).v[l] == old(cache).v[l],
{
    append_layer(&mut cache.k[layer], &mut cache.v[layer], k_heads, v_heads);
}

} // verus!
