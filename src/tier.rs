//! One tier of the commitment tree: a quaternary Merkle tree of height 8 over
//! a left-packed sequence of items, with absent items hashing to zero.
use crate::primitives::{poseidon4, poseidon4_of, small_bytes, small_spec, zero_bytes, zero_spec, Bytes32};
use vstd::prelude::*;

verus! {

/// `4^h`.
pub open spec fn pow4(h: nat) -> nat
    decreases h,
{
    if h == 0 {
        1
    } else {
        4 * pow4((h - 1) as nat)
    }
}

/// The view of a vector of encodings as byte sequences.
pub open spec fn seq_view(v: Seq<Bytes32>) -> Seq<Seq<u8>> {
    v.map_values(|x: Bytes32| x@)
}

/// Domain separator of an interior node at absolute height `height` (1 to 24).
pub open spec fn node_ds_spec(height: nat) -> Seq<u8> {
    small_spec(height as u8)
}

/// The hash of an interior node from its four children, left to right.
pub open spec fn node_hash(height: nat, a: Seq<u8>, b: Seq<u8>, c: Seq<u8>, d: Seq<u8>) -> Seq<u8> {
    poseidon4_of(node_ds_spec(height), a, b, c, d)
}

/// The `i`-th of the four chunks of width `w` of `items`, clipped to its length.
pub open spec fn chunk(items: Seq<Seq<u8>>, i: nat, w: nat) -> Seq<Seq<u8>> {
    let lo = if i * w <= items.len() { i * w } else { items.len() };
    let hi = if (i + 1) * w <= items.len() { (i + 1) * w } else { items.len() };
    items.subrange(lo as int, hi as int)
}

/// The root of a subtree of height `h` whose leaves sit at absolute height `base`.
/// A subtree with no items is the zero hash; a leaf is its item.
pub open spec fn subtree(items: Seq<Seq<u8>>, h: nat, base: nat) -> Seq<u8>
    decreases h,
{
    if items.len() == 0 {
        zero_spec()
    } else if h == 0 {
        items[0]
    } else {
        let w = pow4((h - 1) as nat);
        node_hash(
            base + h,
            subtree(chunk(items, 0, w), (h - 1) as nat, base),
            subtree(chunk(items, 1, w), (h - 1) as nat, base),
            subtree(chunk(items, 2, w), (h - 1) as nat, base),
            subtree(chunk(items, 3, w), (h - 1) as nat, base),
        )
    }
}

/// The index among four children of the `k`-th sibling of child `d`.
pub open spec fn sibling_index(d: nat, k: nat) -> nat {
    if k < d {
        k
    } else {
        k + 1
    }
}

/// The authentication path of item `idx`: three sibling hashes per level, lowest level first.
pub open spec fn tier_path(items: Seq<Seq<u8>>, idx: nat, h: nat, base: nat) -> Seq<Seq<u8>>
    decreases h,
{
    if h == 0 {
        Seq::empty()
    } else {
        let w = pow4((h - 1) as nat);
        let d = idx / w;
        tier_path(chunk(items, d, w), idx % w, (h - 1) as nat, base) + seq![
            subtree(chunk(items, sibling_index(d, 0), w), (h - 1) as nat, base),
            subtree(chunk(items, sibling_index(d, 1), w), (h - 1) as nat, base),
            subtree(chunk(items, sibling_index(d, 2), w), (h - 1) as nat, base),
        ]
    }
}

/// Places `x` as child `d` among the siblings `s0, s1, s2` and hashes the node.
pub open spec fn place_hash(
    height: nat,
    d: nat,
    x: Seq<u8>,
    s0: Seq<u8>,
    s1: Seq<u8>,
    s2: Seq<u8>,
) -> Seq<u8> {
    if d == 0 {
        node_hash(height, x, s0, s1, s2)
    } else if d == 1 {
        node_hash(height, s0, x, s1, s2)
    } else if d == 2 {
        node_hash(height, s0, s1, x, s2)
    } else {
        node_hash(height, s0, s1, s2, x)
    }
}

/// Recomputes a subtree root from the item at `idx` and the path's first `3 h` entries.
pub open spec fn fold(leaf: Seq<u8>, idx: nat, path: Seq<Seq<u8>>, h: nat, base: nat) -> Seq<u8>
    decreases h,
{
    if h == 0 {
        leaf
    } else {
        let w = pow4((h - 1) as nat);
        let s = 3 * (h - 1);
        place_hash(
            base + h,
            idx / w,
            fold(leaf, idx % w, path, (h - 1) as nat, base),
            path[s],
            path[s + 1],
            path[s + 2],
        )
    }
}

pub proof fn lemma_pow4_pos(h: nat)
    ensures
        pow4(h) >= 1,
    decreases h,
{
    if h > 0 {
        lemma_pow4_pos((h - 1) as nat);
    }
}

pub proof fn lemma_tier_path_len(items: Seq<Seq<u8>>, idx: nat, h: nat, base: nat)
    ensures
        tier_path(items, idx, h, base).len() == 3 * h,
    decreases h,
{
    if h > 0 {
        let w = pow4((h - 1) as nat);
        lemma_pow4_pos((h - 1) as nat);
        let d = idx / w;
        let sub = tier_path(chunk(items, d, w), idx % w, (h - 1) as nat, base);
        lemma_tier_path_len(chunk(items, d, w), idx % w, (h - 1) as nat, base);
        let top = seq![
            subtree(chunk(items, sibling_index(d, 0), w), (h - 1) as nat, base),
            subtree(chunk(items, sibling_index(d, 1), w), (h - 1) as nat, base),
            subtree(chunk(items, sibling_index(d, 2), w), (h - 1) as nat, base),
        ];
        assert(tier_path(items, idx, h, base) == sub + top);
        assert(top.len() == 3);
    }
}

/// Folding an item with a longer path reads only the first `3 h` entries.
pub proof fn lemma_fold_prefix(
    leaf: Seq<u8>,
    idx: nat,
    p: Seq<Seq<u8>>,
    q: Seq<Seq<u8>>,
    h: nat,
    base: nat,
)
    requires
        p.len() >= 3 * h,
        q.len() >= 3 * h,
        forall|i: int| 0 <= i < 3 * h ==> p[i] == q[i],
    ensures
        fold(leaf, idx, p, h, base) == fold(leaf, idx, q, h, base),
    decreases h,
{
    if h > 0 {
        let w = pow4((h - 1) as nat);
        lemma_pow4_pos((h - 1) as nat);
        let s = 3 * (h - 1);
        assert(s + 2 < 3 * h && 3 * ((h - 1) as nat) <= 3 * h);
        lemma_fold_prefix(leaf, idx % w, p, q, (h - 1) as nat, base);
        assert(p[s] == q[s] && p[s + 1] == q[s + 1] && p[s + 2] == q[s + 2]);
        let fp = fold(leaf, idx % w, p, (h - 1) as nat, base);
        assert(fold(leaf, idx, p, h, base) == place_hash(base + h, idx / w, fp, p[s], p[s + 1], p[s + 2]));
        assert(fold(leaf, idx, q, h, base) == place_hash(base + h, idx / w, fp, q[s], q[s + 1], q[s + 2]));
    }
}

/// Folding item `idx` along its own path gives the subtree root.
pub proof fn lemma_fold_path(items: Seq<Seq<u8>>, idx: nat, h: nat, base: nat)
    requires
        idx < items.len() <= pow4(h),
    ensures
        fold(items[idx as int], idx, tier_path(items, idx, h, base), h, base) == subtree(
            items,
            h,
            base,
        ),
    decreases h,
{
    if h > 0 {
        let w = pow4((h - 1) as nat);
        lemma_pow4_pos((h - 1) as nat);
        let d = idx / w;
        let j = idx % w;
        assert(idx == d * w + j) by {
            vstd::arithmetic::div_mod::lemma_fundamental_div_mod(idx as int, w as int);
        }
        assert(0 <= j < w) by {
            vstd::arithmetic::div_mod::lemma_mod_pos_bound(idx as int, w as int);
        }
        assert(d * w <= idx) by (nonlinear_arith)
            requires
                idx == d * w + j,
                j >= 0,
        ;
        assert(d < 4) by (nonlinear_arith)
            requires
                d * w <= idx,
                idx < 4 * w,
                w >= 1,
        ;
        assert((d + 1) * w == d * w + w) by (nonlinear_arith);
        let c = chunk(items, d, w);
        assert(c.len() <= w);
        assert(j < c.len());
        assert(c[j as int] == items[idx as int]);
        let sub = tier_path(c, j, (h - 1) as nat, base);
        let path = tier_path(items, idx, h, base);
        lemma_tier_path_len(c, j, (h - 1) as nat, base);
        assert(path == sub + seq![
            subtree(chunk(items, sibling_index(d, 0), w), (h - 1) as nat, base),
            subtree(chunk(items, sibling_index(d, 1), w), (h - 1) as nat, base),
            subtree(chunk(items, sibling_index(d, 2), w), (h - 1) as nat, base),
        ]);
        lemma_fold_path(c, j, (h - 1) as nat, base);
        lemma_fold_prefix(c[j as int], j, path, sub, (h - 1) as nat, base);
        assert(path[3 * (h - 1)] == subtree(chunk(items, sibling_index(d, 0), w), (h - 1) as nat, base));
        assert(items.len() > 0);
    }
}

/// The zero hash.
pub fn zero_hash() -> (r: Bytes32)
    ensures
        r@ == zero_spec(),
{
    zero_bytes()
}

/// The hash of an interior node at absolute height `height`.
pub fn hash_node(height: u8, a: &Bytes32, b: &Bytes32, c: &Bytes32, d: &Bytes32) -> (r: Bytes32)
    ensures
        r@ == node_hash(height as nat, a@, b@, c@, d@),
{
    let ds = small_bytes(height);
    poseidon4(&ds, a, b, c, d)
}

/// `4^h` for a tier's heights.
pub fn pow4_exec(h: u8) -> (r: usize)
    requires
        h <= 8,
    ensures
        r as nat == pow4(h as nat),
        r <= 65536,
{
    proof {
        reveal_with_fuel(pow4, 9);
    }
    match h {
        0 => 1,
        1 => 4,
        2 => 16,
        3 => 64,
        4 => 256,
        5 => 1024,
        6 => 4096,
        7 => 16384,
        _ => 65536,
    }
}

/// Lower and upper index of chunk `i` of width `w` within `[lo, hi)`.
fn chunk_bounds(lo: usize, hi: usize, i: usize, w: usize) -> (r: (usize, usize))
    requires
        lo <= hi,
        i < 4,
        w <= 65536,
    ensures
        r.0 == lo + (if i * w <= hi - lo { i * w } else { hi - lo }),
        r.1 == lo + (if (i + 1) * w <= hi - lo { (i + 1) * w } else { hi - lo }),
        lo <= r.0 <= r.1 <= hi,
        r.1 - r.0 <= w,
{
    let n = hi - lo;
    assert(i * w <= 4 * 65536) by (nonlinear_arith)
        requires
            i < 4,
            w <= 65536,
    ;
    assert((i + 1) * w <= 4 * 65536) by (nonlinear_arith)
        requires
            i < 4,
            w <= 65536,
    ;
    let a = if i * w <= n { i * w } else { n };
    let b = if (i + 1) * w <= n { (i + 1) * w } else { n };
    assert(a <= b) by (nonlinear_arith)
        requires
            a == if i * w <= n { i * w } else { n as int },
            b == if (i + 1) * w <= n { (i + 1) * w } else { n as int },
    ;
    assert(b - a <= w) by (nonlinear_arith)
        requires
            a == if i * w <= n { i * w } else { n as int },
            b == if (i + 1) * w <= n { (i + 1) * w } else { n as int },
            a <= b,
    ;
    (lo + a, lo + b)
}

proof fn lemma_chunk_sub(items: Seq<Seq<u8>>, lo: int, hi: int, i: nat, w: nat, a: int, b: int)
    requires
        0 <= lo <= hi <= items.len(),
        a == lo + (if i * w <= hi - lo { (i * w) as int } else { hi - lo }),
        b == lo + (if (i + 1) * w <= hi - lo { ((i + 1) * w) as int } else { hi - lo }),
        a <= b,
    ensures
        chunk(items.subrange(lo, hi), i, w) == items.subrange(a, b),
{
    assert(chunk(items.subrange(lo, hi), i, w) =~= items.subrange(a, b));
}

/// The root of the subtree of height `h` over `items[lo..hi]`.
pub fn subtree_root(items: &Vec<Bytes32>, lo: usize, hi: usize, h: u8, base: u8) -> (r: Bytes32)
    requires
        lo <= hi <= items.len(),
        h <= 8,
        base <= 16,
        hi - lo <= pow4(h as nat),
    ensures
        r@ == subtree(seq_view(items@).subrange(lo as int, hi as int), h as nat, base as nat),
    decreases h,
{
    let ghost s = seq_view(items@).subrange(lo as int, hi as int);
    if lo == hi {
        return zero_hash();
    }
    if h == 0 {
        return items[lo];
    }
    let w = pow4_exec(h - 1);
    let (a0, b0) = chunk_bounds(lo, hi, 0, w);
    let (a1, b1) = chunk_bounds(lo, hi, 1, w);
    let (a2, b2) = chunk_bounds(lo, hi, 2, w);
    let (a3, b3) = chunk_bounds(lo, hi, 3, w);
    proof {
        lemma_chunk_sub(seq_view(items@), lo as int, hi as int, 0, w as nat, a0 as int, b0 as int);
        lemma_chunk_sub(seq_view(items@), lo as int, hi as int, 1, w as nat, a1 as int, b1 as int);
        lemma_chunk_sub(seq_view(items@), lo as int, hi as int, 2, w as nat, a2 as int, b2 as int);
        lemma_chunk_sub(seq_view(items@), lo as int, hi as int, 3, w as nat, a3 as int, b3 as int);
    }
    let c0 = subtree_root(items, a0, b0, h - 1, base);
    let c1 = subtree_root(items, a1, b1, h - 1, base);
    let c2 = subtree_root(items, a2, b2, h - 1, base);
    let c3 = subtree_root(items, a3, b3, h - 1, base);
    hash_node(base + h, &c0, &c1, &c2, &c3)
}

} // verus!

verus! {

/// The authentication path of `items[idx]` within `items[lo..hi]`.
pub fn tier_path_exec(items: &Vec<Bytes32>, lo: usize, hi: usize, idx: usize, h: u8, base: u8) -> (r: Vec<Bytes32>)
    requires
        lo <= hi <= items.len(),
        h <= 8,
        base <= 16,
        hi - lo <= pow4(h as nat),
    ensures
        seq_view(r@) == tier_path(
            seq_view(items@).subrange(lo as int, hi as int),
            idx as nat,
            h as nat,
            base as nat,
        ),
    decreases h,
{
    if h == 0 {
        let r: Vec<Bytes32> = Vec::new();
        assert(seq_view(r@) =~= Seq::<Seq<u8>>::empty());
        return r;
    }
    let w = pow4_exec(h - 1);
    proof {
        lemma_pow4_pos((h - 1) as nat);
    }
    let d = idx / w;
    let j = idx % w;
    let ghost s = seq_view(items@).subrange(lo as int, hi as int);
    assert(pow4(h as nat) == 4 * pow4((h - 1) as nat));
    let dd: usize = if d < 4 { d } else { 4 };
    let (a, b) = chunk_bounds(lo, hi, if d < 4 { d } else { 3 }, w);
    let ghost dn = d as nat;
    let mut r: Vec<Bytes32>;
    if d < 4 {
        proof {
            lemma_chunk_sub(seq_view(items@), lo as int, hi as int, dn, w as nat, a as int, b as int);
        }
        r = tier_path_exec(items, a, b, j, h - 1, base);
    } else {
        // Past the last chunk every sub-chunk is empty.
        proof {
            assert(dn * (w as nat) >= 4 * (w as nat)) by (nonlinear_arith)
                requires
                    dn >= 4,
            ;
            assert(s.len() == hi - lo);
            assert((dn + 1) * (w as nat) >= 4 * (w as nat)) by (nonlinear_arith)
                requires
                    dn >= 4,
            ;
            assert(chunk(s, dn, w as nat).len() == 0);
            assert(chunk(s, dn, w as nat) =~= seq_view(items@).subrange(hi as int, hi as int));
        }
        r = tier_path_exec(items, hi, hi, j, h - 1, base);
    }
    let mut k: usize = 0;
    while k < 3
        invariant
            0 <= k <= 3,
            h >= 1,
            w as nat == pow4((h - 1) as nat),
            d == idx / w,
            lo <= hi <= items.len(),
            hi - lo <= pow4(h as nat),
            h <= 8,
            base <= 16,
            s == seq_view(items@).subrange(lo as int, hi as int),
            seq_view(r@) == tier_path(chunk(s, dn, w as nat), (idx % w) as nat, (h - 1) as nat, base as nat) + Seq::new(
                k as nat,
                |t: int| subtree(chunk(s, sibling_index(dn, t as nat), w as nat), (h - 1) as nat, base as nat),
            ),
            dn == d as nat,
            w <= 65536,
            pow4(h as nat) == 4 * (w as nat),
        decreases 3 - k,
    {
        let si: usize = if k < d { k } else { k + 1 };
        let (a, b) = chunk_bounds(lo, hi, if si < 4 { si } else { 3 }, w);
        let x: Bytes32;
        if si < 4 {
            proof {
                lemma_chunk_sub(seq_view(items@), lo as int, hi as int, si as nat, w as nat, a as int, b as int);
            }
            x = subtree_root(items, a, b, h - 1, base);
        } else {
            proof {
                assert((si as nat) * (w as nat) >= 4 * (w as nat)) by (nonlinear_arith)
                    requires
                        si >= 4,
                ;
                assert(chunk(s, si as nat, w as nat) =~= seq_view(items@).subrange(hi as int, hi as int));
            }
            x = subtree_root(items, hi, hi, h - 1, base);
        }
        let ghost before = seq_view(r@);
        r.push(x);
        proof {
            assert(seq_view(r@) =~= before.push(x@));
            assert(Seq::new((k + 1) as nat, |t: int| subtree(chunk(s, sibling_index(dn, t as nat), w as nat), (h - 1) as nat, base as nat))
                =~= Seq::new(k as nat, |t: int| subtree(chunk(s, sibling_index(dn, t as nat), w as nat), (h - 1) as nat, base as nat)).push(x@));
        }
        k = k + 1;
    }
    proof {
        let top = Seq::new(3, |t: int| subtree(chunk(s, sibling_index(dn, t as nat), w as nat), (h - 1) as nat, base as nat));
        assert(top =~= seq![
            subtree(chunk(s, sibling_index(dn, 0), w as nat), (h - 1) as nat, base as nat),
            subtree(chunk(s, sibling_index(dn, 1), w as nat), (h - 1) as nat, base as nat),
            subtree(chunk(s, sibling_index(dn, 2), w as nat), (h - 1) as nat, base as nat),
        ]);
    }
    r
}

/// Places `x` as child `d` among three siblings and hashes the node.
pub fn place_hash_exec(height: u8, d: usize, x: &Bytes32, s0: &Bytes32, s1: &Bytes32, s2: &Bytes32) -> (r: Bytes32)
    ensures
        r@ == place_hash(height as nat, d as nat, x@, s0@, s1@, s2@),
{
    if d == 0 {
        hash_node(height, x, s0, s1, s2)
    } else if d == 1 {
        hash_node(height, s0, x, s1, s2)
    } else if d == 2 {
        hash_node(height, s0, s1, x, s2)
    } else {
        hash_node(height, s0, s1, s2, x)
    }
}

/// Folds `leaf` at `idx` along `path[off..off + 3 h]`.
pub fn fold_exec(leaf: &Bytes32, idx: usize, path: &Vec<Bytes32>, off: usize, h: u8, base: u8) -> (r: Bytes32)
    requires
        h <= 8,
        base <= 16,
        off + 3 * h <= path.len(),
    ensures
        r@ == fold(leaf@, idx as nat, seq_view(path@).subrange(off as int, path.len() as int), h as nat, base as nat),
    decreases h,
{
    if h == 0 {
        return *leaf;
    }
    let w = pow4_exec(h - 1);
    proof {
        lemma_pow4_pos((h - 1) as nat);
    }
    let below = fold_exec(leaf, idx % w, path, off, h - 1, base);
    let s = off + 3 * ((h - 1) as usize);
    place_hash_exec(base + h, idx / w, &below, &path[s], &path[s + 1], &path[s + 2])
}

} // verus!
