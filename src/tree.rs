//! The tiered commitment tree: a global tier whose leaves are epoch roots, an
//! epoch tier whose leaves are block roots, and a block tier whose leaves are
//! note commitments. Each tier is a quaternary Merkle tree of height 8.
use crate::position::{Position, TIER_CAPACITY};
use crate::primitives::{bytes_eq, poseidon1, poseidon1_of, small_bytes, small_spec, zero_spec, Bytes32};
use crate::tier::{
    fold, fold_exec, lemma_fold_path, lemma_fold_prefix, lemma_tier_path_len, pow4, seq_view, subtree,
    subtree_root, tier_path, tier_path_exec,
};
use vstd::prelude::*;

verus! {

/// Whether an inserted commitment is kept so that it can be witnessed later.
#[derive(Clone, Copy, Debug, PartialEq, Eq, Structural)]
pub enum Witness {
    Forget,
    Keep,
}

/// Why the tree refused to grow.
#[derive(Clone, Copy, Debug, PartialEq, Eq, Structural)]
pub enum TreeError {
    /// The tier that would receive the next item already holds `4^8` of them.
    Full,
}

/// The hash of a commitment as a leaf of a block.
pub open spec fn leaf_hash(c: Seq<u8>) -> Seq<u8> {
    poseidon1_of(small_spec(0), c)
}

/// The root of a tier that was sealed with nothing in it.
pub open spec fn one_spec() -> Seq<u8> {
    small_spec(1)
}

pub open spec fn block_items(b: Seq<Bytes32>) -> Seq<Seq<u8>> {
    b.map_values(|c: Bytes32| leaf_hash(c@))
}

/// The root of a block once it is sealed (or once it holds a commitment).
pub open spec fn sealed_block_root(b: Seq<Bytes32>) -> Seq<u8> {
    if b.len() == 0 {
        one_spec()
    } else {
        subtree(block_items(b), 8, 0)
    }
}

/// The blocks of an epoch that occupy a leaf: an open, still empty last block does not.
pub open spec fn live_blocks(blocks: Seq<Seq<Bytes32>>, open: bool) -> Seq<Seq<Bytes32>> {
    if open && blocks.len() > 0 && blocks.last().len() == 0 {
        blocks.drop_last()
    } else {
        blocks
    }
}

pub open spec fn epoch_items(blocks: Seq<Seq<Bytes32>>, open: bool) -> Seq<Seq<u8>> {
    live_blocks(blocks, open).map_values(|b: Seq<Bytes32>| sealed_block_root(b))
}

/// The root of an epoch: zero while open and empty, the finished-empty hash once
/// sealed empty, else the root over its block roots.
pub open spec fn epoch_root(blocks: Seq<Seq<Bytes32>>, open: bool) -> Seq<u8> {
    if epoch_items(blocks, open).len() == 0 {
        if open {
            zero_spec()
        } else {
            one_spec()
        }
    } else {
        subtree(epoch_items(blocks, open), 8, 8)
    }
}

/// The epochs that occupy a leaf of the global tier: the last one is open, and
/// takes a leaf only once something is in it.
pub open spec fn live_epochs(es: Seq<Seq<Seq<Bytes32>>>) -> Seq<Seq<Seq<Bytes32>>> {
    if es.len() > 0 && epoch_items(es.last(), true).len() == 0 {
        es.drop_last()
    } else {
        es
    }
}

pub open spec fn global_items(es: Seq<Seq<Seq<Bytes32>>>) -> Seq<Seq<u8>> {
    live_epochs(es).map(|i: int, e: Seq<Seq<Bytes32>>| epoch_root(e, i == es.len() - 1))
}

pub open spec fn global_root(es: Seq<Seq<Seq<Bytes32>>>) -> Seq<u8> {
    subtree(global_items(es), 8, 16)
}

/// The blocks of an epoch as sealed: an empty current block is left out.
pub open spec fn sealed_blocks(bs: Seq<Seq<Bytes32>>) -> Seq<Seq<Bytes32>> {
    if bs.len() > 0 && bs.last().len() == 0 {
        bs.drop_last()
    } else {
        bs
    }
}

/// The authentication path of the commitment at `p`: the paths in the block,
/// epoch and global tiers, one after the other.
pub open spec fn witness_path(es: Seq<Seq<Seq<Bytes32>>>, p: Position) -> Seq<Seq<u8>> {
    let e = p.epoch as int;
    let b = p.block as int;
    tier_path(block_items(es[e][b]), p.commitment as nat, 8, 0) + tier_path(
        epoch_items(es[e], e == es.len() - 1),
        p.block as nat,
        8,
        8,
    ) + tier_path(global_items(es), p.epoch as nat, 8, 16)
}

/// The root that a path proves for commitment `c` at `p`.
pub open spec fn proof_root(p: Position, c: Seq<u8>, path: Seq<Seq<u8>>) -> Seq<u8> {
    let r1 = fold(leaf_hash(c), p.commitment as nat, path, 8, 0);
    let r2 = fold(r1, p.block as nat, path.subrange(24, path.len() as int), 8, 8);
    fold(r2, p.epoch as nat, path.subrange(48, path.len() as int), 8, 16)
}

/// The block root that the first 24 entries of a path prove.
pub open spec fn proof_block_root(p: Position, c: Seq<u8>, path: Seq<Seq<u8>>) -> Seq<u8> {
    fold(leaf_hash(c), p.commitment as nat, path, 8, 0)
}

pub open spec fn blocks_view(v: Seq<Vec<Bytes32>>) -> Seq<Seq<Bytes32>> {
    v.map_values(|b: Vec<Bytes32>| b@)
}

pub open spec fn epochs_view(v: Seq<Vec<Vec<Bytes32>>>) -> Seq<Seq<Seq<Bytes32>>> {
    v.map_values(|e: Vec<Vec<Bytes32>>| blocks_view(e@))
}

/// Whether `p` names a commitment in `es`.
pub open spec fn holds(es: Seq<Seq<Seq<Bytes32>>>, p: Position) -> bool {
    &&& (p.epoch as int) < es.len()
    &&& (p.block as int) < es[p.epoch as int].len()
    &&& (p.commitment as int) < es[p.epoch as int][p.block as int].len()
}

/// Every tier within its capacity.
pub open spec fn within_capacity(es: Seq<Seq<Seq<Bytes32>>>) -> bool {
    &&& es.len() <= TIER_CAPACITY
    &&& forall|e: int| 0 <= e < es.len() ==> #[trigger] es[e].len() <= TIER_CAPACITY
    &&& forall|e: int, b: int|
        0 <= e < es.len() && 0 <= b < es[e].len() ==> #[trigger] es[e][b].len() <= TIER_CAPACITY
}

/// An inclusion proof: a commitment, its position, and 72 sibling hashes.
#[derive(Clone, Debug)]
pub struct Proof {
    pub position: Position,
    pub commitment: Bytes32,
    pub path: Vec<Bytes32>,
}

/// Why a proof did not verify.
#[derive(Clone, Copy, Debug, PartialEq, Eq, Structural)]
pub enum VerifyError {
    /// The path does not hold 24 levels of three siblings.
    MalformedPath,
    /// The recomputed root differs from the expected one.
    RootMismatch,
}

impl Proof {
    pub open spec fn well_formed(&self) -> bool {
        self.path.len() == 72
    }

    /// The global root this proof recomputes.
    pub open spec fn root_spec(&self) -> Seq<u8> {
        proof_root(self.position, self.commitment@, seq_view(self.path@))
    }

    pub open spec fn block_root_spec(&self) -> Seq<u8> {
        proof_block_root(self.position, self.commitment@, seq_view(self.path@))
    }

    pub fn position(&self) -> (r: Position)
        ensures
            r == self.position,
    {
        self.position
    }

    pub fn commitment(&self) -> (r: Bytes32)
        ensures
            r == self.commitment,
    {
        self.commitment
    }

    /// Checks that the path leads from the commitment to `root`.
    pub fn verify(&self, root: &Bytes32) -> (r: Result<(), VerifyError>)
        ensures
            r is Ok <==> self.well_formed() && self.root_spec() == root@,
            !self.well_formed() ==> r == Err::<(), VerifyError>(VerifyError::MalformedPath),
    {
        if self.path.len() != 72 {
            return Err(VerifyError::MalformedPath);
        }
        let got = self.computed_root();
        if bytes_eq(&got, root) {
            Ok(())
        } else {
            Err(VerifyError::RootMismatch)
        }
    }

    /// Checks the block-tier part of the path against a block root.
    pub fn verify_block_root(&self, root: &Bytes32) -> (r: Result<(), VerifyError>)
        ensures
            r is Ok <==> self.well_formed() && self.block_root_spec() == root@,
    {
        if self.path.len() != 72 {
            return Err(VerifyError::MalformedPath);
        }
        let leaf = hash_leaf(&self.commitment);
        let r1 = fold_exec(&leaf, self.position.commitment as usize, &self.path, 0, 8, 0);
        proof {
            assert(seq_view(self.path@).subrange(0, 72) =~= seq_view(self.path@));
        }
        if bytes_eq(&r1, root) {
            Ok(())
        } else {
            Err(VerifyError::RootMismatch)
        }
    }

    fn computed_root(&self) -> (r: Bytes32)
        requires
            self.well_formed(),
        ensures
            r@ == self.root_spec(),
    {
        let leaf = hash_leaf(&self.commitment);
        let r1 = fold_exec(&leaf, self.position.commitment as usize, &self.path, 0, 8, 0);
        let r2 = fold_exec(&r1, self.position.block as usize, &self.path, 24, 8, 8);
        let r3 = fold_exec(&r2, self.position.epoch as usize, &self.path, 48, 8, 16);
        proof {
            assert(seq_view(self.path@).subrange(0, 72) =~= seq_view(self.path@));
            assert(seq_view(self.path@).subrange(24, 72) =~= seq_view(self.path@).subrange(24, seq_view(self.path@).len() as int));
            assert(seq_view(self.path@).subrange(48, 72) =~= seq_view(self.path@).subrange(48, seq_view(self.path@).len() as int));
        }
        r3
    }
}

/// Every commitment in a tree within capacity is proved to the global root by
/// its own authentication path.
pub proof fn lemma_witness_verifies(es: Seq<Seq<Seq<Bytes32>>>, p: Position)
    requires
        within_capacity(es),
        holds(es, p),
    ensures
        proof_root(p, es[p.epoch as int][p.block as int][p.commitment as int]@, witness_path(es, p))
            == global_root(es),
        witness_path(es, p).len() == 72,
{
    reveal_with_fuel(pow4, 9);
    assert(pow4(8) == 65536);
    let e = p.epoch as int;
    let b = p.block as int;
    let c = p.commitment as int;
    let ep = es[e];
    let blk = ep[b];
    let open = e == es.len() - 1;
    let items1 = block_items(blk);
    let items2 = epoch_items(ep, open);
    let items3 = global_items(es);
    let p1 = tier_path(items1, c as nat, 8, 0);
    let p2 = tier_path(items2, b as nat, 8, 8);
    let p3 = tier_path(items3, e as nat, 8, 16);
    lemma_tier_path_len(items1, c as nat, 8, 0);
    lemma_tier_path_len(items2, b as nat, 8, 8);
    lemma_tier_path_len(items3, e as nat, 8, 16);
    let path = p1 + p2 + p3;
    assert(path == witness_path(es, p));
    // Block tier.
    assert(items1[c] == leaf_hash(blk[c]@));
    lemma_fold_path(items1, c as nat, 8, 0);
    lemma_fold_prefix(leaf_hash(blk[c]@), c as nat, path, p1, 8, 0);
    let r1 = fold(leaf_hash(blk[c]@), c as nat, path, 8, 0);
    assert(r1 == sealed_block_root(blk));
    // Epoch tier.
    let lb = live_blocks(ep, open);
    assert(b < lb.len() && lb[b] == blk);
    assert(items2[b] == r1);
    assert(items2.len() <= 65536);
    lemma_fold_path(items2, b as nat, 8, 8);
    let rest = path.subrange(24, path.len() as int);
    assert(rest =~= p2 + p3);
    lemma_fold_prefix(r1, b as nat, rest, p2, 8, 8);
    let r2 = fold(r1, b as nat, rest, 8, 8);
    assert(r2 == epoch_root(ep, open));
    // Global tier.
    let le = live_epochs(es);
    assert(e < le.len() && le[e] == ep);
    assert(items3[e] == r2);
    lemma_fold_path(items3, e as nat, 8, 16);
    let rest3 = path.subrange(48, path.len() as int);
    assert(rest3 =~= p3);
}

/// The leaf hash of a commitment.
pub fn hash_leaf(c: &Bytes32) -> (r: Bytes32)
    ensures
        r@ == leaf_hash(c@),
{
    let ds = small_bytes(0);
    poseidon1(&ds, c)
}

fn leaf_hashes(b: &Vec<Bytes32>) -> (r: Vec<Bytes32>)
    ensures
        seq_view(r@) == block_items(b@),
{
    let mut r: Vec<Bytes32> = Vec::new();
    let mut i: usize = 0;
    while i < b.len()
        invariant
            0 <= i <= b.len(),
            r.len() == i,
            forall|j: int| 0 <= j < i ==> (#[trigger] r@[j])@ == leaf_hash(b@[j]@),
        decreases b.len() - i,
    {
        let h = hash_leaf(&b[i]);
        r.push(h);
        i = i + 1;
    }
    assert(seq_view(r@) =~= block_items(b@));
    r
}

/// The root of a block as sealed.
pub fn sealed_block_root_of(b: &Vec<Bytes32>) -> (r: Bytes32)
    requires
        b.len() <= TIER_CAPACITY,
    ensures
        r@ == sealed_block_root(b@),
{
    if b.len() == 0 {
        return small_bytes(1);
    }
    let items = leaf_hashes(b);
    proof {
        reveal_with_fuel(pow4, 9);
        assert(seq_view(items@).subrange(0, items.len() as int) =~= seq_view(items@));
    }
    subtree_root(&items, 0, items.len(), 8, 0)
}

fn epoch_items_exec(e: &Vec<Vec<Bytes32>>, open: bool) -> (r: Vec<Bytes32>)
    requires
        forall|b: int| 0 <= b < e.len() ==> (#[trigger] e@[b]).len() <= TIER_CAPACITY,
    ensures
        seq_view(r@) == epoch_items(blocks_view(e@), open),
        r.len() <= e.len(),
{
    let n = if open && e.len() > 0 && e[e.len() - 1].len() == 0 {
        e.len() - 1
    } else {
        e.len()
    };
    let ghost lb = live_blocks(blocks_view(e@), open);
    assert(lb =~= blocks_view(e@).subrange(0, n as int));
    let mut r: Vec<Bytes32> = Vec::new();
    let mut i: usize = 0;
    while i < n
        invariant
            0 <= i <= n <= e.len(),
            r.len() == i,
            lb == blocks_view(e@).subrange(0, n as int),
            forall|b: int| 0 <= b < e.len() ==> (#[trigger] e@[b]).len() <= TIER_CAPACITY,
            forall|j: int| 0 <= j < i ==> (#[trigger] r@[j])@ == sealed_block_root(lb[j]),
        decreases n - i,
    {
        let h = sealed_block_root_of(&e[i]);
        r.push(h);
        i = i + 1;
    }
    assert(seq_view(r@) =~= epoch_items(blocks_view(e@), open));
    r
}

pub(crate) fn epoch_root_exec(e: &Vec<Vec<Bytes32>>, open: bool) -> (r: Bytes32)
    requires
        e.len() <= TIER_CAPACITY,
        forall|b: int| 0 <= b < e.len() ==> (#[trigger] e@[b]).len() <= TIER_CAPACITY,
    ensures
        r@ == epoch_root(blocks_view(e@), open),
{
    let items = epoch_items_exec(e, open);
    if items.len() == 0 {
        if open {
            return crate::tier::zero_hash();
        } else {
            return small_bytes(1);
        }
    }
    proof {
        reveal_with_fuel(pow4, 9);
        assert(seq_view(items@).subrange(0, items.len() as int) =~= seq_view(items@));
    }
    subtree_root(&items, 0, items.len(), 8, 8)
}

/// The root of an epoch as sealed.
pub fn sealed_epoch_root_of(e: &Vec<Vec<Bytes32>>) -> (r: Bytes32)
    requires
        1 <= e.len() <= TIER_CAPACITY,
        forall|b: int| 0 <= b < e.len() ==> (#[trigger] e@[b]).len() <= TIER_CAPACITY,
    ensures
        r@ == epoch_root(sealed_blocks(blocks_view(e@)), false),
{
    let items = epoch_items_exec(e, true);
    proof {
        let bs = blocks_view(e@);
        assert(live_blocks(bs, true) =~= live_blocks(sealed_blocks(bs), false));
        reveal_with_fuel(pow4, 9);
        assert(seq_view(items@).subrange(0, items.len() as int) =~= seq_view(items@));
    }
    if items.len() == 0 {
        return small_bytes(1);
    }
    subtree_root(&items, 0, items.len(), 8, 8)
}

/// Kept entries of a grafted block, placed at block `b` of epoch `e`.
pub open spec fn placed_in_block(ks: Seq<(Bytes32, Position)>, e: u16, b: u16) -> Seq<(Bytes32, Position)> {
    ks.map_values(|t: (Bytes32, Position)| (t.0, Position { epoch: e, block: b, commitment: t.1.commitment }))
}

/// Kept entries of a grafted epoch, placed at epoch `e`.
pub open spec fn placed_in_epoch(ks: Seq<(Bytes32, Position)>, e: u16) -> Seq<(Bytes32, Position)> {
    ks.map_values(|t: (Bytes32, Position)| (t.0, Position { epoch: e, block: t.1.block, commitment: t.1.commitment }))
}

/// The commitment tree.
pub struct Tree {
    epochs: Vec<Vec<Vec<Bytes32>>>,
    kept: Vec<(Bytes32, Position)>,
}

impl Tree {
    /// All commitments, by epoch and block, in insertion order.
    pub closed spec fn contents(&self) -> Seq<Seq<Seq<Bytes32>>> {
        epochs_view(self.epochs@)
    }

    /// The kept commitments with their positions.
    pub closed spec fn kept_entries(&self) -> Seq<(Bytes32, Position)> {
        self.kept@
    }

    /// Whether `c` can be witnessed.
    pub open spec fn is_kept(&self, c: Bytes32) -> bool {
        exists|k: int| 0 <= k < self.kept_entries().len() && (#[trigger] self.kept_entries()[k]).0@ == c@
    }

    pub open spec fn wf(&self) -> bool {
        let es = self.contents();
        &&& 1 <= es.len()
        &&& 1 <= es.last().len()
        &&& within_capacity(es)
        &&& forall|k: int|
            0 <= k < self.kept_entries().len() ==> {
                let (c, p) = #[trigger] self.kept_entries()[k];
                holds(es, p) && es[p.epoch as int][p.block as int][p.commitment as int] == c
            }
    }

    pub open spec fn root_spec(&self) -> Seq<u8> {
        global_root(self.contents())
    }

    /// The block that the next commitment goes into.
    pub open spec fn current_block(&self) -> Seq<Bytes32> {
        self.contents().last().last()
    }

    /// Where the next commitment goes, if there is room.
    pub open spec fn next_position(&self) -> Position {
        let es = self.contents();
        Position {
            epoch: (es.len() - 1) as u16,
            block: (es.last().len() - 1) as u16,
            commitment: self.current_block().len() as u16,
        }
    }

    /// An empty tree, in its first epoch and first block.
    pub fn new() -> (r: Tree)
        ensures
            r.wf(),
            r.contents() == seq![seq![Seq::<Bytes32>::empty()]],
            r.kept_entries().len() == 0,
    {
        let b: Vec<Bytes32> = Vec::new();
        let mut e: Vec<Vec<Bytes32>> = Vec::new();
        e.push(b);
        let mut es: Vec<Vec<Vec<Bytes32>>> = Vec::new();
        es.push(e);
        let t = Tree { epochs: es, kept: Vec::new() };
        assert(t.epochs@[0]@[0]@ =~= Seq::<Bytes32>::empty());
        assert(blocks_view(t.epochs@[0]@) =~= seq![Seq::<Bytes32>::empty()]);
        assert(t.contents() =~= seq![seq![Seq::<Bytes32>::empty()]]);
        t
    }

    /// The commitments, by epoch and block.
    pub(crate) fn epochs(&self) -> (r: &Vec<Vec<Vec<Bytes32>>>)
        ensures
            epochs_view(r@) == self.contents(),
    {
        &self.epochs
    }

    /// The kept commitments with their positions.
    pub(crate) fn kept_vec(&self) -> (r: &Vec<(Bytes32, Position)>)
        ensures
            r@ == self.kept_entries(),
    {
        &self.kept
    }

    /// The number of epochs, the current one included.
    pub fn contents_len(&self) -> (r: usize)
        ensures
            r == self.contents().len(),
    {
        self.epochs.len()
    }

    /// The number of blocks of the current epoch, the current one included.
    pub fn current_epoch_len(&self) -> (r: usize)
        requires
            self.wf(),
        ensures
            r == self.contents().last().len(),
    {
        self.epochs[self.epochs.len() - 1].len()
    }

    /// The global root.
    pub fn root(&self) -> (r: Bytes32)
        requires
            self.wf(),
        ensures
            r@ == self.root_spec(),
    {
        let items = self.global_items_exec();
        proof {
            reveal_with_fuel(pow4, 9);
            assert(seq_view(items@).subrange(0, items.len() as int) =~= seq_view(items@));
        }
        subtree_root(&items, 0, items.len(), 8, 16)
    }

    /// The root of the current epoch, which is still open.
    pub fn current_epoch_root(&self) -> (r: Bytes32)
        requires
            self.wf(),
        ensures
            r@ == epoch_root(self.contents().last(), true),
    {
        let last = self.epochs.len() - 1;
        proof {
            self.lemma_epoch_capacity(last as int);
        }
        epoch_root_exec(&self.epochs[last], true)
    }

    /// The root of the current block, which is still open: zero while empty.
    pub fn current_block_root(&self) -> (r: Bytes32)
        requires
            self.wf(),
        ensures
            r@ == (if self.current_block().len() == 0 { zero_spec() } else { sealed_block_root(self.current_block()) }),
    {
        let le = self.epochs.len() - 1;
        let lb = self.epochs[le].len() - 1;
        proof {
            self.lemma_epoch_capacity(le as int);
        }
        if self.epochs[le][lb].len() == 0 {
            return crate::tier::zero_hash();
        }
        sealed_block_root_of(&self.epochs[le][lb])
    }

    proof fn lemma_epoch_capacity(&self, e: int)
        requires
            self.wf(),
            0 <= e < self.epochs.len(),
        ensures
            self.epochs@[e].len() <= TIER_CAPACITY,
            forall|b: int| 0 <= b < self.epochs@[e].len() ==> (#[trigger] self.epochs@[e]@[b]).len() <= TIER_CAPACITY,
            blocks_view(self.epochs@[e]@) == self.contents()[e],
    {
        let es = self.contents();
        assert(es[e].len() == self.epochs@[e].len());
        assert forall|b: int| 0 <= b < self.epochs@[e].len() implies (#[trigger] self.epochs@[e]@[b]).len() <= TIER_CAPACITY by {
            assert(es[e][b].len() == self.epochs@[e]@[b].len());
        }
    }

    fn global_items_exec(&self) -> (r: Vec<Bytes32>)
        requires
            self.wf(),
        ensures
            seq_view(r@) == global_items(self.contents()),
    {
        let ghost es = self.contents();
        let last = self.epochs.len() - 1;
        proof {
            self.lemma_epoch_capacity(last as int);
        }
        let tail = epoch_items_exec(&self.epochs[last], true);
        let n = if tail.len() == 0 { last } else { self.epochs.len() };
        let ghost le = live_epochs(es);
        assert(le =~= es.subrange(0, n as int));
        let mut r: Vec<Bytes32> = Vec::new();
        let mut i: usize = 0;
        while i < n
            invariant
                0 <= i <= n <= self.epochs.len(),
                last == self.epochs.len() - 1,
                self.wf(),
                es == self.contents(),
                le == es.subrange(0, n as int),
                r.len() == i,
                forall|j: int| 0 <= j < i ==> (#[trigger] r@[j])@ == epoch_root(le[j], j == es.len() - 1),
            decreases n - i,
        {
            proof {
                self.lemma_epoch_capacity(i as int);
            }
            let h = epoch_root_exec(&self.epochs[i], i == last);
            r.push(h);
            i = i + 1;
        }
        assert(seq_view(r@) =~= global_items(es));
        r
    }
}

} // verus!

verus! {

impl Tree {
    proof fn lemma_view_push_commitment(
        old_es: Seq<Vec<Vec<Bytes32>>>,
        new_es: Seq<Vec<Vec<Bytes32>>>,
        e1: Vec<Vec<Bytes32>>,
        b1: Vec<Bytes32>,
        c: Bytes32,
    )
        requires
            old_es.len() >= 1,
            e1@.len() >= 1,
            old_es.last() == e1,
            e1@.last() == b1,
            new_es.len() == old_es.len(),
            forall|i: int| 0 <= i < old_es.len() - 1 ==> new_es[i] == old_es[i],
            new_es.last()@.len() == e1@.len(),
            forall|i: int| 0 <= i < e1@.len() - 1 ==> new_es.last()@[i] == e1@[i],
            new_es.last()@.last()@ == b1@.push(c),
        ensures
            epochs_view(new_es) == epochs_view(old_es).update(
                old_es.len() - 1,
                epochs_view(old_es).last().update(e1@.len() - 1, b1@.push(c)),
            ),
    {
        let le = old_es.len() - 1;
        assert(blocks_view(new_es.last()@) =~= blocks_view(e1@).update(e1@.len() - 1, b1@.push(c)));
        assert(epochs_view(new_es) =~= epochs_view(old_es).update(
            le,
            epochs_view(old_es).last().update(e1@.len() - 1, b1@.push(c)),
        ));
    }

    /// Appends `c` at the next position of the current block. With `Keep`, `c`
    /// can be witnessed afterwards.
    pub fn insert(&mut self, witness: Witness, c: Bytes32) -> (r: Result<Position, TreeError>)
        requires
            old(self).wf(),
        ensures
            final(self).wf(),
            r is Err <==> old(self).current_block().len() == TIER_CAPACITY,
            r is Err ==> *final(self) == *old(self),
            r is Ok ==> {
                let es = old(self).contents();
                let le = es.len() - 1;
                let lb = es.last().len() - 1;
                &&& r->Ok_0 == old(self).next_position()
                &&& final(self).contents() == es.update(le, es.last().update(lb, es.last().last().push(c)))
                &&& final(self).kept_entries() == if witness == Witness::Keep {
                    old(self).kept_entries().push((c, r->Ok_0))
                } else {
                    old(self).kept_entries()
                }
                &&& final(self).contents()[r->Ok_0.epoch as int][r->Ok_0.block as int][r->Ok_0.commitment as int] == c
            },
    {
        let le = self.epochs.len() - 1;
        let lb = self.epochs[le].len() - 1;
        let n = self.epochs[le][lb].len();
        proof {
            let es = self.contents();
            assert(es.last().last().len() == n);
            assert(es.len() == self.epochs.len());
            assert(es.last().len() == self.epochs@[le as int].len());
        }
        if n == TIER_CAPACITY {
            return Err(TreeError::Full);
        }
        let ghost old_es = self.epochs@;
        let ghost old_self = *self;
        let pos = Position { epoch: le as u16, block: lb as u16, commitment: n as u16 };
        let mut e = self.epochs.pop().unwrap();
        let ghost e1 = e;
        let mut b = e.pop().unwrap();
        let ghost b1 = b;
        b.push(c);
        e.push(b);
        self.epochs.push(e);
        proof {
            Self::lemma_view_push_commitment(old_es, self.epochs@, e1, b1, c);
        }
        if witness == Witness::Keep {
            self.kept.push((c, pos));
        }
        proof {
            let es = old_self.contents();
            let nes = self.contents();
            assert forall|k: int| 0 <= k < self.kept_entries().len() implies {
                let (c2, p) = #[trigger] self.kept_entries()[k];
                holds(nes, p) && nes[p.epoch as int][p.block as int][p.commitment as int] == c2
            } by {
                if k < old_self.kept_entries().len() {
                    assert(self.kept_entries()[k] == old_self.kept_entries()[k]);
                }
            }
            assert forall|e2: int, b2: int|
                0 <= e2 < nes.len() && 0 <= b2 < nes[e2].len() implies #[trigger] nes[e2][b2].len() <= TIER_CAPACITY by {
                assert(es[e2][b2].len() <= TIER_CAPACITY);
            }
            assert forall|e2: int| 0 <= e2 < nes.len() implies #[trigger] nes[e2].len() <= TIER_CAPACITY by {
                assert(es[e2].len() <= TIER_CAPACITY);
            }
        }
        Ok(pos)
    }

    /// Seals the current block and opens the next one in the same epoch.
    pub fn end_block(&mut self) -> (r: Result<(), TreeError>)
        requires
            old(self).wf(),
        ensures
            final(self).wf(),
            r is Err <==> old(self).contents().last().len() == TIER_CAPACITY,
            r is Err ==> *final(self) == *old(self),
            r is Ok ==> {
                let es = old(self).contents();
                &&& final(self).contents() == es.update(es.len() - 1, es.last().push(Seq::<Bytes32>::empty()))
                &&& final(self).kept_entries() == old(self).kept_entries()
            },
    {
        let le = self.epochs.len() - 1;
        proof {
            assert(self.contents().last().len() == self.epochs@[le as int].len());
        }
        if self.epochs[le].len() == TIER_CAPACITY {
            return Err(TreeError::Full);
        }
        let ghost old_self = *self;
        let mut e = self.epochs.pop().unwrap();
        let ghost e1 = e;
        e.push(Vec::new());
        self.epochs.push(e);
        proof {
            let es = old_self.contents();
            let nes = self.contents();
            assert(blocks_view(e@) =~= blocks_view(e1@).push(Seq::<Bytes32>::empty()));
            assert(nes =~= es.update(es.len() - 1, es.last().push(Seq::<Bytes32>::empty())));
            assert forall|k: int| 0 <= k < self.kept_entries().len() implies {
                let (c2, p) = #[trigger] self.kept_entries()[k];
                holds(nes, p) && nes[p.epoch as int][p.block as int][p.commitment as int] == c2
            } by {
                assert(self.kept_entries()[k] == old_self.kept_entries()[k]);
            }
            assert forall|e2: int, b2: int|
                0 <= e2 < nes.len() && 0 <= b2 < nes[e2].len() implies #[trigger] nes[e2][b2].len() <= TIER_CAPACITY by {
                if !(e2 == es.len() - 1 && b2 == es.last().len()) {
                    assert(es[e2][b2].len() <= TIER_CAPACITY);
                }
            }
            assert forall|e2: int| 0 <= e2 < nes.len() implies #[trigger] nes[e2].len() <= TIER_CAPACITY by {
                assert(es[e2].len() <= TIER_CAPACITY);
            }
        }
        Ok(())
    }

    /// Seals the current epoch, after sealing its current block if anything is
    /// in it, and opens the next epoch with an empty block.
    pub fn end_epoch(&mut self) -> (r: Result<(), TreeError>)
        requires
            old(self).wf(),
        ensures
            final(self).wf(),
            r is Err <==> old(self).contents().len() == TIER_CAPACITY,
            r is Err ==> *final(self) == *old(self),
            r is Ok ==> {
                let es = old(self).contents();
                let sealed = if es.last().last().len() == 0 { es.last().drop_last() } else { es.last() };
                &&& final(self).contents() == es.update(es.len() - 1, sealed).push(seq![Seq::<Bytes32>::empty()])
                &&& final(self).kept_entries() == old(self).kept_entries()
            },
    {
        if self.epochs.len() == TIER_CAPACITY {
            return Err(TreeError::Full);
        }
        let ghost old_self = *self;
        let ghost es = old_self.contents();
        let mut e = self.epochs.pop().unwrap();
        let ghost e1 = e;
        let lb = e.len() - 1;
        proof {
            assert(es.last() == blocks_view(e1@));
        }
        if e[lb].len() == 0 {
            let _ = e.pop();
        }
        self.epochs.push(e);
        let mut fresh: Vec<Vec<Bytes32>> = Vec::new();
        fresh.push(Vec::new());
        self.epochs.push(fresh);
        proof {
            let nes = self.contents();
            let sealed = if es.last().last().len() == 0 { es.last().drop_last() } else { es.last() };
            assert(blocks_view(e@) =~= sealed);
            assert(blocks_view(fresh@) =~= seq![Seq::<Bytes32>::empty()]);
            assert(nes =~= es.update(es.len() - 1, sealed).push(seq![Seq::<Bytes32>::empty()]));
            assert forall|k: int| 0 <= k < self.kept_entries().len() implies {
                let (c2, p) = #[trigger] self.kept_entries()[k];
                holds(nes, p) && nes[p.epoch as int][p.block as int][p.commitment as int] == c2
            } by {
                assert(self.kept_entries()[k] == old_self.kept_entries()[k]);
                let p = self.kept_entries()[k].1;
                assert(holds(es, p));
            }
            assert forall|e2: int, b2: int|
                0 <= e2 < nes.len() && 0 <= b2 < nes[e2].len() implies #[trigger] nes[e2][b2].len() <= TIER_CAPACITY by {
                if e2 < es.len() {
                    assert(es[e2][b2].len() <= TIER_CAPACITY);
                }
            }
            assert forall|e2: int| 0 <= e2 < nes.len() implies #[trigger] nes[e2].len() <= TIER_CAPACITY by {
                if e2 < es.len() {
                    assert(es[e2].len() <= TIER_CAPACITY);
                }
            }
        }
        Ok(())
    }

    /// The position the next commitment would take, if the current block has room.
    pub fn position(&self) -> (r: Option<Position>)
        requires
            self.wf(),
        ensures
            r is Some <==> self.current_block().len() < TIER_CAPACITY,
            r is Some ==> r->Some_0 == self.next_position(),
    {
        let le = self.epochs.len() - 1;
        let lb = self.epochs[le].len() - 1;
        let n = self.epochs[le][lb].len();
        proof {
            assert(self.contents().last().last().len() == n);
        }
        if n == TIER_CAPACITY {
            None
        } else {
            Some(Position { epoch: le as u16, block: lb as u16, commitment: n as u16 })
        }
    }

    fn find_kept(&self, c: &Bytes32) -> (r: Option<usize>)
        ensures
            r is Some <==> self.is_kept(*c),
            r is Some ==> r->Some_0 < self.kept_entries().len() && self.kept_entries()[r->Some_0 as int].0@ == c@,
    {
        let mut i: usize = 0;
        while i < self.kept.len()
            invariant
                0 <= i <= self.kept.len(),
                forall|k: int| 0 <= k < i ==> (#[trigger] self.kept_entries()[k]).0@ != c@,
            decreases self.kept.len() - i,
        {
            if bytes_eq(&self.kept[i].0, c) {
                return Some(i);
            }
            i = i + 1;
        }
        None
    }

    /// The inclusion proof of a kept commitment, against the current root.
    pub fn witness(&self, c: &Bytes32) -> (r: Option<Proof>)
        requires
            self.wf(),
        ensures
            r is Some <==> self.is_kept(*c),
            r is Some ==> {
                let p = r->Some_0;
                &&& p.commitment@ == c@
                &&& p.well_formed()
                &&& self.contents()[p.position.epoch as int][p.position.block as int][p.position.commitment as int] == p.commitment
                &&& holds(self.contents(), p.position)
                &&& seq_view(p.path@) == witness_path(self.contents(), p.position)
                &&& p.root_spec() == self.root_spec()
            },
    {
        let k = match self.find_kept(c) {
            Some(k) => k,
            None => return None,
        };
        let (cm, pos) = self.kept[k];
        let ghost es = self.contents();
        proof {
            assert(self.kept_entries()[k as int] == (cm, pos));
            lemma_witness_verifies(es, pos);
        }
        let e = pos.epoch as usize;
        let b = pos.block as usize;
        proof {
            self.lemma_epoch_capacity(e as int);
            assert(es[e as int][b as int] == self.epochs@[e as int]@[b as int]@);
        }
        proof {
            reveal_with_fuel(pow4, 9);
            assert(es[e as int][b as int].len() <= TIER_CAPACITY);
        }
        let items1 = leaf_hashes(&self.epochs[e][b]);
        let mut path = tier_path_exec(&items1, 0, items1.len(), pos.commitment as usize, 8, 0);
        let items2 = epoch_items_exec(&self.epochs[e], e == self.epochs.len() - 1);
        let mut p2 = tier_path_exec(&items2, 0, items2.len(), b, 8, 8);
        let items3 = self.global_items_exec();
        let mut p3 = tier_path_exec(&items3, 0, items3.len(), e, 8, 16);
        proof {
            assert(seq_view(items1@).subrange(0, items1.len() as int) =~= seq_view(items1@));
            assert(seq_view(items2@).subrange(0, items2.len() as int) =~= seq_view(items2@));
            assert(seq_view(items3@).subrange(0, items3.len() as int) =~= seq_view(items3@));
        }
        let ghost q1 = path@;
        let ghost q2 = p2@;
        let ghost q3 = p3@;
        path.append(&mut p2);
        path.append(&mut p3);
        proof {
            assert(seq_view(path@) =~= seq_view(q1) + seq_view(q2) + seq_view(q3));
            assert(cm@ == c@);
        }
        Some(Proof { position: pos, commitment: cm, path })
    }

    /// Stops keeping `c`: afterwards it cannot be witnessed. Says whether it was kept.
    pub fn forget(&mut self, c: &Bytes32) -> (r: bool)
        requires
            old(self).wf(),
        ensures
            final(self).wf(),
            r == old(self).is_kept(*c),
            !final(self).is_kept(*c),
            final(self).contents() == old(self).contents(),
            forall|d: Bytes32| d@ != c@ ==> (final(self).is_kept(d) <==> old(self).is_kept(d)),
    {
        let ghost old_self = *self;
        let mut kept: Vec<(Bytes32, Position)> = Vec::new();
        let mut found = false;
        let mut i: usize = 0;
        while i < self.kept.len()
            invariant
                0 <= i <= self.kept.len(),
                *self == old_self,
                old_self.wf(),
                found <==> exists|k: int| 0 <= k < i && (#[trigger] self.kept@[k]).0@ == c@,
                forall|k: int| 0 <= k < kept.len() ==> (#[trigger] kept@[k]).0@ != c@,
                forall|k: int| 0 <= k < kept.len() ==> exists|j: int| 0 <= j < i && self.kept@[j] == #[trigger] kept@[k],
                forall|j: int| 0 <= j < i && (#[trigger] self.kept@[j]).0@ != c@ ==> exists|k: int| 0 <= k < kept.len() && kept@[k] == self.kept@[j],
            decreases self.kept.len() - i,
        {
            let entry = self.kept[i];
            let ghost prev = kept@;
            if bytes_eq(&entry.0, c) {
                found = true;
            } else {
                kept.push(entry);
                assert(kept@[kept.len() - 1] == self.kept@[i as int]);
            }
            proof {
                assert forall|k: int| 0 <= k < kept.len() implies exists|j: int| 0 <= j < i + 1 && self.kept@[j] == #[trigger] kept@[k] by {
                    if k < prev.len() {
                        assert(kept@[k] == prev[k]);
                        let j0 = choose|j: int| 0 <= j < i && self.kept@[j] == prev[k];
                        assert(self.kept@[j0] == kept@[k]);
                    } else {
                        assert(self.kept@[i as int] == kept@[k]);
                    }
                }
                assert forall|j: int| 0 <= j < i + 1 && (#[trigger] self.kept@[j]).0@ != c@ implies exists|k: int| 0 <= k < kept.len() && kept@[k] == self.kept@[j] by {
                    if j < i {
                        let k0 = choose|k: int| 0 <= k < prev.len() && prev[k] == self.kept@[j];
                        assert(kept@[k0] == prev[k0]);
                    } else {
                        assert(kept@[kept.len() - 1] == self.kept@[j]);
                    }
                }
                assert(found <==> exists|k: int| 0 <= k < i + 1 && (#[trigger] self.kept@[k]).0@ == c@) by {
                    if found && !(entry.0@ == c@) {
                        let k0 = choose|k: int| 0 <= k < i && (#[trigger] self.kept@[k]).0@ == c@;
                        assert(0 <= k0 < i + 1);
                    }
                    if exists|k: int| 0 <= k < i + 1 && (#[trigger] self.kept@[k]).0@ == c@ {
                        let k0 = choose|k: int| 0 <= k < i + 1 && (#[trigger] self.kept@[k]).0@ == c@;
                        if k0 < i {
                            assert(exists|k: int| 0 <= k < i && (#[trigger] self.kept@[k]).0@ == c@);
                        }
                    }
                }
            }
            i = i + 1;
        }
        let ghost newk = kept@;
        self.kept = kept;
        proof {
            assert(self.kept@ == newk);
            let es = self.contents();
            assert forall|k: int| 0 <= k < self.kept_entries().len() implies {
                let (c2, p) = #[trigger] self.kept_entries()[k];
                holds(es, p) && es[p.epoch as int][p.block as int][p.commitment as int] == c2
            } by {
                assert(newk[k] == self.kept@[k]);
                let j = choose|j: int| 0 <= j < old_self.kept@.len() && old_self.kept@[j] == newk[k];
                assert(old_self.kept_entries()[j] == self.kept_entries()[k]);
            }
            assert forall|d: Bytes32| d@ != c@ implies (self.is_kept(d) <==> old_self.is_kept(d)) by {
                if old_self.is_kept(d) {
                    let j = choose|j: int| 0 <= j < old_self.kept_entries().len() && (#[trigger] old_self.kept_entries()[j]).0@ == d@;
                    assert(old_self.kept@[j].0@ != c@);
                    let k = choose|k: int| 0 <= k < newk.len() && newk[k] == old_self.kept@[j];
                    assert(self.kept_entries()[k].0@ == d@);
                }
                if self.is_kept(d) {
                    let k = choose|k: int| 0 <= k < self.kept_entries().len() && (#[trigger] self.kept_entries()[k]).0@ == d@;
                    assert(newk[k] == self.kept@[k]);
                    let j = choose|j: int| 0 <= j < old_self.kept@.len() && old_self.kept@[j] == newk[k];
                    assert(old_self.kept_entries()[j].0@ == d@);
                }
            }
        }
        found
    }
}

} // verus!

verus! {

impl Tree {
    /// Grafts a whole block: the current block is sealed first if anything is in
    /// it, the grafted block takes the next block position, and a new empty
    /// block is opened after it.
    pub fn insert_block(&mut self, block: crate::builder::BlockBuilder) -> (r: Result<(), TreeError>)
        requires
            old(self).wf(),
            block.wf(),
        ensures
            final(self).wf(),
            ({
                let es = old(self).contents();
                let cur = sealed_blocks(es.last());
                &&& (r is Err <==> cur.len() + 2 > TIER_CAPACITY)
                &&& (r is Err ==> *final(self) == *old(self))
                &&& (r is Ok ==> final(self).contents() == es.update(
                    es.len() - 1,
                    cur.push(block.contents()).push(Seq::<Bytes32>::empty()),
                ))
                &&& (r is Ok ==> final(self).kept_entries() == old(self).kept_entries() + placed_in_block(
                    block.kept_entries(),
                    (es.len() - 1) as u16,
                    cur.len() as u16,
                ))
            }),
    {
        let le = self.epochs.len() - 1;
        let lb = self.epochs[le].len() - 1;
        let ghost es = self.contents();
        proof {
            assert(es.last() == blocks_view(self.epochs@[le as int]@));
            assert(es.last().last().len() == self.epochs@[le as int]@[lb as int].len());
        }
        let keep_current = self.epochs[le][lb].len() > 0;
        let base_len = if keep_current { lb + 1 } else { lb };
        if base_len + 2 > TIER_CAPACITY {
            return Err(TreeError::Full);
        }
        let ghost old_self = *self;
        let mut e = self.epochs.pop().unwrap();
        let ghost e1 = e;
        if !keep_current {
            let _ = e.pop();
        }
        let ghost cur = blocks_view(e@);
        assert(cur =~= sealed_blocks(es.last()));
        let ghost bk = block.kept_entries();
        let (commitments, block_kept) = block.into_parts();
        let ghost bc = commitments@;
        let bi = e.len();
        e.push(commitments);
        e.push(Vec::new());
        self.epochs.push(e);
        let ghost placed = placed_in_block(bk, le as u16, bi as u16);
        let ghost ep = self.epochs;
        let mut t: usize = 0;
        while t < block_kept.len()
            invariant
                self.epochs == ep,
                0 <= t <= block_kept.len(),
                block_kept@ == bk,
                placed == placed_in_block(bk, le as u16, bi as u16),
                self.kept@ == old_self.kept@ + placed.subrange(0, t as int),
            decreases block_kept.len() - t,
        {
            let (c, p) = block_kept[t];
            let ghost before = self.kept@;
            self.kept.push((c, Position { epoch: le as u16, block: bi as u16, commitment: p.commitment }));
            assert(placed.subrange(0, t + 1) =~= placed.subrange(0, t as int).push(placed[t as int]));
            assert(self.kept@ =~= old_self.kept@ + placed.subrange(0, t + 1));
            t = t + 1;
        }
        assert(placed.subrange(0, block_kept.len() as int) =~= placed);
        proof {
            let nes = self.contents();
            assert(blocks_view(e@) =~= cur.push(bc).push(Seq::<Bytes32>::empty()));
            assert(nes =~= es.update(es.len() - 1, cur.push(bc).push(Seq::<Bytes32>::empty())));
            assert(bi == cur.len());
            assert forall|k: int| 0 <= k < self.kept_entries().len() implies {
                let (c2, p) = #[trigger] self.kept_entries()[k];
                holds(nes, p) && nes[p.epoch as int][p.block as int][p.commitment as int] == c2
            } by {
                if k < old_self.kept_entries().len() {
                    assert(self.kept_entries()[k] == old_self.kept_entries()[k]);
                    let p = self.kept_entries()[k].1;
                    assert(holds(es, p));
                } else {
                    let u = k - old_self.kept_entries().len();
                    assert(self.kept_entries()[k] == placed[u]);
                    let (c0, p0) = bk[u];
                    assert(p0.commitment < bc.len() && bc[p0.commitment as int] == c0);
                }
            }
            assert forall|e2: int, b2: int|
                0 <= e2 < nes.len() && 0 <= b2 < nes[e2].len() implies #[trigger] nes[e2][b2].len() <= TIER_CAPACITY by {
                if e2 < es.len() - 1 || b2 < cur.len() {
                    assert(es[e2][b2].len() <= TIER_CAPACITY);
                }
            }
            assert forall|e2: int| 0 <= e2 < nes.len() implies #[trigger] nes[e2].len() <= TIER_CAPACITY by {
                assert(es[e2].len() <= TIER_CAPACITY);
            }
        }
        Ok(())
    }

    /// Grafts a whole epoch: the current epoch is sealed first unless it is
    /// still empty (then the grafted epoch takes its place), the grafted epoch
    /// is sealed in, and a new epoch is opened after it.
    pub fn insert_epoch(&mut self, epoch: crate::builder::EpochBuilder) -> (r: Result<(), TreeError>)
        requires
            old(self).wf(),
            epoch.wf(),
        ensures
            final(self).wf(),
            ({
                let es = old(self).contents();
                let fresh = es.last() == seq![Seq::<Bytes32>::empty()];
                let base = if fresh { es.drop_last() } else { es.update(es.len() - 1, sealed_blocks(es.last())) };
                &&& (r is Err <==> base.len() + 2 > TIER_CAPACITY)
                &&& (r is Err ==> *final(self) == *old(self))
                &&& (r is Ok ==> final(self).contents() == base.push(sealed_blocks(epoch.contents())).push(
                    seq![Seq::<Bytes32>::empty()],
                ))
                &&& (r is Ok ==> final(self).kept_entries() == old(self).kept_entries() + placed_in_epoch(
                    epoch.kept_entries(),
                    base.len() as u16,
                ))
            }),
    {
        let le = self.epochs.len() - 1;
        let ghost es = self.contents();
        proof {
            assert(es.last() == blocks_view(self.epochs@[le as int]@));
        }
        let fresh = self.epochs[le].len() == 1 && self.epochs[le][0].len() == 0;
        proof {
            if fresh {
                assert(es.last()[0] == self.epochs@[le as int]@[0]@);
                assert(es.last()[0] =~= Seq::<Bytes32>::empty());
                assert(es.last() =~= seq![Seq::<Bytes32>::empty()]);
            }
            if es.last() == seq![Seq::<Bytes32>::empty()] {
                assert(self.epochs@[le as int]@[0].len() == es.last()[0].len());
            }
        }
        let base_len = if fresh { le } else { le + 1 };
        if base_len + 2 > TIER_CAPACITY {
            return Err(TreeError::Full);
        }
        let ghost old_self = *self;
        let mut e = self.epochs.pop().unwrap();
        if fresh {
            assert(self.contents() =~= es.drop_last());
        } else {
            let lb = e.len() - 1;
            if e[lb].len() == 0 {
                let _ = e.pop();
            }
            assert(blocks_view(e@) =~= sealed_blocks(es.last()));
            self.epochs.push(e);
            assert(self.contents() =~= es.update(es.len() - 1, sealed_blocks(es.last())));
        }
        let ghost base = self.contents();
        let ghost ek = epoch.kept_entries();
        let ghost ec = epoch.contents();
        let (mut blocks, epoch_kept) = epoch.into_parts();
        let lb = blocks.len() - 1;
        if blocks[lb].len() == 0 {
            let _ = blocks.pop();
        }
        let ghost sb = blocks_view(blocks@);
        assert(sb =~= sealed_blocks(epoch.contents()));
        let ei = self.epochs.len();
        self.epochs.push(blocks);
        let mut fresh_epoch: Vec<Vec<Bytes32>> = Vec::new();
        fresh_epoch.push(Vec::new());
        self.epochs.push(fresh_epoch);
        let ghost placed = placed_in_epoch(ek, ei as u16);
        let ghost ep = self.epochs;
        let mut t: usize = 0;
        while t < epoch_kept.len()
            invariant
                self.epochs == ep,
                0 <= t <= epoch_kept.len(),
                epoch_kept@ == ek,
                placed == placed_in_epoch(ek, ei as u16),
                self.kept@ == old_self.kept@ + placed.subrange(0, t as int),
            decreases epoch_kept.len() - t,
        {
            let (c, p) = epoch_kept[t];
            self.kept.push((c, Position { epoch: ei as u16, block: p.block, commitment: p.commitment }));
            assert(placed.subrange(0, t + 1) =~= placed.subrange(0, t as int).push(placed[t as int]));
            assert(self.kept@ =~= old_self.kept@ + placed.subrange(0, t + 1));
            t = t + 1;
        }
        assert(placed.subrange(0, epoch_kept.len() as int) =~= placed);
        proof {
            let nes = self.contents();
            assert(ei == base.len());
            assert(blocks_view(fresh_epoch@) =~= seq![Seq::<Bytes32>::empty()]);
            assert(nes =~= base.push(sb).push(seq![Seq::<Bytes32>::empty()]));
            assert forall|k: int| 0 <= k < self.kept_entries().len() implies {
                let (c2, p) = #[trigger] self.kept_entries()[k];
                holds(nes, p) && nes[p.epoch as int][p.block as int][p.commitment as int] == c2
            } by {
                if k < old_self.kept_entries().len() {
                    assert(self.kept_entries()[k] == old_self.kept_entries()[k]);
                    let p = self.kept_entries()[k].1;
                    assert(holds(es, p));
                    if fresh {
                        assert(p.epoch as int != es.len() - 1);
                    }
                } else {
                    let u = k - old_self.kept_entries().len();
                    assert(self.kept_entries()[k] == placed[u]);
                    let (c0, p0) = ek[u];
                    assert(p0.block < ec.len() && p0.commitment < ec[p0.block as int].len());
                    assert(ec[p0.block as int][p0.commitment as int] == c0);
                    assert(p0.block < sb.len() && sb[p0.block as int] == ec[p0.block as int]);
                }
            }
            assert forall|e2: int, b2: int|
                0 <= e2 < nes.len() && 0 <= b2 < nes[e2].len() implies #[trigger] nes[e2][b2].len() <= TIER_CAPACITY by {
                if e2 < base.len() {
                    assert(es[e2][b2].len() <= TIER_CAPACITY);
                } else if e2 == base.len() {
                    assert(epoch.contents()[b2].len() <= TIER_CAPACITY);
                }
            }
            assert forall|e2: int| 0 <= e2 < nes.len() implies #[trigger] nes[e2].len() <= TIER_CAPACITY by {
                if e2 < base.len() {
                    assert(es[e2].len() <= TIER_CAPACITY);
                }
            }
        }
        Ok(())
    }
}

} // verus!

verus! {

/// A commitment inserted with `Forget` can never be witnessed, unless it was
/// already kept: insertion with `Forget` leaves the kept entries as they were.
pub proof fn lemma_forgotten_insert_not_witnessed(before: Tree, after: Tree, c: Bytes32)
    requires
        after.kept_entries() == before.kept_entries(),
        !before.is_kept(c),
    ensures
        !after.is_kept(c),
{
}

/// The root is a function of the commitments, their order and the block and
/// epoch boundaries alone.
pub proof fn lemma_root_determined_by_contents(a: Tree, b: Tree)
    requires
        a.contents() == b.contents(),
    ensures
        a.root_spec() == b.root_spec(),
        forall|p: Position| witness_path(a.contents(), p) == witness_path(b.contents(), p),
{
}

/// After an epoch is sealed, the next commitment goes to commitment 0 of block
/// 0 of the next epoch.
pub proof fn lemma_epoch_boundary_position(before: Tree, after: Tree)
    requires
        before.wf(),
        ({
            let es = before.contents();
            let sealed = if es.last().last().len() == 0 { es.last().drop_last() } else { es.last() };
            after.contents() == es.update(es.len() - 1, sealed).push(seq![Seq::<Bytes32>::empty()])
        }),
    ensures
        after.next_position() == (Position { epoch: before.contents().len() as u16, block: 0, commitment: 0 }),
{
    let es = before.contents();
    let sealed = if es.last().last().len() == 0 { es.last().drop_last() } else { es.last() };
    let nes = es.update(es.len() - 1, sealed).push(seq![Seq::<Bytes32>::empty()]);
    assert(nes.last() == seq![Seq::<Bytes32>::empty()]);
    assert(nes.len() == es.len() + 1);
}

/// Empty tiers: a sealed empty block or epoch has the finished-empty root; an
/// open empty epoch, and the global root of a fresh tree, are zero.
pub proof fn lemma_empty_tier_roots()
    ensures
        sealed_block_root(Seq::<Bytes32>::empty()) == one_spec(),
        epoch_root(sealed_blocks(seq![Seq::<Bytes32>::empty()]), false) == one_spec(),
        epoch_root(seq![Seq::<Bytes32>::empty()], true) == zero_spec(),
        global_root(seq![seq![Seq::<Bytes32>::empty()]]) == zero_spec(),
{
    let fresh = seq![Seq::<Bytes32>::empty()];
    assert(sealed_blocks(fresh) =~= Seq::<Seq<Bytes32>>::empty());
    assert(live_blocks(fresh, true) =~= Seq::<Seq<Bytes32>>::empty());
    assert(epoch_items(fresh, true).len() == 0);
    assert(live_epochs(seq![fresh]) =~= Seq::<Seq<Seq<Bytes32>>>::empty());
    assert(global_items(seq![fresh]).len() == 0);
}

/// Grafting an epoch onto a tree whose current epoch is empty gives the same
/// commitments, root and authentication paths as inserting the same blocks in
/// place and then sealing the epoch.
pub proof fn lemma_graft_epoch_matches_inline(prefix: Seq<Seq<Seq<Bytes32>>>, blocks: Seq<Seq<Bytes32>>)
    requires
        blocks.len() >= 1,
    ensures
        ({
            let fresh = seq![Seq::<Bytes32>::empty()];
            let before_graft = prefix.push(fresh);
            let grafted = before_graft.drop_last().push(sealed_blocks(blocks)).push(fresh);
            let before_inline = prefix.push(blocks);
            let sealed = if blocks.last().len() == 0 { blocks.drop_last() } else { blocks };
            let inline = before_inline.update(prefix.len() as int, sealed).push(fresh);
            &&& grafted == inline
            &&& global_root(grafted) == global_root(inline)
            &&& forall|p: Position| witness_path(grafted, p) == witness_path(inline, p)
        }),
{
    let fresh = seq![Seq::<Bytes32>::empty()];
    let before_graft = prefix.push(fresh);
    let grafted = before_graft.drop_last().push(sealed_blocks(blocks)).push(fresh);
    let before_inline = prefix.push(blocks);
    let sealed = if blocks.last().len() == 0 { blocks.drop_last() } else { blocks };
    let inline = before_inline.update(prefix.len() as int, sealed).push(fresh);
    assert(before_graft.drop_last() =~= prefix);
    assert(grafted =~= inline);
}

} // verus!
