//! Tree-less accumulators for one block or one epoch, grafted onto a tree as a
//! whole.
use crate::position::{Position, TIER_CAPACITY};
use crate::primitives::Bytes32;
use crate::tree::{blocks_view, epoch_root, sealed_block_root, Tree, TreeError, Witness};
use vstd::prelude::*;

verus! {

/// The commitments of one block, gathered apart from any tree, with those to
/// keep for witnessing.
pub struct BlockBuilder {
    commitments: Vec<Bytes32>,
    kept: Vec<(Bytes32, Position)>,
}

impl BlockBuilder {
    pub closed spec fn contents(&self) -> Seq<Bytes32> {
        self.commitments@
    }

    /// The kept commitments, at positions within this block (epoch and block 0).
    pub closed spec fn kept_entries(&self) -> Seq<(Bytes32, Position)> {
        self.kept@
    }

    pub open spec fn wf(&self) -> bool {
        &&& self.contents().len() <= TIER_CAPACITY
        &&& forall|t: int|
            0 <= t < self.kept_entries().len() ==> {
                let (c, p) = #[trigger] self.kept_entries()[t];
                &&& p.epoch == 0 && p.block == 0
                &&& (p.commitment as int) < self.contents().len()
                &&& self.contents()[p.commitment as int] == c
            }
    }

    pub fn new() -> (r: BlockBuilder)
        ensures
            r.wf(),
            r.contents() == Seq::<Bytes32>::empty(),
            r.kept_entries().len() == 0,
    {
        BlockBuilder { commitments: Vec::new(), kept: Vec::new() }
    }

    /// Appends a commitment; `Full` once the block holds `4^8` of them. With
    /// `Keep` it can be witnessed once the block is grafted.
    pub fn insert(&mut self, witness: Witness, c: Bytes32) -> (r: Result<(), TreeError>)
        requires
            old(self).wf(),
        ensures
            final(self).wf(),
            r is Err <==> old(self).contents().len() >= TIER_CAPACITY,
            r is Ok ==> final(self).contents() == old(self).contents().push(c),
            r is Ok ==> final(self).kept_entries() == if witness == Witness::Keep {
                old(self).kept_entries().push(
                    (c, Position { epoch: 0, block: 0, commitment: old(self).contents().len() as u16 }),
                )
            } else {
                old(self).kept_entries()
            },
            r is Err ==> *final(self) == *old(self),
    {
        if self.commitments.len() >= TIER_CAPACITY {
            return Err(TreeError::Full);
        }
        let ghost old_self = *self;
        let n = self.commitments.len();
        self.commitments.push(c);
        if witness == Witness::Keep {
            self.kept.push((c, Position { epoch: 0, block: 0, commitment: n as u16 }));
        }
        proof {
            assert forall|t: int| 0 <= t < self.kept_entries().len() implies {
                let (c2, p) = #[trigger] self.kept_entries()[t];
                &&& p.epoch == 0 && p.block == 0
                &&& (p.commitment as int) < self.contents().len()
                &&& self.contents()[p.commitment as int] == c2
            } by {
                if t < old_self.kept_entries().len() {
                    assert(self.kept_entries()[t] == old_self.kept_entries()[t]);
                }
            }
        }
        Ok(())
    }

    pub fn into_parts(self) -> (r: (Vec<Bytes32>, Vec<(Bytes32, Position)>))
        ensures
            r.0@ == self.contents(),
            r.1@ == self.kept_entries(),
    {
        (self.commitments, self.kept)
    }

    /// The root of the block as sealed.
    pub fn root(&self) -> (r: Bytes32)
        requires
            self.wf(),
        ensures
            r@ == sealed_block_root(self.contents()),
    {
        crate::tree::sealed_block_root_of(&self.commitments)
    }
}

/// The blocks of one epoch, gathered apart from any tree.
pub struct EpochBuilder {
    blocks: Vec<Vec<Bytes32>>,
    kept: Vec<(Bytes32, Position)>,
}

impl EpochBuilder {
    pub closed spec fn contents(&self) -> Seq<Seq<Bytes32>> {
        blocks_view(self.blocks@)
    }

    /// The kept commitments, at positions within this epoch (epoch 0).
    pub closed spec fn kept_entries(&self) -> Seq<(Bytes32, Position)> {
        self.kept@
    }

    pub open spec fn wf(&self) -> bool {
        &&& 1 <= self.contents().len() <= TIER_CAPACITY
        &&& forall|b: int| 0 <= b < self.contents().len() ==> #[trigger] self.contents()[b].len() <= TIER_CAPACITY
        &&& forall|t: int|
            0 <= t < self.kept_entries().len() ==> {
                let (c, p) = #[trigger] self.kept_entries()[t];
                &&& p.epoch == 0
                &&& (p.block as int) < self.contents().len()
                &&& (p.commitment as int) < self.contents()[p.block as int].len()
                &&& self.contents()[p.block as int][p.commitment as int] == c
            }
    }

    pub fn new() -> (r: EpochBuilder)
        ensures
            r.wf(),
            r.contents() == seq![Seq::<Bytes32>::empty()],
            r.kept_entries().len() == 0,
    {
        let mut blocks: Vec<Vec<Bytes32>> = Vec::new();
        blocks.push(Vec::new());
        let r = EpochBuilder { blocks, kept: Vec::new() };
        assert(r.contents() =~= seq![Seq::<Bytes32>::empty()]);
        r
    }

    /// Appends a commitment to the current block. With `Keep` it can be
    /// witnessed once the epoch is grafted.
    pub fn insert(&mut self, witness: Witness, c: Bytes32) -> (r: Result<(), TreeError>)
        requires
            old(self).wf(),
        ensures
            final(self).wf(),
            r is Err <==> old(self).contents().last().len() == TIER_CAPACITY,
            r is Ok ==> final(self).contents() == old(self).contents().update(
                old(self).contents().len() - 1,
                old(self).contents().last().push(c),
            ),
            r is Ok ==> final(self).kept_entries() == if witness == Witness::Keep {
                old(self).kept_entries().push(
                    (
                        c,
                        Position {
                            epoch: 0,
                            block: (old(self).contents().len() - 1) as u16,
                            commitment: old(self).contents().last().len() as u16,
                        },
                    ),
                )
            } else {
                old(self).kept_entries()
            },
            r is Err ==> *final(self) == *old(self),
    {
        let n = self.blocks.len();
        proof {
            assert(self.contents().last().len() == self.blocks@[n - 1].len());
        }
        if self.blocks[n - 1].len() == TIER_CAPACITY {
            return Err(TreeError::Full);
        }
        let ghost old_blocks = self.contents();
        let ghost old_self = *self;
        let mut b = self.blocks.pop().unwrap();
        let k = b.len();
        b.push(c);
        self.blocks.push(b);
        if witness == Witness::Keep {
            self.kept.push((c, Position { epoch: 0, block: (n - 1) as u16, commitment: k as u16 }));
        }
        proof {
            assert(self.contents() =~= old_blocks.update(n - 1, old_blocks.last().push(c)));
            assert forall|i: int| 0 <= i < self.contents().len() implies #[trigger] self.contents()[i].len() <= TIER_CAPACITY by {
                assert(old_blocks[i].len() <= TIER_CAPACITY);
            }
            assert forall|t: int| 0 <= t < self.kept_entries().len() implies {
                let (c2, p) = #[trigger] self.kept_entries()[t];
                &&& p.epoch == 0
                &&& (p.block as int) < self.contents().len()
                &&& (p.commitment as int) < self.contents()[p.block as int].len()
                &&& self.contents()[p.block as int][p.commitment as int] == c2
            } by {
                if t < old_self.kept_entries().len() {
                    assert(self.kept_entries()[t] == old_self.kept_entries()[t]);
                }
            }
        }
        Ok(())
    }

    /// Seals the current block and opens another.
    pub fn end_block(&mut self) -> (r: Result<(), TreeError>)
        requires
            old(self).wf(),
        ensures
            final(self).wf(),
            r is Err <==> old(self).contents().len() == TIER_CAPACITY,
            r is Ok ==> final(self).contents() == old(self).contents().push(Seq::<Bytes32>::empty()),
            final(self).kept_entries() == old(self).kept_entries(),
            r is Err ==> final(self).contents() == old(self).contents(),
    {
        if self.blocks.len() == TIER_CAPACITY {
            return Err(TreeError::Full);
        }
        let ghost old_blocks = self.contents();
        let ghost old_self = *self;
        self.blocks.push(Vec::new());
        proof {
            assert forall|t: int| 0 <= t < self.kept_entries().len() implies {
                let (c2, p) = #[trigger] self.kept_entries()[t];
                &&& p.epoch == 0
                &&& (p.block as int) < self.contents().len()
                &&& (p.commitment as int) < self.contents()[p.block as int].len()
                &&& self.contents()[p.block as int][p.commitment as int] == c2
            } by {
                assert(self.kept_entries()[t] == old_self.kept_entries()[t]);
                assert(self.contents()[old_self.kept_entries()[t].1.block as int] == old_blocks[old_self.kept_entries()[t].1.block as int]);
            }
            assert(self.contents() =~= old_blocks.push(Seq::<Bytes32>::empty()));
            assert forall|i: int| 0 <= i < self.contents().len() implies #[trigger] self.contents()[i].len() <= TIER_CAPACITY by {
                if i < old_blocks.len() {
                    assert(old_blocks[i].len() <= TIER_CAPACITY);
                }
            }
        }
        Ok(())
    }

    /// The blocks as sealed: an empty current block is left out.
    pub open spec fn sealed(&self) -> Seq<Seq<Bytes32>> {
        crate::tree::sealed_blocks(self.contents())
    }

    /// The root of the epoch as sealed.
    pub fn root(&self) -> (r: Bytes32)
        requires
            self.wf(),
        ensures
            r@ == epoch_root(self.sealed(), false),
    {
        proof {
            assert forall|b: int| 0 <= b < self.blocks.len() implies (#[trigger] self.blocks@[b]).len() <= TIER_CAPACITY by {
                assert(self.contents()[b].len() == self.blocks@[b].len());
            }
        }
        crate::tree::sealed_epoch_root_of(&self.blocks)
    }

    pub fn into_parts(self) -> (r: (Vec<Vec<Bytes32>>, Vec<(Bytes32, Position)>))
        ensures
            blocks_view(r.0@) == self.contents(),
            r.1@ == self.kept_entries(),
    {
        (self.blocks, self.kept)
    }
}

} // verus!
