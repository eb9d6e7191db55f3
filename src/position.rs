//! Positions of commitments in the tiered commitment tree.
use vstd::prelude::*;

verus! {

/// The number of leaves of each tier: `4^8`.
pub const TIER_CAPACITY: usize = 65536;

/// The coordinate of a leaf: which epoch, which block in it, which commitment in that block.
#[derive(Clone, Copy, Debug, PartialEq, Eq, Structural)]
pub struct Position {
    pub epoch: u16,
    pub block: u16,
    pub commitment: u16,
}

impl Position {
    /// The position as the 48-bit number `epoch ‖ block ‖ commitment`.
    pub open spec fn value(self) -> int {
        self.epoch as int * 0x1_0000_0000 + self.block as int * 0x1_0000 + self.commitment as int
    }

    /// Lexicographic order on `(epoch, block, commitment)`.
    pub open spec fn before(self, other: Position) -> bool {
        self.epoch < other.epoch || (self.epoch == other.epoch && (self.block < other.block || (
        self.block == other.block && self.commitment < other.commitment)))
    }

    pub fn new(epoch: u16, block: u16, commitment: u16) -> (r: Position)
        ensures
            r.epoch == epoch,
            r.block == block,
            r.commitment == commitment,
    {
        Position { epoch, block, commitment }
    }

    pub fn epoch(&self) -> (r: u16)
        ensures
            r == self.epoch,
    {
        self.epoch
    }

    pub fn block(&self) -> (r: u16)
        ensures
            r == self.block,
    {
        self.block
    }

    pub fn commitment(&self) -> (r: u16)
        ensures
            r == self.commitment,
    {
        self.commitment
    }

    /// The 48-bit packed form.
    pub fn to_u64(&self) -> (r: u64)
        ensures
            r as int == self.value(),
            r < 0x1_0000_0000_0000,
    {
        let e = self.epoch as u64;
        let b = self.block as u64;
        let c = self.commitment as u64;
        assert(e * 0x1_0000_0000 + b * 0x1_0000 + c < 0x1_0000_0000_0000) by (nonlinear_arith)
            requires
                e < 0x1_0000,
                b < 0x1_0000,
                c < 0x1_0000,
        ;
        e * 0x1_0000_0000 + b * 0x1_0000 + c
    }

    /// Whether `self` comes strictly before `other` in insertion order.
    pub fn is_before(&self, other: &Position) -> (r: bool)
        ensures
            r == self.before(*other),
    {
        self.epoch < other.epoch || (self.epoch == other.epoch && (self.block < other.block || (
        self.block == other.block && self.commitment < other.commitment)))
    }
}

/// Insertion order and numeric order agree.
pub proof fn lemma_order_is_numeric(p: Position, q: Position)
    ensures
        p.before(q) <==> p.value() < q.value(),
{
    let (pe, pb, pc) = (p.epoch as int, p.block as int, p.commitment as int);
    let (qe, qb, qc) = (q.epoch as int, q.block as int, q.commitment as int);
    assert(p.before(q) <==> pe * 0x1_0000_0000 + pb * 0x1_0000 + pc < qe * 0x1_0000_0000 + qb
        * 0x1_0000 + qc) by (nonlinear_arith)
        requires
            0 <= pe < 0x1_0000,
            0 <= pb < 0x1_0000,
            0 <= pc < 0x1_0000,
            0 <= qe < 0x1_0000,
            0 <= qb < 0x1_0000,
            0 <= qc < 0x1_0000,
            p.before(q) <==> (pe < qe || (pe == qe && (pb < qb || (pb == qb && pc < qc)))),
    ;
}

} // verus!
