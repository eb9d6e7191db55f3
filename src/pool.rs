//! The per-block state of the shielded pool: the commitment tree, the spent
//! and quarantined nullifiers, and the window of accepted anchors.
use crate::position::TIER_CAPACITY;
use crate::primitives::{bytes_eq, Bytes32};
use crate::tier::seq_view;
use crate::tree::{Tree, Witness};
use vstd::prelude::*;

verus! {

/// Why a transaction or a block was refused.
#[derive(Clone, Copy, Debug, PartialEq, Eq, Structural)]
pub enum PoolError {
    /// The transaction spends against a root outside the window of accepted anchors.
    AnchorUnknown,
    /// A nullifier was spent before, or twice in one transaction.
    NullifierAlreadySpent,
    /// The commitment tree has no room left at some tier.
    TreeFull,
}

/// A new note as published: its commitment, ephemeral key and ciphertext.
#[derive(Clone, Debug)]
pub struct NotePayload {
    pub note_commitment: Bytes32,
    pub ephemeral_key: Bytes32,
    pub encrypted_note: Vec<u8>,
}

/// What a block published: its new notes and the nullifiers it spent.
#[derive(Clone, Debug)]
pub struct CompactBlock {
    pub height: u64,
    pub fragments: Vec<NotePayload>,
    pub nullifiers: Vec<Bytes32>,
}

pub open spec fn commitments_of(ps: Seq<NotePayload>) -> Seq<Bytes32> {
    ps.map_values(|p: NotePayload| p.note_commitment)
}

/// Whether `x` occurs in `s`.
pub open spec fn occurs(s: Seq<Seq<u8>>, x: Seq<u8>) -> bool {
    exists|i: int| 0 <= i < s.len() && s[i] == x
}

/// Whether some entry of `s` occurs earlier in `s`, or in `spent`.
pub open spec fn any_spent_or_repeated(spent: Seq<Seq<u8>>, s: Seq<Seq<u8>>) -> bool {
    exists|i: int| 0 <= i < s.len() && (occurs(spent, #[trigger] s[i]) || occurs(s.subrange(0, i), s[i]))
}

fn find(s: &Vec<Bytes32>, lo: usize, hi: usize, x: &Bytes32) -> (r: bool)
    requires
        lo <= hi <= s.len(),
    ensures
        r == occurs(seq_view(s@).subrange(lo as int, hi as int), x@),
{
    let ghost v = seq_view(s@).subrange(lo as int, hi as int);
    let mut i = lo;
    while i < hi
        invariant
            lo <= i <= hi <= s.len(),
            v == seq_view(s@).subrange(lo as int, hi as int),
            forall|j: int| 0 <= j < i - lo ==> v[j] != x@,
        decreases hi - i,
    {
        if bytes_eq(&s[i], x) {
            assert(v[i - lo] == x@);
            return true;
        }
        i = i + 1;
    }
    false
}

/// The pool's state between blocks and while a block is assembled.
pub struct ShieldedPool {
    tree: Tree,
    height: u64,
    epoch_duration: u64,
    window: usize,
    anchors: Vec<(u64, Bytes32)>,
    spent: Vec<Bytes32>,
    quarantined: Vec<(Bytes32, u64)>,
    fragments: Vec<NotePayload>,
    block_nullifiers: Vec<Bytes32>,
    witness: Witness,
}

impl ShieldedPool {
    pub closed spec fn spent_set(&self) -> Seq<Seq<u8>> {
        seq_view(self.spent@)
    }

    pub closed spec fn quarantine(&self) -> Seq<(Seq<u8>, u64)> {
        self.quarantined@.map_values(|q: (Bytes32, u64)| (q.0@, q.1))
    }

    pub closed spec fn anchor_roots(&self) -> Seq<Seq<u8>> {
        self.anchors@.map_values(|a: (u64, Bytes32)| a.1@)
    }

    pub closed spec fn anchor_heights(&self) -> Seq<u64> {
        self.anchors@.map_values(|a: (u64, Bytes32)| a.0)
    }

    /// The notes staged for the block being assembled.
    pub closed spec fn staged_fragments(&self) -> Seq<NotePayload> {
        self.fragments@
    }

    /// The nullifiers spent in the block being assembled.
    pub closed spec fn staged_nullifiers(&self) -> Seq<Bytes32> {
        self.block_nullifiers@
    }

    pub closed spec fn tree_view(&self) -> Tree {
        self.tree
    }

    pub closed spec fn height_spec(&self) -> u64 {
        self.height
    }

    pub closed spec fn window_spec(&self) -> nat {
        self.window as nat
    }

    pub closed spec fn epoch_duration_spec(&self) -> u64 {
        self.epoch_duration
    }

    pub closed spec fn wf(&self) -> bool {
        &&& self.tree.wf()
        &&& self.window >= 1
        &&& self.epoch_duration >= 1
        &&& self.anchors.len() <= self.window
    }

    pub open spec fn well_formed(&self) -> bool {
        self.wf()
    }

    /// An empty pool at height 0. Anchors stay accepted for `window` blocks.
    pub fn new(epoch_duration: u64, window: usize, witness: Witness) -> (r: ShieldedPool)
        requires
            epoch_duration >= 1,
            window >= 1,
    ensures
            r.well_formed(),
            r.height_spec() == 0,
            r.spent_set().len() == 0,
            r.quarantine().len() == 0,
            r.anchor_roots().len() == 0,
            r.window_spec() == window,
            r.epoch_duration_spec() == epoch_duration,
            r.staged_fragments().len() == 0,
            r.staged_nullifiers().len() == 0,
    {
        let r = ShieldedPool {
            tree: Tree::new(),
            height: 0,
            epoch_duration,
            window,
            anchors: Vec::new(),
            spent: Vec::new(),
            quarantined: Vec::new(),
            fragments: Vec::new(),
            block_nullifiers: Vec::new(),
            witness,
        };
        assert(r.spent_set() =~= Seq::<Seq<u8>>::empty());
        assert(r.quarantine() =~= Seq::<(Seq<u8>, u64)>::empty());
        assert(r.anchor_roots() =~= Seq::<Seq<u8>>::empty());
        r
    }

    pub fn height(&self) -> (r: u64)
        ensures
            r == self.height_spec(),
    {
        self.height
    }

    pub fn tree(&self) -> (r: &Tree)
        ensures
            *r == self.tree_view(),
    {
        &self.tree
    }

    /// Whether `nf` was spent.
    pub fn is_spent(&self, nf: &Bytes32) -> (r: bool)
        ensures
            r == occurs(self.spent_set(), nf@),
    {
        let r = find(&self.spent, 0, self.spent.len(), nf);
        assert(seq_view(self.spent@).subrange(0, self.spent.len() as int) =~= self.spent_set());
        r
    }

    /// Whether `root` is an accepted anchor.
    pub fn is_valid_anchor(&self, root: &Bytes32) -> (r: bool)
        ensures
            r == occurs(self.anchor_roots(), root@),
    {
        let mut i: usize = 0;
        while i < self.anchors.len()
            invariant
                0 <= i <= self.anchors.len(),
                forall|j: int| 0 <= j < i ==> self.anchor_roots()[j] != root@,
            decreases self.anchors.len() - i,
        {
            if bytes_eq(&self.anchors[i].1, root) {
                assert(self.anchor_roots()[i as int] == root@);
                return true;
            }
            i = i + 1;
        }
        false
    }

    fn check_nullifiers(&self, nullifiers: &Vec<Bytes32>) -> (r: bool)
        ensures
            r == any_spent_or_repeated(self.spent_set(), seq_view(nullifiers@)),
    {
        let ghost s = seq_view(nullifiers@);
        let mut i: usize = 0;
        while i < nullifiers.len()
            invariant
                0 <= i <= nullifiers.len(),
                s == seq_view(nullifiers@),
                forall|j: int| 0 <= j < i ==> !(occurs(self.spent_set(), #[trigger] s[j]) || occurs(s.subrange(0, j), s[j])),
            decreases nullifiers.len() - i,
        {
            let spent = self.is_spent(&nullifiers[i]);
            let again = find(nullifiers, 0, i, &nullifiers[i]);
            if spent || again {
                assert(occurs(self.spent_set(), s[i as int]) || occurs(s.subrange(0, i as int), s[i as int]));
                return true;
            }
            i = i + 1;
        }
        false
    }

    /// Validates a transaction and stages its effects into the current block:
    /// its nullifiers join the spent set and its note commitments the tree.
    /// A transaction that spends must name an accepted anchor. Nothing changes
    /// when it is refused.
    pub fn apply_transaction(&mut self, anchor: &Bytes32, nullifiers: &Vec<Bytes32>, outputs: Vec<NotePayload>) -> (r: Result<(), PoolError>)
        requires
            old(self).well_formed(),
        ensures
            final(self).well_formed(),
            ({
                let o = old(self);
                let nfs = seq_view(nullifiers@);
                let cur = o.tree_view().current_block().len();
                if nfs.len() > 0 && !occurs(o.anchor_roots(), anchor@) {
                    r == Err::<(), PoolError>(PoolError::AnchorUnknown)
                } else if any_spent_or_repeated(o.spent_set(), nfs) {
                    r == Err::<(), PoolError>(PoolError::NullifierAlreadySpent)
                } else if cur + outputs@.len() > TIER_CAPACITY {
                    r == Err::<(), PoolError>(PoolError::TreeFull)
                } else {
                    r is Ok
                }
            }),
            r is Err ==> *final(self) == *old(self),
            r is Ok ==> {
                let es = old(self).tree_view().contents();
                let le = es.len() - 1;
                let lb = es.last().len() - 1;
                &&& final(self).spent_set() == old(self).spent_set() + seq_view(nullifiers@)
                &&& final(self).tree_view().contents() == es.update(
                    le,
                    es.last().update(lb, es.last().last() + commitments_of(outputs@)),
                )
                &&& final(self).anchor_roots() == old(self).anchor_roots()
                &&& final(self).quarantine() == old(self).quarantine()
                &&& final(self).height_spec() == old(self).height_spec()
                &&& final(self).staged_fragments() == old(self).staged_fragments() + outputs@
                &&& final(self).staged_nullifiers() == old(self).staged_nullifiers() + nullifiers@
            },
    {
        if nullifiers.len() > 0 && !self.is_valid_anchor(anchor) {
            return Err(PoolError::AnchorUnknown);
        }
        if self.check_nullifiers(nullifiers) {
            return Err(PoolError::NullifierAlreadySpent);
        }
        let room = match self.tree.position() {
            Some(p) => TIER_CAPACITY - p.commitment as usize,
            None => 0,
        };
        proof {
            assert(self.tree.next_position().commitment as int == self.tree.current_block().len()
                || self.tree.current_block().len() == TIER_CAPACITY);
        }
        if outputs.len() > room {
            return Err(PoolError::TreeFull);
        }
        let ghost old_self = *self;
        let ghost es = self.tree.contents();
        let ghost le = es.len() - 1;
        let ghost lb = es.last().len() - 1;
        let mut i: usize = 0;
        while i < nullifiers.len()
            invariant
                0 <= i <= nullifiers.len(),
                self.spent_set() == old_self.spent_set() + seq_view(nullifiers@).subrange(0, i as int),
                self.block_nullifiers@ == old_self.block_nullifiers@ + nullifiers@.subrange(0, i as int),
                self.fragments@ == old_self.fragments@,
                self.tree == old_self.tree,
                self.anchors == old_self.anchors,
                self.quarantined == old_self.quarantined,
                self.height == old_self.height,
                self.window == old_self.window,
                self.epoch_duration == old_self.epoch_duration,
                old_self.wf(),
            decreases nullifiers.len() - i,
        {
            let ghost prev = self.spent@;
            self.spent.push(nullifiers[i]);
            self.block_nullifiers.push(nullifiers[i]);
            proof {
                assert(nullifiers@.subrange(0, i + 1) =~= nullifiers@.subrange(0, i as int).push(nullifiers@[i as int]));
                assert(seq_view(self.spent@) =~= seq_view(prev).push(nullifiers@[i as int]@));
                assert(seq_view(nullifiers@).subrange(0, i + 1) =~= seq_view(nullifiers@).subrange(0, i as int).push(nullifiers@[i as int]@));
                assert(self.spent_set() =~= old_self.spent_set() + seq_view(nullifiers@).subrange(0, i + 1));
            }
            i = i + 1;
        }
        assert(seq_view(nullifiers@).subrange(0, nullifiers.len() as int) =~= seq_view(nullifiers@));
        assert(nullifiers@.subrange(0, nullifiers.len() as int) =~= nullifiers@);
        let ghost outs = commitments_of(outputs@);
        proof {
            assert(es.last().last() + outs.subrange(0, 0) =~= es.last().last());
            assert(es.last().update(lb, es.last().last()) =~= es.last());
            assert(es.update(le, es.last()) =~= es);
        }
        let mut j: usize = 0;
        while j < outputs.len()
            invariant
                0 <= j <= outputs.len(),
                outs == commitments_of(outputs@),
                room as int == TIER_CAPACITY - es.last().last().len(),
                outputs.len() <= room,
                self.tree.wf(),
                self.tree.contents() == es.update(le, es.last().update(lb, es.last().last() + outs.subrange(0, j as int))),
                es == old_self.tree.contents(),
                le == es.len() - 1,
                lb == es.last().len() - 1,
                self.spent_set() == old_self.spent_set() + seq_view(nullifiers@),
                self.block_nullifiers@ == old_self.block_nullifiers@ + nullifiers@,
                self.fragments@ == old_self.fragments@,
                self.anchors == old_self.anchors,
                self.quarantined == old_self.quarantined,
                self.height == old_self.height,
                self.window == old_self.window,
                self.epoch_duration == old_self.epoch_duration,
                old_self.wf(),
            decreases outputs.len() - j,
        {
            let c = outputs[j].note_commitment;
            let ghost before = self.tree.contents();
            assert(self.tree.current_block() == es.last().last() + outs.subrange(0, j as int));
            let res = self.tree.insert(self.witness, c);
            match res {
                Ok(_) => {},
                Err(_) => {
                    assert(false);
                },
            }
            proof {
                let x = es.last().last() + outs.subrange(0, j as int);
                assert(before.len() == es.len());
                assert(before.last() == es.last().update(lb, x));
                assert(before.last().len() == es.last().len());
                assert(before.last().last() == x);
                assert(before.last().update(lb, x.push(c)) =~= es.last().update(lb, x.push(c)));
                assert(outs[j as int] == c);
                assert(outs.subrange(0, j + 1) =~= outs.subrange(0, j as int).push(c));
                assert(es.last().last() + outs.subrange(0, j + 1) =~= (es.last().last() + outs.subrange(0, j as int)).push(c));
                assert(self.tree.contents() =~= es.update(le, es.last().update(lb, es.last().last() + outs.subrange(0, j + 1))));
            }
            j = j + 1;
        }
        assert(outs.subrange(0, outputs.len() as int) =~= outs);
        let mut outputs = outputs;
        self.fragments.append(&mut outputs);
        Ok(())
    }
}

} // verus!

verus! {

/// The last `w` entries of `s`.
pub open spec fn keep_last<T>(s: Seq<T>, w: nat) -> Seq<T> {
    if s.len() > w {
        s.subrange(s.len() - w, s.len() as int)
    } else {
        s
    }
}

/// The nullifiers of the quarantine entries scheduled for `epoch`, in order.
pub open spec fn scheduled(q: Seq<(Seq<u8>, u64)>, epoch: u64) -> Seq<Seq<u8>> {
    q.filter(|e: (Seq<u8>, u64)| e.1 == epoch).map_values(|e: (Seq<u8>, u64)| e.0)
}

/// The quarantine entries scheduled for another epoch.
pub open spec fn unscheduled(q: Seq<(Seq<u8>, u64)>, epoch: u64) -> Seq<(Seq<u8>, u64)> {
    q.filter(|e: (Seq<u8>, u64)| e.1 != epoch)
}

impl ShieldedPool {
    /// Whether the block at `height` is the last of its epoch.
    pub open spec fn ends_epoch(&self) -> bool {
        (self.height_spec() + 1) % self.epoch_duration_spec() as int == 0
    }

    /// Seals the current block: the tree's block is sealed (and its epoch too
    /// when this block is the last of one), the new root is published as an
    /// anchor, anchors older than the window are dropped, and the block's notes
    /// and nullifiers come out as a compact block.
    pub fn end_block(&mut self) -> (r: Result<CompactBlock, PoolError>)
        requires
            old(self).well_formed(),
            old(self).height_spec() < u64::MAX,
        ensures
            final(self).well_formed(),
            r is Err <==> (old(self).tree_view().contents().last().len() == TIER_CAPACITY || (old(self).ends_epoch()
                && old(self).tree_view().contents().len() == TIER_CAPACITY)),
            r is Err ==> r == Err::<CompactBlock, PoolError>(PoolError::TreeFull) && *final(self) == *old(self),
            r is Ok ==> {
                let es = old(self).tree_view().contents();
                let sealed = es.update(es.len() - 1, es.last().push(Seq::<Bytes32>::empty()));
                let after_epoch = sealed.update(sealed.len() - 1, sealed.last().drop_last()).push(
                    seq![Seq::<Bytes32>::empty()],
                );
                &&& r->Ok_0.height == old(self).height_spec()
                &&& r->Ok_0.fragments@ == old(self).staged_fragments()
                &&& r->Ok_0.nullifiers@ == old(self).staged_nullifiers()
                &&& final(self).staged_fragments().len() == 0
                &&& final(self).staged_nullifiers().len() == 0
                &&& final(self).height_spec() == old(self).height_spec() + 1
                &&& final(self).tree_view().contents() == if old(self).ends_epoch() { after_epoch } else { sealed }
                &&& final(self).anchor_roots() == keep_last(
                    old(self).anchor_roots().push(final(self).tree_view().root_spec()),
                    old(self).window_spec(),
                )
                &&& final(self).anchor_heights() == keep_last(
                    old(self).anchor_heights().push(old(self).height_spec()),
                    old(self).window_spec(),
                )
                &&& final(self).spent_set() == old(self).spent_set()
                &&& final(self).quarantine() == old(self).quarantine()
            },
    {
        let le = self.tree.contents_len();
        let lb = self.tree.current_epoch_len();
        let last_in_epoch = (self.height + 1) % self.epoch_duration == 0;
        if lb == TIER_CAPACITY || (last_in_epoch && le == TIER_CAPACITY) {
            return Err(PoolError::TreeFull);
        }
        let ghost old_self = *self;
        let ghost es = self.tree.contents();
        match self.tree.end_block() {
            Ok(()) => {},
            Err(_) => {
                assert(false);
            },
        }
        let ghost sealed = self.tree.contents();
        if last_in_epoch {
            match self.tree.end_epoch() {
                Ok(()) => {},
                Err(_) => {
                    assert(false);
                },
            }
            proof {
                assert(sealed.last().last() == Seq::<Bytes32>::empty());
            }
        }
        let root = self.tree.root();
        let ghost before = self.anchors@;
        self.anchors.push((self.height, root));
        if self.anchors.len() > self.window {
            let _ = self.anchors.remove(0);
        }
        proof {
            let pushed = before.push((old_self.height, root));
            assert(self.anchors.len() <= self.window);
            if pushed.len() > self.window {
                assert(self.anchors@ == pushed.subrange(1, pushed.len() as int));
                assert(pushed.len() == self.window + 1);
            }
            assert(self.anchor_roots() =~= keep_last(
                old_self.anchor_roots().push(self.tree.root_spec()),
                old_self.window_spec(),
            ));
            assert(self.anchor_heights() =~= keep_last(
                old_self.anchor_heights().push(old_self.height),
                old_self.window_spec(),
            ));
        }
        let mut fragments: Vec<NotePayload> = Vec::new();
        let mut nullifiers: Vec<Bytes32> = Vec::new();
        fragments.append(&mut self.fragments);
        nullifiers.append(&mut self.block_nullifiers);
        let cb = CompactBlock { height: self.height, fragments, nullifiers };
        self.height = self.height + 1;
        Ok(cb)
    }

    /// Holds a nullifier back until the unbonding of `epoch` is settled.
    pub fn quarantine_nullifier(&mut self, nf: &Bytes32, epoch: u64) -> (r: Result<(), PoolError>)
        requires
            old(self).well_formed(),
        ensures
            final(self).well_formed(),
            r is Err <==> occurs(old(self).spent_set(), nf@) || occurs(old(self).quarantine().map_values(|e: (Seq<u8>, u64)| e.0), nf@),
            r is Err ==> r == Err::<(), PoolError>(PoolError::NullifierAlreadySpent) && *final(self) == *old(self),
            r is Ok ==> final(self).quarantine() == old(self).quarantine().push((nf@, epoch)),
            final(self).spent_set() == old(self).spent_set(),
            final(self).anchor_roots() == old(self).anchor_roots(),
            final(self).tree_view() == old(self).tree_view(),
    {
        if self.is_spent(nf) {
            return Err(PoolError::NullifierAlreadySpent);
        }
        let ghost qs = self.quarantine().map_values(|e: (Seq<u8>, u64)| e.0);
        let mut i: usize = 0;
        while i < self.quarantined.len()
            invariant
                0 <= i <= self.quarantined.len(),
                qs == self.quarantine().map_values(|e: (Seq<u8>, u64)| e.0),
                forall|j: int| 0 <= j < i ==> qs[j] != nf@,
                self.wf(),
            decreases self.quarantined.len() - i,
        {
            if bytes_eq(&self.quarantined[i].0, nf) {
                assert(qs[i as int] == nf@);
                return Err(PoolError::NullifierAlreadySpent);
            }
            i = i + 1;
        }
        let ghost before = self.quarantine();
        self.quarantined.push((*nf, epoch));
        assert(self.quarantine() =~= before.push((nf@, epoch)));
        Ok(())
    }

    /// Settles the quarantine entries scheduled for `epoch`: they leave the
    /// quarantine and, unless their spends are reverted, join the spent set.
    /// The spent set only ever grows.
    pub fn apply_scheduled(&mut self, epoch: u64, revert: bool)
        requires
            old(self).well_formed(),
        ensures
            final(self).well_formed(),
            final(self).quarantine() == unscheduled(old(self).quarantine(), epoch),
            final(self).spent_set() == if revert {
                old(self).spent_set()
            } else {
                old(self).spent_set() + scheduled(old(self).quarantine(), epoch)
            },
            final(self).anchor_roots() == old(self).anchor_roots(),
            final(self).tree_view() == old(self).tree_view(),
    {
        let ghost q = self.quarantine();
        let ghost old_spent = self.spent_set();
        let ghost old_self = *self;
        let mut rest: Vec<(Bytes32, u64)> = Vec::new();
        let mut i: usize = 0;
        while i < self.quarantined.len()
            invariant
                0 <= i <= self.quarantined.len(),
                q == self.quarantined@.map_values(|e: (Bytes32, u64)| (e.0@, e.1)),
                rest@.map_values(|e: (Bytes32, u64)| (e.0@, e.1)) == unscheduled(q.subrange(0, i as int), epoch),
                self.spent_set() == if revert { old_spent } else { old_spent + scheduled(q.subrange(0, i as int), epoch) },
                self.wf(),
                self.anchors == old_self.anchors,
                self.tree == old_self.tree,
            decreases self.quarantined.len() - i,
        {
            let e = self.quarantined[i];
            let ghost pre = q.subrange(0, i as int);
            let ghost rest_before = rest@;
            let ghost spent_before = self.spent@;
            proof {
                assert(q.subrange(0, i + 1) =~= pre.push(q[i as int]));
                assert(q.subrange(0, i + 1).drop_last() =~= pre);
                reveal(Seq::filter);
            }
            if e.1 == epoch {
                if !revert {
                    self.spent.push(e.0);
                    proof {
                        assert(seq_view(self.spent@) =~= seq_view(spent_before).push(e.0@));
                        assert(scheduled(q.subrange(0, i + 1), epoch) =~= scheduled(pre, epoch).push(e.0@));
                    }
                }
            } else {
                rest.push(e);
                proof {
                    assert(rest@.map_values(|e: (Bytes32, u64)| (e.0@, e.1)) =~= rest_before.map_values(|e: (Bytes32, u64)| (e.0@, e.1)).push((e.0@, e.1)));
                    assert(scheduled(q.subrange(0, i + 1), epoch) =~= scheduled(pre, epoch));
                }
            }
            i = i + 1;
        }
        proof {
            assert(q.subrange(0, self.quarantined.len() as int) =~= q);
        }
        self.quarantined = rest;
    }
}

} // verus!
