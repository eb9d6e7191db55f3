//! Rendering of a tree as a DOT graph: the global root, its epochs, their
//! blocks and their commitments, each node drawn in a shape and colours
//! derived from its hash.
use crate::position::Position;
use crate::primitives::{zero_bytes, zero_spec, Bytes32};
use crate::state_key::{decimal, to_decimal};
use crate::position::TIER_CAPACITY;
use crate::tree::{hash_leaf, leaf_hash, blocks_view, epoch_root, epoch_root_exec, epochs_view, sealed_block_root, sealed_block_root_of, within_capacity, Tree};
use vstd::prelude::*;
use vstd::string::StringExecFns;

verus! {

/// The shape drawn for a hash whose fourth byte is `k` modulo 16.
pub open spec fn shape_name(k: int) -> Seq<char> {
    if k == 0 { "circle"@ }
    else if k == 1 { "egg"@ }
    else if k == 2 { "triangle"@ }
    else if k == 3 { "diamond"@ }
    else if k == 4 { "trapezium"@ }
    else if k == 5 { "parallelogram"@ }
    else if k == 6 { "house"@ }
    else if k == 7 { "pentagon"@ }
    else if k == 8 { "hexagon"@ }
    else if k == 9 { "septagon"@ }
    else if k == 10 { "octagon"@ }
    else if k == 11 { "invtriangle"@ }
    else if k == 12 { "invtrapezium"@ }
    else if k == 13 { "invhouse"@ }
    else if k == 14 { "square"@ }
    else { "oval"@ }
}

/// A colour-blind-friendly palette of eight colours.
pub open spec fn palette(k: int) -> Seq<char> {
    if k == 0 { "#332288"@ }
    else if k == 1 { "#117733"@ }
    else if k == 2 { "#44AA99"@ }
    else if k == 3 { "#88CCEE"@ }
    else if k == 4 { "#DDCC77"@ }
    else if k == 5 { "#CC6677"@ }
    else if k == 6 { "#AA4499"@ }
    else { "#882255"@ }
}

pub open spec fn hash_shape_spec(h: Seq<u8>) -> Seq<char> {
    shape_name(h[3] as int % 16)
}

/// Two different palette colours, picked by the first two bytes.
pub open spec fn hash_color_spec(h: Seq<u8>) -> Seq<char> {
    let n1 = h[0] as int % 8;
    let m = h[1] as int % 7;
    let n2 = if m >= n1 { m + 1 } else { m };
    palette(n1) + ":"@ + palette(n2)
}

pub fn hash_shape(h: &Bytes32) -> (r: &'static str)
    ensures
        r@ == hash_shape_spec(h@),
{
    let k = h[3] % 16;
    if k == 0 { "circle" }
    else if k == 1 { "egg" }
    else if k == 2 { "triangle" }
    else if k == 3 { "diamond" }
    else if k == 4 { "trapezium" }
    else if k == 5 { "parallelogram" }
    else if k == 6 { "house" }
    else if k == 7 { "pentagon" }
    else if k == 8 { "hexagon" }
    else if k == 9 { "septagon" }
    else if k == 10 { "octagon" }
    else if k == 11 { "invtriangle" }
    else if k == 12 { "invtrapezium" }
    else if k == 13 { "invhouse" }
    else if k == 14 { "square" }
    else { "oval" }
}

fn palette_str(k: u8) -> (r: &'static str)
    ensures
        r@ == palette(k as int),
{
    if k == 0 { "#332288" }
    else if k == 1 { "#117733" }
    else if k == 2 { "#44AA99" }
    else if k == 3 { "#88CCEE" }
    else if k == 4 { "#DDCC77" }
    else if k == 5 { "#CC6677" }
    else if k == 6 { "#AA4499" }
    else { "#882255" }
}

pub fn hash_color(h: &Bytes32) -> (r: String)
    ensures
        r@ == hash_color_spec(h@),
{
    let n1 = h[0] % 8;
    let m = h[1] % 7;
    let n2 = if m >= n1 { m + 1 } else { m };
    let mut s = String::from_str(palette_str(n1));
    s.append(":");
    s.append(palette_str(n2));
    s
}

/// The indentation of a line at `depth`, when pretty.
pub open spec fn indent(pretty: bool, depth: nat) -> Seq<char> {
    if pretty {
        Seq::new(2 * depth, |i: int| ' ')
    } else {
        Seq::empty()
    }
}

/// One node: its name, shape and colours.
#[verifier::opaque]
pub open spec fn node_line(pretty: bool, depth: nat, name: Seq<char>, h: Seq<u8>) -> Seq<char> {
    indent(pretty, depth) + name + " [shape=\""@ + hash_shape_spec(h) + "\", style=\"filled\", fillcolor=\""@
        + hash_color_spec(h) + "\"];\n"@
}

/// One edge, from parent to child.
#[verifier::opaque]
pub open spec fn edge_line(pretty: bool, depth: nat, from: Seq<char>, to: Seq<char>) -> Seq<char> {
    indent(pretty, depth) + from + " -> "@ + to + ";\n"@
}

pub open spec fn epoch_name(i: nat) -> Seq<char> {
    "e"@ + decimal(i)
}

pub open spec fn block_name(i: nat, j: nat) -> Seq<char> {
    epoch_name(i) + "b"@ + decimal(j)
}

pub open spec fn commitment_name(i: nat, j: nat, k: nat) -> Seq<char> {
    block_name(i, j) + "c"@ + decimal(k)
}

/// Whether the tree keeps a commitment for witnessing at `p`.
pub open spec fn kept_at(kept: Seq<(Bytes32, Position)>, p: Position) -> bool {
    exists|t: int| 0 <= t < kept.len() && (#[trigger] kept[t]).1 == p
}

/// The name of a leaf drawn only by its hash.
pub open spec fn hash_leaf_name(i: nat, j: nat, k: nat) -> Seq<char> {
    block_name(i, j) + "h"@ + decimal(k)
}

/// The lines of the leaves `cs` of block `j` of epoch `i`: a leaf whose
/// commitment is kept is drawn as that commitment; any other leaf only by
/// its hash.
#[verifier::opaque]
pub open spec fn commitments_dot(
    pretty: bool,
    i: nat,
    j: nat,
    cs: Seq<Bytes32>,
    kept: Seq<(Bytes32, Position)>,
) -> Seq<char>
    decreases cs.len(),
{
    if cs.len() == 0 {
        Seq::empty()
    } else {
        let k = (cs.len() - 1) as nat;
        let p = Position { epoch: i as u16, block: j as u16, commitment: k as u16 };
        commitments_dot(pretty, i, j, cs.drop_last(), kept) + if kept_at(kept, p) {
            node_line(pretty, 1, commitment_name(i, j, k), cs.last()@) + edge_line(
                pretty,
                1,
                block_name(i, j),
                commitment_name(i, j, k),
            )
        } else {
            node_line(pretty, 1, hash_leaf_name(i, j, k), leaf_hash(cs.last()@)) + edge_line(
                pretty,
                1,
                block_name(i, j),
                hash_leaf_name(i, j, k),
            )
        }
    }
}

/// The hash drawn for a block: zero while it is open and empty.
#[verifier::opaque]
pub open spec fn block_hash(b: Seq<Bytes32>, open: bool) -> Seq<u8> {
    if open && b.len() == 0 {
        zero_spec()
    } else {
        sealed_block_root(b)
    }
}

/// The lines of the blocks `bs` of epoch `i`; the last is open if `open`.
#[verifier::opaque]
pub open spec fn blocks_dot(
    pretty: bool,
    i: nat,
    bs: Seq<Seq<Bytes32>>,
    open: bool,
    kept: Seq<(Bytes32, Position)>,
) -> Seq<char>
    decreases bs.len(),
{
    if bs.len() == 0 {
        Seq::empty()
    } else {
        let j = (bs.len() - 1) as nat;
        blocks_dot(pretty, i, bs.drop_last(), false, kept) + node_line(pretty, 1, block_name(i, j), block_hash(bs.last(), open))
            + edge_line(pretty, 1, epoch_name(i), block_name(i, j)) + commitments_dot(pretty, i, j, bs.last(), kept)
    }
}

/// The hash drawn for an epoch: its root.
#[verifier::opaque]
pub open spec fn epoch_hash(e: Seq<Seq<Bytes32>>, open: bool) -> Seq<u8> {
    epoch_root(e, open)
}

/// The lines of the epochs `es`; the last is the open one.
#[verifier::opaque]
pub open spec fn epochs_dot(
    pretty: bool,
    es: Seq<Seq<Seq<Bytes32>>>,
    open: bool,
    kept: Seq<(Bytes32, Position)>,
) -> Seq<char>
    decreases es.len(),
{
    if es.len() == 0 {
        Seq::empty()
    } else {
        let i = (es.len() - 1) as nat;
        epochs_dot(pretty, es.drop_last(), false, kept) + node_line(pretty, 1, epoch_name(i), epoch_hash(es.last(), open))
            + edge_line(pretty, 1, "root"@, epoch_name(i)) + blocks_dot(pretty, i, es.last(), open, kept)
    }
}

/// The whole graph of a tree with contents `es`, kept commitments `kept` and
/// global root `root`.
pub open spec fn dot(pretty: bool, es: Seq<Seq<Seq<Bytes32>>>, kept: Seq<(Bytes32, Position)>, root: Seq<u8>) -> Seq<char> {
    "strict digraph {\n"@ + indent(pretty, 1) + "ordering=\"out\";\n"@ + node_line(pretty, 1, "root"@, root)
        + epochs_dot(pretty, es, true, kept) + "}\n"@
}

fn push_indent(s: &mut String, pretty: bool, depth: usize)
    requires
        depth <= 1,
    ensures
        final(s)@ == old(s)@ + indent(pretty, depth as nat),
{
    if pretty && depth == 1 {
        s.append("  ");
        proof {
            reveal_strlit("  ");
            assert("  "@ =~= indent(pretty, 1));
        }
    } else {
        assert(indent(pretty, depth as nat) =~= Seq::<char>::empty());
    }
}

fn push_node(s: &mut String, pretty: bool, name: &String, h: &Bytes32)
    ensures
        final(s)@ == old(s)@ + node_line(pretty, 1, name@, h@),
{
    let ghost start = s@;
    reveal(node_line);
    push_indent(s, pretty, 1);
    s.append(name.as_str());
    s.append(" [shape=\"");
    s.append(hash_shape(h));
    s.append("\", style=\"filled\", fillcolor=\"");
    let c = hash_color(h);
    s.append(c.as_str());
    s.append("\"];\n");
    assert(s@ =~= start + node_line(pretty, 1, name@, h@));
}

fn push_edge(s: &mut String, pretty: bool, from: &String, to: &String)
    ensures
        final(s)@ == old(s)@ + edge_line(pretty, 1, from@, to@),
{
    let ghost start = s@;
    reveal(edge_line);
    push_indent(s, pretty, 1);
    s.append(from.as_str());
    s.append(" -> ");
    s.append(to.as_str());
    s.append(";\n");
    assert(s@ =~= start + edge_line(pretty, 1, from@, to@));
}

fn named(prefix: &String, tag: &str, n: usize) -> (r: String)
    ensures
        r@ == prefix@ + tag@ + decimal(n as nat),
{
    let mut s = String::from_str(prefix.as_str());
    s.append(tag);
    let d = to_decimal(n as u64);
    s.append(d.as_str());
    s
}

fn is_kept_at(kept: &Vec<(Bytes32, Position)>, p: &Position) -> (r: bool)
    ensures
        r == kept_at(kept@, *p),
{
    let mut t: usize = 0;
    while t < kept.len()
        invariant
            0 <= t <= kept.len(),
            forall|u: int| 0 <= u < t ==> (#[trigger] kept@[u]).1 != *p,
        decreases kept.len() - t,
    {
        if kept[t].1 == *p {
            return true;
        }
        t = t + 1;
    }
    false
}

fn push_commitments(
    s: &mut String,
    pretty: bool,
    i: usize,
    j: usize,
    name_b: &String,
    cs: &Vec<Bytes32>,
    kept: &Vec<(Bytes32, Position)>,
)
    requires
        name_b@ == block_name(i as nat, j as nat),
        i < TIER_CAPACITY,
        j < TIER_CAPACITY,
        cs.len() <= TIER_CAPACITY,
    ensures
        final(s)@ == old(s)@ + commitments_dot(pretty, i as nat, j as nat, cs@, kept@),
{
    let ghost start = s@;
    proof {
        reveal(commitments_dot);
        assert(cs@.subrange(0, 0).len() == 0);
        assert(commitments_dot(pretty, i as nat, j as nat, cs@.subrange(0, 0), kept@) == Seq::<char>::empty());
        assert(start + Seq::<char>::empty() =~= start);
    }
    let mut k: usize = 0;
    while k < cs.len()
        invariant
            0 <= k <= cs.len(),
            cs.len() <= TIER_CAPACITY,
            i < TIER_CAPACITY,
            j < TIER_CAPACITY,
            name_b@ == block_name(i as nat, j as nat),
            s@ == start + commitments_dot(pretty, i as nat, j as nat, cs@.subrange(0, k as int), kept@),
        decreases cs.len() - k,
    {
        let p = Position { epoch: i as u16, block: j as u16, commitment: k as u16 };
        let ghost before = s@;
        let ghost x;
        if is_kept_at(kept, &p) {
            let name_c = named(name_b, "c", k);
            push_node(s, pretty, &name_c, &cs[k]);
            push_edge(s, pretty, name_b, &name_c);
            proof {
                x = node_line(pretty, 1, commitment_name(i as nat, j as nat, k as nat), cs@[k as int]@) + edge_line(
                    pretty,
                    1,
                    block_name(i as nat, j as nat),
                    commitment_name(i as nat, j as nat, k as nat),
                );
                assert(s@ =~= before + x);
            }
        } else {
            let name_h = named(name_b, "h", k);
            let h = hash_leaf(&cs[k]);
            push_node(s, pretty, &name_h, &h);
            push_edge(s, pretty, name_b, &name_h);
            proof {
                x = node_line(pretty, 1, hash_leaf_name(i as nat, j as nat, k as nat), leaf_hash(cs@[k as int]@)) + edge_line(
                    pretty,
                    1,
                    block_name(i as nat, j as nat),
                    hash_leaf_name(i as nat, j as nat, k as nat),
                );
                assert(s@ =~= before + x);
            }
        }
        proof {
            reveal(commitments_dot);
            let t = cs@.subrange(0, k + 1);
            let prev = cs@.subrange(0, k as int);
            assert(t.drop_last() =~= prev);
            assert(t.last() == cs@[k as int]);
            assert(commitments_dot(pretty, i as nat, j as nat, t, kept@) == commitments_dot(pretty, i as nat, j as nat, prev, kept@) + x);
            assert((start + commitments_dot(pretty, i as nat, j as nat, prev, kept@)) + x =~= start + (commitments_dot(pretty, i as nat, j as nat, prev, kept@) + x));
        }
        k = k + 1;
    }
    assert(cs@.subrange(0, cs.len() as int) =~= cs@);
}

fn push_block(
    s: &mut String,
    pretty: bool,
    i: usize,
    j: usize,
    name_e: &String,
    b: &Vec<Bytes32>,
    open: bool,
    kept: &Vec<(Bytes32, Position)>,
)
    requires
        name_e@ == epoch_name(i as nat),
        b.len() <= TIER_CAPACITY,
        i < TIER_CAPACITY,
        j < TIER_CAPACITY,
    ensures
        final(s)@ == old(s)@ + node_line(pretty, 1, block_name(i as nat, j as nat), block_hash(b@, open))
            + edge_line(pretty, 1, epoch_name(i as nat), block_name(i as nat, j as nat))
            + commitments_dot(pretty, i as nat, j as nat, b@, kept@),
{
    let ghost start = s@;
    reveal(block_hash);
    let name_b = named(name_e, "b", j);
    let h = if open && b.len() == 0 { zero_bytes() } else { sealed_block_root_of(b) };
    push_node(s, pretty, &name_b, &h);
    push_edge(s, pretty, name_e, &name_b);
    push_commitments(s, pretty, i, j, &name_b, b, kept);
}

fn push_blocks(
    s: &mut String,
    pretty: bool,
    i: usize,
    name_e: &String,
    bs: &Vec<Vec<Bytes32>>,
    open: bool,
    kept: &Vec<(Bytes32, Position)>,
)
    requires
        name_e@ == epoch_name(i as nat),
        i < TIER_CAPACITY,
        bs.len() <= TIER_CAPACITY,
        forall|j: int| 0 <= j < bs.len() ==> (#[trigger] bs@[j]).len() <= TIER_CAPACITY,
    ensures
        final(s)@ == old(s)@ + blocks_dot(pretty, i as nat, blocks_view(bs@), open, kept@),
{
    let ghost start = s@;
    reveal(blocks_dot);
    let ghost v = blocks_view(bs@);
    if bs.len() == 0 {
        return;
    }
    let last = bs.len() - 1;
    let mut j: usize = 0;
    while j < last
        invariant
            0 <= j <= last,
            last == bs.len() - 1,
            v == blocks_view(bs@),
            name_e@ == epoch_name(i as nat),
            forall|j2: int| 0 <= j2 < bs.len() ==> (#[trigger] bs@[j2]).len() <= TIER_CAPACITY,
            i < TIER_CAPACITY,
            bs.len() <= TIER_CAPACITY,
            s@ == start + blocks_dot(pretty, i as nat, v.subrange(0, j as int), false, kept@),
        decreases last - j,
    {
        let ghost before = s@;
        push_block(s, pretty, i, j, name_e, &bs[j], false, kept);
        proof {
            reveal(blocks_dot);
            assert(v.len() == bs@.len());
            let t = v.subrange(0, j + 1);
            let prev = v.subrange(0, j as int);
            let x = node_line(pretty, 1, block_name(i as nat, j as nat), block_hash(bs@[j as int]@, false))
                + edge_line(pretty, 1, epoch_name(i as nat), block_name(i as nat, j as nat))
                + commitments_dot(pretty, i as nat, j as nat, bs@[j as int]@, kept@);
            assert(t.drop_last() =~= prev);
            assert(t.last() == bs@[j as int]@);
            assert(blocks_dot(pretty, i as nat, t, false, kept@) == blocks_dot(pretty, i as nat, prev, false, kept@) + x);
            assert(s@ == before + x);
            assert((start + blocks_dot(pretty, i as nat, prev, false, kept@)) + x =~= start + (blocks_dot(pretty, i as nat, prev, false, kept@) + x));
        }
        j = j + 1;
    }
    let ghost before = s@;
    push_block(s, pretty, i, last, name_e, &bs[last], open, kept);
    proof {
        assert(v.len() == bs@.len());
        let prev = v.subrange(0, last as int);
        let x = node_line(pretty, 1, block_name(i as nat, last as nat), block_hash(bs@[last as int]@, open))
            + edge_line(pretty, 1, epoch_name(i as nat), block_name(i as nat, last as nat))
            + commitments_dot(pretty, i as nat, last as nat, bs@[last as int]@, kept@);
        assert(v.drop_last() =~= prev);
        assert(v.last() == bs@[last as int]@);
        assert(blocks_dot(pretty, i as nat, v, open, kept@) == blocks_dot(pretty, i as nat, prev, false, kept@) + x);
        assert(s@ == before + x);
        assert((start + blocks_dot(pretty, i as nat, prev, false, kept@)) + x =~= start + (blocks_dot(pretty, i as nat, prev, false, kept@) + x));
    }
}

fn push_epoch(s: &mut String, pretty: bool, i: usize, e: &Vec<Vec<Bytes32>>, open: bool, kept: &Vec<(Bytes32, Position)>)
    requires
        i < TIER_CAPACITY,
        e.len() <= TIER_CAPACITY,
        forall|j: int| 0 <= j < e.len() ==> (#[trigger] e@[j]).len() <= TIER_CAPACITY,
    ensures
        final(s)@ == old(s)@ + node_line(pretty, 1, epoch_name(i as nat), epoch_hash(blocks_view(e@), open))
            + edge_line(pretty, 1, "root"@, epoch_name(i as nat)) + blocks_dot(pretty, i as nat, blocks_view(e@), open, kept@),
{
    let ghost start = s@;
    reveal(epoch_hash);
    let mut name_e = String::from_str("e");
    let d = to_decimal(i as u64);
    name_e.append(d.as_str());
    let h = epoch_root_exec(e, open);
    push_node(s, pretty, &name_e, &h);
    let root = String::from_str("root");
    push_edge(s, pretty, &root, &name_e);
    push_blocks(s, pretty, i, &name_e, e, open, kept);
}

impl Tree {
    /// Renders the tree as a DOT graph.
    pub fn render_dot(&self) -> (r: String)
        requires
            self.wf(),
        ensures
            r@ == dot(false, self.contents(), self.kept_entries(), self.root_spec()),
    {
        self.render_dot_inner(false)
    }

    /// Renders the tree as a DOT graph, indented for reading.
    pub fn render_dot_pretty(&self) -> (r: String)
        requires
            self.wf(),
        ensures
            r@ == dot(true, self.contents(), self.kept_entries(), self.root_spec()),
    {
        self.render_dot_inner(true)
    }

    fn render_dot_inner(&self, pretty: bool) -> (r: String)
        requires
            self.wf(),
        ensures
            r@ == dot(pretty, self.contents(), self.kept_entries(), self.root_spec()),
    {
        let mut s = String::from_str("strict digraph {\n");
        push_indent(&mut s, pretty, 1);
        s.append("ordering=\"out\";\n");
        let root = self.root();
        let root_name = String::from_str("root");
        push_node(&mut s, pretty, &root_name, &root);
        let ghost head = s@;
        reveal(epochs_dot);
        let es = self.epochs();
        let kept = self.kept_vec();
        let ghost kv = self.kept_entries();
        let ghost v = self.contents();
        let last = es.len() - 1;
        let mut i: usize = 0;
        while i < last
            invariant
                0 <= i <= last,
                last == es.len() - 1,
                v == epochs_view(es@),
                within_capacity(v),
                kv == kept@,
                s@ == head + epochs_dot(pretty, v.subrange(0, i as int), false, kv),
            decreases last - i,
        {
            proof {
                assert(v[i as int] == blocks_view(es@[i as int]@));
                assert forall|j: int| 0 <= j < es@[i as int].len() implies (#[trigger] es@[i as int]@[j]).len() <= TIER_CAPACITY by {
                    assert(v[i as int][j].len() == es@[i as int]@[j].len());
                }
            }
            let ghost before = s@;
            push_epoch(&mut s, pretty, i, &es[i], false, kept);
            proof {
                reveal(epochs_dot);
                assert(v.len() == es@.len());
                let t = v.subrange(0, i + 1);
                let prev = v.subrange(0, i as int);
                let e = blocks_view(es@[i as int]@);
                let x = node_line(pretty, 1, epoch_name(i as nat), epoch_hash(e, false))
                    + edge_line(pretty, 1, "root"@, epoch_name(i as nat)) + blocks_dot(pretty, i as nat, e, false, kv);
                assert(t.drop_last() =~= prev);
                assert(t.last() == e);
                assert(epochs_dot(pretty, t, false, kv) == epochs_dot(pretty, prev, false, kv) + x);
                assert(s@ == before + x);
                assert((head + epochs_dot(pretty, prev, false, kv)) + x =~= head + (epochs_dot(pretty, prev, false, kv) + x));
            }
            i = i + 1;
        }
        proof {
            assert(v[last as int] == blocks_view(es@[last as int]@));
            assert forall|j: int| 0 <= j < es@[last as int].len() implies (#[trigger] es@[last as int]@[j]).len() <= TIER_CAPACITY by {
                assert(v[last as int][j].len() == es@[last as int]@[j].len());
            }
        }
        let ghost before = s@;
        push_epoch(&mut s, pretty, last, &es[last], true, kept);
        proof {
            assert(v.len() == es@.len());
            let prev = v.subrange(0, last as int);
            let e = blocks_view(es@[last as int]@);
            let x = node_line(pretty, 1, epoch_name(last as nat), epoch_hash(e, true))
                + edge_line(pretty, 1, "root"@, epoch_name(last as nat)) + blocks_dot(pretty, last as nat, e, true, kv);
            assert(v.drop_last() =~= prev);
            assert(v.last() == e);
            assert(epochs_dot(pretty, v, true, kv) == epochs_dot(pretty, prev, false, kv) + x);
            assert(s@ == before + x);
            assert((head + epochs_dot(pretty, prev, false, kv)) + x =~= head + (epochs_dot(pretty, prev, false, kv) + x));
        }
        s.append("}\n");
        s
    }
}

} // verus!
