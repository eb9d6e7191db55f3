use shielded_pool::builder::EpochBuilder;
use shielded_pool::position::Position;
use shielded_pool::tree::{Tree, TreeError, VerifyError, Witness};

fn commitment(i: u64) -> [u8; 32] {
    let mut c = [0u8; 32];
    c[..8].copy_from_slice(&i.to_le_bytes());
    c[31] = 0x07;
    c
}

#[test]
fn fresh_tree_roots_are_zero() {
    let tree = Tree::new();
    assert_eq!(tree.root(), [0u8; 32]);
    assert_eq!(tree.current_block_root(), [0u8; 32]);
    assert_eq!(tree.current_epoch_root(), [0u8; 32]);
}

#[test]
fn sealed_empty_epoch_has_finished_empty_root() {
    let mut one = [0u8; 32];
    one[0] = 1;
    let builder = EpochBuilder::new();
    assert_eq!(builder.root(), one);
}

#[test]
fn kept_commitments_witness_to_root() {
    let mut tree = Tree::new();
    let mut kept = Vec::new();
    for i in 0..40u64 {
        let c = commitment(i);
        let w = if i % 3 == 0 { Witness::Keep } else { Witness::Forget };
        tree.insert(w, c).unwrap();
        if w == Witness::Keep {
            kept.push(c);
        }
        if i % 7 == 6 {
            tree.end_block().unwrap();
        }
        if i == 25 {
            tree.end_epoch().unwrap();
        }
    }
    let root = tree.root();
    for c in kept {
        let proof = tree.witness(&c).expect("kept commitment is witnessed");
        assert_eq!(proof.commitment(), c);
        assert_eq!(proof.verify(&root), Ok(()));
    }
}

#[test]
fn proof_fails_against_other_root() {
    let mut tree = Tree::new();
    let c = commitment(1);
    tree.insert(Witness::Keep, c).unwrap();
    let proof = tree.witness(&c).unwrap();
    let mut other = tree.root();
    other[0] ^= 1;
    assert_eq!(proof.verify(&other), Err(VerifyError::RootMismatch));
    assert_eq!(proof.verify(&tree.root()), Ok(()));
}

#[test]
fn block_root_proof_checks_block_tier() {
    let mut tree = Tree::new();
    let c = commitment(9);
    tree.insert(Witness::Keep, c).unwrap();
    tree.insert(Witness::Forget, commitment(10)).unwrap();
    let block_root = tree.current_block_root();
    let proof = tree.witness(&c).unwrap();
    assert_eq!(proof.verify_block_root(&block_root), Ok(()));
    assert_ne!(block_root, [0u8; 32]);
}

#[test]
fn forgotten_insert_is_not_witnessed() {
    let mut tree = Tree::new();
    let c = commitment(3);
    tree.insert(Witness::Forget, c).unwrap();
    assert!(tree.witness(&c).is_none());
}

#[test]
fn forget_reclaims_witness_and_keeps_root() {
    let mut tree = Tree::new();
    let c = commitment(4);
    tree.insert(Witness::Keep, c).unwrap();
    tree.insert(Witness::Keep, commitment(5)).unwrap();
    let root = tree.root();
    assert!(tree.witness(&c).is_some());
    assert!(tree.forget(&c));
    assert!(tree.witness(&c).is_none());
    assert_eq!(tree.root(), root);
    assert!(!tree.forget(&c));
    assert!(tree.witness(&commitment(5)).is_some());
}

#[test]
fn full_block_refuses_insert() {
    let mut tree = Tree::new();
    for i in 0..65536u64 {
        tree.insert(Witness::Forget, commitment(i)).unwrap();
    }
    assert_eq!(tree.position(), None);
    assert_eq!(tree.insert(Witness::Forget, commitment(70000)), Err(TreeError::Full));
    tree.end_block().unwrap();
    assert_eq!(tree.insert(Witness::Forget, commitment(70000)), Ok(Position::new(0, 1, 0)));
}

#[test]
fn epoch_boundary_opens_new_epoch() {
    let mut tree = Tree::new();
    assert_eq!(tree.insert(Witness::Forget, commitment(0)), Ok(Position::new(0, 0, 0)));
    assert_eq!(tree.insert(Witness::Forget, commitment(1)), Ok(Position::new(0, 0, 1)));
    tree.end_block().unwrap();
    assert_eq!(tree.insert(Witness::Forget, commitment(2)), Ok(Position::new(0, 1, 0)));
    tree.end_epoch().unwrap();
    let p = tree.insert(Witness::Forget, commitment(3)).unwrap();
    assert_eq!(p, Position::new(1, 0, 0));
    assert_eq!(p.epoch(), 1);
    assert_eq!(p.to_u64(), 1u64 << 32);
}

#[test]
fn end_block_changes_root_after_empty_block() {
    let mut tree = Tree::new();
    tree.insert(Witness::Forget, commitment(0)).unwrap();
    tree.end_block().unwrap();
    let once = tree.root();
    tree.end_block().unwrap();
    assert_ne!(tree.root(), once);
}

#[test]
fn epoch_builder_graft_matches_inline() {
    let mut builder = EpochBuilder::new();
    let mut inline = Tree::new();
    for i in 0..1024u64 {
        let w = if i == 700 { Witness::Keep } else { Witness::Forget };
        builder.insert(w, commitment(i)).unwrap();
        inline.insert(w, commitment(i)).unwrap();
    }
    inline.end_epoch().unwrap();
    let mut grafted = Tree::new();
    grafted.insert_epoch(builder).unwrap();
    assert_eq!(grafted.root(), inline.root());
    let a = grafted.witness(&commitment(700)).unwrap();
    let b = inline.witness(&commitment(700)).unwrap();
    assert_eq!(a.position, b.position);
    assert_eq!(a.path, b.path);
    assert_eq!(a.verify(&grafted.root()), Ok(()));
    assert!(grafted.witness(&commitment(3)).is_none());
}

#[test]
fn block_builder_graft_matches_inline() {
    let mut builder = shielded_pool::builder::BlockBuilder::new();
    let mut inline = Tree::new();
    inline.insert(Witness::Keep, commitment(500)).unwrap();
    inline.end_block().unwrap();
    for i in 0..20u64 {
        let w = if i == 5 { Witness::Keep } else { Witness::Forget };
        builder.insert(w, commitment(i)).unwrap();
        inline.insert(w, commitment(i)).unwrap();
    }
    let block_root = builder.root();
    inline.end_block().unwrap();
    let mut grafted = Tree::new();
    grafted.insert(Witness::Keep, commitment(500)).unwrap();
    grafted.insert_block(builder).unwrap();
    assert_eq!(grafted.root(), inline.root());
    let a = grafted.witness(&commitment(500)).unwrap();
    let b = inline.witness(&commitment(500)).unwrap();
    assert_eq!(a.path, b.path);
    let a5 = grafted.witness(&commitment(5)).unwrap();
    let b5 = inline.witness(&commitment(5)).unwrap();
    assert_eq!(a5.position, b5.position);
    assert_eq!(a5.path, b5.path);
    assert_ne!(block_root, [0u8; 32]);
}

#[test]
fn position_order_is_insertion_order() {
    let a = Position::new(0, 5, 9);
    let b = Position::new(1, 0, 0);
    assert!(a.is_before(&b));
    assert!(!b.is_before(&a));
    assert!(a.to_u64() < b.to_u64());
}

#[test]
fn hash_styles() {
    let mut h = [0u8; 32];
    assert_eq!(shielded_pool::visualize::hash_color(&h), "#332288:#117733");
    h[0] = 3;
    h[1] = 5;
    h[3] = 21;
    assert_eq!(shielded_pool::visualize::hash_color(&h), "#88CCEE:#AA4499");
    assert_eq!(shielded_pool::visualize::hash_shape(&h), "parallelogram");
}

#[test]
fn render_dot_lists_every_node() {
    let mut tree = Tree::new();
    let c = commitment(11);
    tree.insert(Witness::Keep, c).unwrap();
    tree.end_block().unwrap();
    let pretty = tree.render_dot_pretty();
    assert!(pretty.starts_with("strict digraph {\n  ordering=\"out\";\n  root [shape=\""));
    assert!(pretty.ends_with("}\n"));
    assert!(pretty.contains("  root -> e0;\n"));
    assert!(pretty.contains("  e0 -> e0b0;\n"));
    assert!(pretty.contains("  e0 -> e0b1;\n"));
    assert!(pretty.contains("  e0b0 -> e0b0c0;\n"));
    let node = format!(
        "  e0b0c0 [shape=\"{}\", style=\"filled\", fillcolor=\"{}\"];\n",
        shielded_pool::visualize::hash_shape(&c),
        shielded_pool::visualize::hash_color(&c)
    );
    assert!(pretty.contains(&node));
    let plain = tree.render_dot();
    assert!(plain.contains("\ne0b0 -> e0b0c0;\n"));
    assert_eq!(plain.lines().count(), pretty.lines().count());
}

#[test]
fn render_dot_draws_forgotten_leaves_as_hashes() {
    let mut tree = Tree::new();
    let c = commitment(11);
    tree.insert(Witness::Keep, c).unwrap();
    tree.insert(Witness::Forget, commitment(12)).unwrap();
    let before = tree.render_dot();
    assert!(before.contains("e0b0 -> e0b0c0;"));
    assert!(before.contains("e0b0 -> e0b0h1;"));
    assert!(!before.contains("e0b0c1"));
    assert!(tree.forget(&c));
    let after = tree.render_dot();
    assert!(!after.contains("e0b0c0"));
    assert!(after.contains("e0b0 -> e0b0h0;"));
    assert_ne!(before, after);
}

#[test]
fn insertion_order_changes_root() {
    let mut ab = Tree::new();
    ab.insert(Witness::Forget, commitment(1)).unwrap();
    ab.insert(Witness::Forget, commitment(2)).unwrap();
    let mut ba = Tree::new();
    ba.insert(Witness::Forget, commitment(2)).unwrap();
    ba.insert(Witness::Forget, commitment(1)).unwrap();
    assert_ne!(ab.root(), ba.root());
}
