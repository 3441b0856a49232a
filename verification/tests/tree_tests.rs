use rand::Rng;

use sparse_merkle_tree_server_client::sparse_merkle_tree::Level;
use sparse_merkle_tree_server_client::{hash, Tree};

#[test]
fn simple_test() {
    let mut tr = Tree::default();
    let mut rng = rand::thread_rng();
    let pr1 = tr.update_leaf(3, rng.gen());
    assert!(pr1.verify());

    let pr2 = tr.update_leaf(3, rng.gen());
    assert!(pr2.verify());

    pr1.path
        .iter()
        .zip(pr2.path.iter())
        .for_each(|(upd1, upd2)| {
            assert_eq!(upd1.index, upd2.index);
            assert_eq!(upd1.new, upd2.old);
            assert_eq!(upd1.sibling, upd2.sibling);
        });

    let pr3 = tr.update_leaf((1u32 << 31) - 1, rng.gen());
    assert!(pr3.verify());

    pr3.path
        .iter()
        .zip(Level::iter_all())
        .for_each(|(upd, level)| {
            let default = tr.get_default_value(&level);

            // all nodes, but root, changed
            if level != Level::root() {
                assert_eq!(upd.old, default, "at {:?} & {}", level, upd.index);
            }

            // sibling not filled only for root
            if let Some(sibling) = upd.sibling {
                // sibling for 31 level is not default
                if level != Level::root().saturating_prev() {
                    assert_eq!(sibling, default, "at {:?}", level);
                }
            }
        });
}

#[test]
fn update_and_verify_scenario() {
    let mut tr = Tree::default();
    let p1 = tr.update_leaf(3, 1);
    assert!(p1.verify());
    assert_eq!(tr.get_root(), p1.root().new);
    let p2 = tr.update_leaf(3, 2);
    assert!(p2.verify());
    assert_eq!(p2.path[0].old, p1.path[0].new);
}

#[test]
fn hash_deterministic_and_order_sensitive() {
    for (l, r) in [(0u64, 0u64), (1, 2), (2, 1), (u64::MAX, 0), (12345, 67890)] {
        assert_eq!(hash(l, r), hash(l, r));
    }
    for (l, r) in [(1u64, 2u64), (0, 1), (u64::MAX, 1), (7, 8)] {
        assert_ne!(hash(l, r), hash(r, l));
    }
    // the digest really digests: the result is none of its inputs
    assert_ne!(hash(1, 2), 1);
    assert_ne!(hash(1, 2), 2);
}

#[test]
fn default_ladder_consistency() {
    let tr = Tree::default();
    let levels = Level::iter_all();
    assert_eq!(tr.get_default_value(&levels[0]), hash(0, 0));
    for k in 1..levels.len() {
        let prev = tr.get_default_value(&levels[k - 1]);
        assert_eq!(tr.get_default_value(&levels[k]), hash(prev, prev));
    }
}

#[test]
fn root_read_before_and_after_update() {
    let mut tr = Tree::default();
    assert_eq!(tr.get_root(), tr.get_default_value(&Level::root()));
    let p = tr.update_leaf(10, 42);
    assert_eq!(tr.get_root(), p.root().new);
}

#[test]
fn leaf_commitment_doubles_the_input() {
    let mut tr = Tree::default();
    let p = tr.update_leaf(0, 77);
    assert_eq!(p.path[0].new, hash(77, 77));
}

#[test]
fn tamper_detection() {
    let mut tr = Tree::default();
    let p = tr.update_leaf(5, 99);
    assert!(p.verify());

    for k in 0..p.path.len() {
        let mut q = p.clone();
        q.path[k].old ^= 1;
        assert!(!q.verify(), "flipped old at level {k} went unnoticed");

        let mut q = p.clone();
        q.path[k].new ^= 1;
        assert!(!q.verify(), "flipped new at level {k} went unnoticed");

        let mut q = p.clone();
        if let Some(s) = q.path[k].sibling {
            q.path[k].sibling = Some(s ^ 1);
            if k < 31 {
                assert!(!q.verify(), "flipped sibling at level {k} went unnoticed");
            } else {
                // the root record's sibling takes part in no comparison
                assert!(q.verify());
            }
        }
    }

    let mut q = p.clone();
    q.path.pop();
    assert!(!q.verify());

    let mut q = p.clone();
    q.path[0].sibling = None;
    assert!(!q.verify());
}

#[test]
fn default_path_in_fresh_region() {
    let mut tr = Tree::default();
    tr.update_leaf(0, 7);
    let p = tr.update_leaf((1u32 << 31) - 1, 9);
    assert!(p.verify());
    let levels = Level::iter_all();
    for k in 0..31 {
        assert_eq!(
            p.path[k].old,
            tr.get_default_value(&levels[k]),
            "old at level {k} is not the default"
        );
    }
    for k in 0..30 {
        assert_eq!(p.path[k].sibling, Some(tr.get_default_value(&levels[k])));
    }
    // the level just below the root borders the subtree the first update
    // touched, so its sibling is no longer the default
    assert_ne!(p.path[30].sibling, Some(tr.get_default_value(&levels[30])));
}

#[test]
fn chaining_over_distinct_leaves() {
    let mut tr = Tree::default();
    let p1 = tr.update_leaf(8, 1);
    let p2 = tr.update_leaf(9, 2);
    let p3 = tr.update_leaf(8, 3);
    assert!(p1.verify());
    assert!(p2.verify());
    assert!(p3.verify());
    // each update starts from the root the previous one produced
    assert_eq!(p2.path[31].old, p1.path[31].new);
    assert_eq!(p3.path[31].old, p2.path[31].new);
    // leaves 8 and 9 are siblings: the second update sees the first leaf
    assert_eq!(p2.path[0].sibling, Some(p1.path[0].new));
}

#[test]
fn proof_iteration_and_ends() {
    let mut tr = Tree::default();
    let p = tr.update_leaf(3, 1);
    assert_eq!(p.path.len(), 32);
    let pairs = p.iter();
    assert_eq!(pairs.len(), 32);
    for (k, (level, upd)) in pairs.iter().enumerate() {
        assert_eq!(level.get(), k);
        assert_eq!(upd.index, p.path[k].index);
        assert_eq!(upd.new, p.path[k].new);
    }
    assert_eq!(p.start_root().index, 3);
    assert_eq!(p.start_root().old, p.path[0].old);
    assert_eq!(p.root().new, p.path[31].new);
    let consumed = p.clone().into_iter_with_level();
    assert_eq!(consumed.len(), 32);
    assert_eq!(consumed[31].1.new, p.path[31].new);
}
