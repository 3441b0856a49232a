use sparse_merkle_tree_server_client::sparse_merkle_tree::{Index, Level, NodeUpdate, Sibling};

#[test]
fn level_bounds() {
    assert!(Level::new(31).is_some());
    assert!(Level::new(32).is_none());
    assert_eq!(Level::zero().get(), 0);
    assert_eq!(Level::root().get(), 31);
    assert!(Level::root().is_root());
    assert!(!Level::zero().is_root());
    assert!(Level::root().checked_next().is_none());
    assert_eq!(Level::zero().checked_next().unwrap().get(), 1);
    assert_eq!(Level::zero().saturating_prev().get(), 0);
    assert_eq!(Level::root().saturating_prev().get(), 30);
    let all = Level::iter_all();
    assert_eq!(all.len(), 32);
    for (k, level) in all.iter().enumerate() {
        assert_eq!(level.get(), k);
    }
}

#[test]
fn index_bounds_and_arithmetic() {
    assert!(Index::new(1u32 << 31, Level::zero()).is_none());
    assert!(Index::new((1u32 << 31) - 1, Level::zero()).is_some());

    let even = Index::new(6, Level::zero()).unwrap();
    assert!(matches!(even.get_sibling(), Sibling::Right(_)));
    assert_eq!(even.get_sibling().unwrap(), Index::new(7, Level::zero()).unwrap());

    let odd = Index::new(7, Level::zero()).unwrap();
    assert!(matches!(odd.get_sibling(), Sibling::Left(_)));
    assert_eq!(odd.get_sibling().unwrap(), Index::new(6, Level::zero()).unwrap());

    let parent = even.next_level().unwrap();
    assert_eq!(parent, Index::new(3, Level::new(1).unwrap()).unwrap());

    assert!(Index::root().is_root());
    assert!(Index::root().next_level().is_none());
    assert!(!Index::new(0, Level::zero()).unwrap().is_root());
    assert!(!Index::new(1, Level::root()).unwrap().is_root());
}

#[test]
fn sibling_map_and_unwrap() {
    let left: Sibling<u64> = Sibling::Left(3);
    let mapped = left.map(|v| v + 1);
    assert!(matches!(mapped, Sibling::Left(4)));
    assert_eq!(mapped.unwrap(), 4);

    let right: Sibling<u64> = Sibling::Right(5);
    let mapped = right.map(|v| v * 2);
    assert!(matches!(mapped, Sibling::Right(10)));
    assert_eq!(mapped.unwrap(), 10);
}

#[test]
fn node_update_map() {
    let upd = NodeUpdate { index: 4, old: 1, new: 2, sibling: Some(3) };
    let mapped = upd.map(|v| v + 10);
    assert_eq!(mapped.index, 4);
    assert_eq!(mapped.old, 11);
    assert_eq!(mapped.new, 12);
    assert_eq!(mapped.sibling, Some(13));

    let bare = NodeUpdate { index: 0, old: 1, new: 2, sibling: None };
    assert_eq!(bare.map(|v| v).sibling, None);
}

#[test]
fn node_update_try_map() {
    let upd = NodeUpdate { index: 4, old: 1, new: 2, sibling: Some(3) };
    let ok: Result<NodeUpdate, u64> = upd.try_map(|v| Ok(v + 1));
    let ok = ok.unwrap();
    assert_eq!((ok.old, ok.new, ok.sibling), (2, 3, Some(4)));

    let failed: Result<NodeUpdate, u64> = upd.try_map(|v| if v == 2 { Err(v) } else { Ok(v) });
    assert_eq!(failed.unwrap_err(), 2);
}
