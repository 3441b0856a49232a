use sparse_merkle_tree_server_client::protocol::{handle_request, Request, Response};
use sparse_merkle_tree_server_client::Tree;

#[test]
fn handle_request_applies_update() {
    let mut tr = Tree::default();
    let response = handle_request(&mut tr, Request::UpdateLeaf { leaf_index: 4, new_data: 11 });
    match response {
        Response::Updated { proof } => {
            assert!(proof.verify());
            assert_eq!(proof.root().new, tr.get_root());
            assert_eq!(proof.start_root().index, 4);
        }
        Response::Error { msg } => panic!("update rejected: {msg}"),
    }
}

#[test]
fn handle_request_rejects_out_of_range_index() {
    let mut tr = Tree::default();
    let root_before = tr.get_root();
    let response =
        handle_request(&mut tr, Request::UpdateLeaf { leaf_index: 1u32 << 31, new_data: 1 });
    match response {
        Response::Error { msg } => assert!(!msg.is_empty()),
        Response::Updated { .. } => panic!("out-of-range index accepted"),
    }
    // a rejected request leaves the tree untouched
    assert_eq!(tr.get_root(), root_before);
}
