//! The request/response protocol between a leaf changer and the tree
//! keeper: one message kind, answered with either a full update proof or
//! an error message. The wire encoding and the transport live outside the
//! library; this module holds the decision the keeper makes per request.
use vstd::prelude::*;

use crate::sparse_merkle_tree::{update_leaf_post, Data, Proof, Tree, INDEX_LIMIT};

verus! {

/// A request a changer sends to the tree keeper.
#[derive(Debug)]
pub enum Request {
    UpdateLeaf { leaf_index: u32, new_data: Data },
}

/// The tree keeper's answer: the proof of the applied update, or an
/// error message for a rejected request.
#[derive(Debug)]
pub enum Response {
    Error { msg: String },
    Updated { proof: Box<Proof> },
}

/// Applies one request to the tree. A leaf index out of the 31-bit range
/// is rejected with an error and leaves the tree untouched; any other
/// update is applied whole and answered with its proof.
pub fn handle_request(tree: &mut Tree, request: Request) -> (response: Response)
    requires
        old(tree).wf(),
    ensures
        final(tree).wf(),
        match request {
            Request::UpdateLeaf { leaf_index, new_data } => {
                if leaf_index < INDEX_LIMIT {
                    &&& response matches Response::Updated { proof }
                    &&& update_leaf_post(*old(tree), *final(tree), *proof, leaf_index, new_data)
                    &&& proof.valid()
                } else {
                    &&& response matches Response::Error { .. }
                    &&& *final(tree) == *old(tree)
                }
            },
        },
{
    match request {
        Request::UpdateLeaf { leaf_index, new_data } => {
            if leaf_index < INDEX_LIMIT {
                let proof = tree.update_leaf(leaf_index, new_data);
                Response::Updated { proof: Box::new(proof) }
            } else {
                Response::Error { msg: "leaf index out of range".to_owned() }
            }
        },
    }
}

} // verus!
