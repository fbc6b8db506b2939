//! Block ids.

use freenet_prolly::{block_id, kind};

/// An id is the hash of the kind byte and the body.
#[test]
fn id_is_the_hash_of_the_contract_state() {
    let body = b"PT01 some node bytes";
    let mut state = vec![kind::TREE_NODE];
    state.extend_from_slice(body);
    assert_eq!(
        block_id(kind::TREE_NODE, body),
        *blake3::hash(&state).as_bytes()
    );
    assert_ne!(block_id(kind::TREE_NODE, body), block_id(kind::RAW, body));
    assert_ne!(block_id(kind::RAW, body), *blake3::hash(body).as_bytes());
}
