use anchor_lang::prelude::Pubkey;
use dippies_index::address::{
    bribe_address, forest_address, forest_authority_address, node_address, note_address,
    stake_address, tree_address,
};

const PROGRAM: [u8; 32] = [7u8; 32];

fn pda(seeds: &[&[u8]]) -> [u8; 32] {
    Pubkey::find_program_address(seeds, &Pubkey::new_from_array(PROGRAM)).0.to_bytes()
}

#[test]
fn forest_and_authority_addresses() {
    let id = [1u8; 32];
    let f = forest_address(&PROGRAM, &id);
    assert_eq!(f, pda(&[b"forest", &id]));
    assert_ne!(f, id);
    assert_ne!(f, PROGRAM);
    let a = forest_authority_address(&PROGRAM, &id);
    assert_eq!(a, pda(&[b"authority", &id]));
    assert_ne!(a, f);
    assert_ne!(forest_address(&PROGRAM, &[2u8; 32]), f);
}

#[test]
fn tree_and_node_addresses() {
    let forest = [3u8; 32];
    let tag = b"music".to_vec();
    let tree = tree_address(&PROGRAM, &forest, &tag);
    assert_eq!(tree, pda(&[b"tree", &forest, b"music"]));
    let root = node_address(&PROGRAM, &tree, None, &tag);
    assert_eq!(root, pda(&[b"node", &tree, b"music"]));
    let jazz = node_address(&PROGRAM, &tree, Some(&root), &b"jazz".to_vec());
    assert_eq!(jazz, pda(&[b"node", &tree, &root, b"jazz"]));
    assert_ne!(jazz, root);
}

#[test]
fn note_stake_and_bribe_addresses() {
    let forest = [3u8; 32];
    let id = [4u8; 32];
    let user = [5u8; 32];
    let note = note_address(&PROGRAM, &forest, &id);
    assert_eq!(note, pda(&[b"note", &forest, &id]));
    assert_eq!(stake_address(&PROGRAM, &note, &user), pda(&[b"stake", &note, &user]));
    assert_eq!(bribe_address(&PROGRAM, &note, &user), pda(&[b"bribe", &note, &user]));
    assert_ne!(stake_address(&PROGRAM, &note, &user), bribe_address(&PROGRAM, &note, &user));
}
