use dippies_index::errors::DipErrors;
use dippies_index::index::{Account, Authority, Index, Transfer};

struct World {
    idx: Index,
    forest: usize,
    root: usize,
}

fn world(capacity: usize) -> World {
    let mut idx = Index::new(capacity);
    let forest = idx.create_forest(1, 7, 5, 9).unwrap();
    let (tree, _) = idx.create_tree(forest, 3, "music").unwrap();
    let root = idx.trees[tree].root_node;
    World { idx, forest, root }
}

/// Creates a note with `stake` staked by `staker`, returning the note and the account.
fn staked_note(w: &mut World, id: u64, staker: u64, stake: u64) -> (usize, usize) {
    let note = w.idx.create_note(w.forest, id, "t", "w", "i", "d").unwrap();
    let acc = w.idx.create_stake(note, staker).unwrap();
    w.idx.update_stake(acc, stake as i128).unwrap();
    (note, acc)
}

fn tags(v: Vec<Vec<u8>>) -> Vec<String> {
    let mut r: Vec<String> = v.into_iter().map(|t| String::from_utf8(t).unwrap()).collect();
    r.sort();
    r
}

#[test]
fn two_level_tree() {
    let mut w = world(8);
    let jazz = w.idx.create_node(w.root, "jazz").unwrap();
    let rock = w.idx.create_node(w.root, "rock").unwrap();
    w.idx.attach_node(w.root, jazz).unwrap();
    w.idx.attach_node(w.root, rock).unwrap();
    assert!(w.idx.excluded_tags(w.root).is_empty());
    assert_eq!(tags(w.idx.excluded_tags(jazz)), vec!["rock".to_string()]);
    assert_eq!(tags(w.idx.excluded_tags(rock)), vec!["jazz".to_string()]);
}

#[test]
fn stake_driven_node_replacement() {
    let mut w = world(2);
    let a = w.idx.create_node(w.root, "a").unwrap();
    let b = w.idx.create_node(w.root, "b").unwrap();
    let c = w.idx.create_node(w.root, "c").unwrap();
    let (na, _) = staked_note(&mut w, 1, 100, 10);
    let (nb, _) = staked_note(&mut w, 2, 100, 10);
    let (nc, _) = staked_note(&mut w, 3, 100, 11);
    w.idx.attach_note(a, na).unwrap();
    w.idx.attach_note(b, nb).unwrap();
    w.idx.attach_note(c, nc).unwrap();
    w.idx.attach_node(w.root, a).unwrap();
    w.idx.attach_node(w.root, b).unwrap();
    assert_eq!(w.idx.nodes[c].stake, 11);
    assert_eq!(w.idx.replace_node(w.root, b, c), Ok(()));
    assert_eq!(w.idx.replace_node(w.root, a, a), Err(DipErrors::NotEnoughStake));
    let mut children = w.idx.nodes[w.root].children.clone();
    children.sort();
    assert_eq!(children, vec![a, c]);
    assert_eq!(tags(w.idx.excluded_tags(a)), vec!["c".to_string()]);
}

#[test]
fn replace_node_again_is_refused() {
    let mut w = world(2);
    let a = w.idx.create_node(w.root, "a").unwrap();
    let b = w.idx.create_node(w.root, "b").unwrap();
    let c = w.idx.create_node(w.root, "c").unwrap();
    let (nc, _) = staked_note(&mut w, 3, 100, 1);
    w.idx.attach_note(c, nc).unwrap();
    w.idx.attach_node(w.root, a).unwrap();
    w.idx.attach_node(w.root, b).unwrap();
    assert_eq!(w.idx.replace_node(w.root, b, c), Ok(()));
    assert_eq!(w.idx.replace_node(w.root, b, c), Err(DipErrors::NotAChild));
    assert!(w.idx.excluded_tags(b).is_empty());
}

#[test]
fn note_attachment_displacement() {
    let mut w = world(8);
    let n = w.idx.create_node(w.root, "n").unwrap();
    let (t1, _) = staked_note(&mut w, 1, 100, 5);
    let (t2, _) = staked_note(&mut w, 2, 101, 6);
    w.idx.attach_note(n, t1).unwrap();
    assert_eq!(w.idx.nodes[n].stake, 5);
    assert_eq!(w.idx.replace_note(n, t1, t2), Ok(()));
    assert_eq!(w.idx.notes[t1].location, None);
    assert_eq!(w.idx.notes[t2].location, Some(n));
    assert_eq!(w.idx.nodes[n].attached_note, Some(t2));
    assert_eq!(w.idx.nodes[n].stake, 6);
    assert_eq!(w.idx.replace_note(n, t2, t1), Err(DipErrors::NotEnoughStake));
    assert_eq!(w.idx.replace_note(n, t1, t2), Err(DipErrors::NotOnNode));
}

fn apply(balance: &mut u64, wallet: u64, t: &Transfer) {
    if t.from == Account::Wallet(wallet) {
        *balance -= t.amount;
    }
    if t.to == Account::Wallet(wallet) {
        *balance += t.amount;
    }
}

#[test]
fn stake_round_trip_conservation() {
    let mut w = world(8);
    let n = w.idx.create_node(w.root, "n").unwrap();
    let note = w.idx.create_note(w.forest, 1, "t", "w", "i", "d").unwrap();
    w.idx.attach_note(n, note).unwrap();
    let acc = w.idx.create_stake(note, 42).unwrap();
    let mut balance: u64 = 100;
    let up = w.idx.update_stake(acc, 30).unwrap();
    assert_eq!(
        up,
        Transfer {
            from: Account::Wallet(42),
            to: Account::Custody(w.forest),
            amount: 30,
            authority: Authority::Signer(42),
        }
    );
    apply(&mut balance, 42, &up);
    assert_eq!(balance, 70);
    assert_eq!(w.idx.nodes[n].stake, 30);
    let down = w.idx.update_stake(acc, -30).unwrap();
    assert_eq!(down.authority, Authority::Forest(w.forest));
    apply(&mut balance, 42, &down);
    assert_eq!(balance, 100);
    assert_eq!(w.idx.stakes[acc].stake, 0);
    assert_eq!(w.idx.notes[note].stake, 0);
    assert_eq!(w.idx.nodes[n].stake, 0);
}

#[test]
fn bribe_claim_proportionality() {
    let mut w = world(8);
    let n = w.idx.create_node(w.root, "n").unwrap();
    let (t, x) = staked_note(&mut w, 1, 10, 30);
    let y = w.idx.create_stake(t, 11).unwrap();
    w.idx.update_stake(y, 70).unwrap();
    assert_eq!(w.idx.notes[t].stake, 100);
    w.idx.attach_note(n, t).unwrap();
    let (b, escrow) = w.idx.set_bribe(n, 99, 100).unwrap();
    assert_eq!(escrow.to, Account::Escrow(b));
    assert_eq!(escrow.amount, 100);
    let px = w.idx.claim_bribe(b, x).unwrap();
    assert_eq!(px.amount, 30);
    assert_eq!(px.to, Account::Wallet(10));
    let py = w.idx.claim_bribe(b, y).unwrap();
    assert_eq!(py.amount, 70);
    assert_eq!(w.idx.claim_bribe(b, x), Err(DipErrors::AlreadyClaimed));
    assert_eq!(w.idx.claim_bribe(b, y), Err(DipErrors::AlreadyClaimed));
}

#[test]
fn underflow_guard() {
    let mut w = world(8);
    let note = w.idx.create_note(w.forest, 1, "t", "w", "i", "d").unwrap();
    let acc = w.idx.create_stake(note, 42).unwrap();
    assert_eq!(w.idx.update_stake(acc, -1), Err(DipErrors::NotEnoughStake));
    assert_eq!(w.idx.stakes[acc].stake, 0);
    assert_eq!(w.idx.notes[note].stake, 0);
}
