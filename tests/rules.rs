use dippies_index::bribe::stake_share;
use dippies_index::errors::DipErrors;
use dippies_index::index::{Account, Authority, Index, Transfer};

fn base(capacity: usize) -> (Index, usize, usize) {
    let mut idx = Index::new(capacity);
    let forest = idx.create_forest(1, 7, 5, 9).unwrap();
    let (tree, _) = idx.create_tree(forest, 3, "music").unwrap();
    let root = idx.trees[tree].root_node;
    (idx, forest, root)
}

#[test]
fn tree_creation_pays_the_admin() {
    let mut idx = Index::new(8);
    let forest = idx.create_forest(1, 7, 5, 9).unwrap();
    let (tree, fee) = idx.create_tree(forest, 3, "music").unwrap();
    assert_eq!(
        fee,
        Transfer {
            from: Account::Wallet(3),
            to: Account::Wallet(7),
            amount: 5,
            authority: Authority::Signer(3),
        }
    );
    let root = idx.trees[tree].root_node;
    assert_eq!(idx.nodes[root].parent, None);
    assert_eq!(idx.nodes[root].tag, b"music".to_vec());
    assert_eq!(idx.create_tree(forest, 3, "music").map(|r| r.0), Err(DipErrors::AlreadyExists));
    assert_eq!(idx.create_tree(5, 3, "x").map(|r| r.0), Err(DipErrors::InvalidNode));
}

#[test]
fn forest_admin_rules() {
    let mut idx = Index::new(8);
    let f = idx.create_forest(1, 7, 5, 9).unwrap();
    assert_eq!(idx.create_forest(1, 8, 0, 0), Err(DipErrors::AlreadyExists));
    assert_eq!(idx.set_forest(f, 8, 8, 1), Err(DipErrors::Unauthorized));
    assert_eq!(idx.set_forest(f, 7, 8, 1), Ok(()));
    assert_eq!(idx.forests[f].admin, 8);
    assert_eq!(idx.forests[f].tree_creation_fee, 1);
    assert_eq!(idx.forests[f].vote_mint, 9);
    assert_eq!(idx.set_forest(4, 8, 8, 1), Err(DipErrors::InvalidNode));
}

#[test]
fn tag_length_limit() {
    let (mut idx, forest, root) = base(8);
    let long = "x".repeat(32);
    let ok = "x".repeat(31);
    assert_eq!(idx.create_node(root, &long), Err(DipErrors::StringTooLong));
    assert!(idx.create_node(root, &ok).is_ok());
    assert_eq!(idx.create_tree(forest, 3, &long).map(|r| r.0), Err(DipErrors::StringTooLong));
}

#[test]
fn note_string_limit() {
    let (mut idx, forest, _) = base(8);
    let long = "y".repeat(201);
    let ok = "y".repeat(200);
    assert_eq!(idx.create_note(forest, 1, &long, "w", "i", "d"), Err(DipErrors::StringTooLong));
    assert_eq!(idx.create_note(forest, 1, "t", "w", "i", &long), Err(DipErrors::StringTooLong));
    let t = idx.create_note(forest, 1, &ok, "w", "i", "d").unwrap();
    assert_eq!(idx.notes[t].title, ok);
    assert_eq!(idx.create_note(forest, 1, "t", "w", "i", "d"), Err(DipErrors::AlreadyExists));
}

#[test]
fn node_identity_and_exclusion() {
    let (mut idx, _, root) = base(8);
    let jazz = idx.create_node(root, "jazz").unwrap();
    assert_eq!(idx.create_node(root, "jazz"), Err(DipErrors::AlreadyExists));
    let rock = idx.create_node(root, "rock").unwrap();
    idx.attach_node(root, jazz).unwrap();
    idx.attach_node(root, rock).unwrap();
    assert_eq!(idx.create_node(jazz, "rock"), Err(DipErrors::TagsMismatch));
    let bebop = idx.create_node(jazz, "bebop").unwrap();
    assert_eq!(idx.nodes[bebop].parent, Some(jazz));
    assert_eq!(idx.create_node(99, "a"), Err(DipErrors::InvalidNode));
}

#[test]
fn attach_node_errors() {
    let (mut idx, _, root) = base(1);
    let a = idx.create_node(root, "a").unwrap();
    let b = idx.create_node(root, "b").unwrap();
    let aa = idx.create_node(a, "aa").unwrap();
    assert_eq!(idx.attach_node(root, aa), Err(DipErrors::NotAChild));
    assert_eq!(idx.attach_node(root, a), Ok(()));
    assert_eq!(idx.attach_node(root, a), Err(DipErrors::AlreadyAChild));
    assert_eq!(idx.attach_node(root, b), Err(DipErrors::NodeFull));
    assert_eq!(idx.attach_node(root, 50), Err(DipErrors::InvalidNode));
}

#[test]
fn replace_node_needs_a_full_parent() {
    let (mut idx, _, root) = base(2);
    let a = idx.create_node(root, "a").unwrap();
    let b = idx.create_node(root, "b").unwrap();
    idx.attach_node(root, a).unwrap();
    assert_eq!(idx.replace_node(root, a, b), Err(DipErrors::NodeNotFull));
    assert_eq!(idx.replace_node(root, b, a), Err(DipErrors::NotAChild));
}

#[test]
fn equal_stake_never_displaces() {
    let (mut idx, forest, root) = base(1);
    let a = idx.create_node(root, "a").unwrap();
    let b = idx.create_node(root, "b").unwrap();
    let ta = idx.create_note(forest, 1, "t", "w", "i", "d").unwrap();
    let tb = idx.create_note(forest, 2, "t", "w", "i", "d").unwrap();
    let sa = idx.create_stake(ta, 5).unwrap();
    let sb = idx.create_stake(tb, 5).unwrap();
    idx.update_stake(sa, 4).unwrap();
    idx.update_stake(sb, 4).unwrap();
    idx.attach_note(a, ta).unwrap();
    idx.attach_note(b, tb).unwrap();
    idx.attach_node(root, a).unwrap();
    assert_eq!(idx.replace_node(root, a, b), Err(DipErrors::NotEnoughStake));
    idx.update_stake(sb, 1).unwrap();
    assert_eq!(idx.nodes[b].stake, 5);
    assert_eq!(idx.replace_node(root, a, b), Ok(()));
    assert_eq!(idx.nodes[root].children, vec![b]);
}

#[test]
fn attach_and_move_note() {
    let (mut idx, forest, root) = base(8);
    let a = idx.create_node(root, "a").unwrap();
    let b = idx.create_node(root, "b").unwrap();
    let t = idx.create_note(forest, 1, "t", "w", "i", "d").unwrap();
    let u = idx.create_note(forest, 2, "t", "w", "i", "d").unwrap();
    let s = idx.create_stake(t, 5).unwrap();
    idx.update_stake(s, 8).unwrap();
    assert_eq!(idx.attach_note(a, t), Ok(()));
    assert_eq!(idx.attach_note(a, u), Err(DipErrors::AlreadyOnNode));
    assert_eq!(idx.attach_note(b, t), Err(DipErrors::AlreadyOnNode));
    assert_eq!(idx.move_note(b, a, t), Err(DipErrors::NotOnNode));
    assert_eq!(idx.move_note(a, a, t), Err(DipErrors::AlreadyOnNode));
    assert_eq!(idx.move_note(a, b, t), Ok(()));
    assert_eq!(idx.nodes[a].stake, 0);
    assert_eq!(idx.nodes[a].attached_note, None);
    assert_eq!(idx.nodes[b].stake, 8);
    assert_eq!(idx.notes[t].location, Some(b));
    assert_eq!(idx.move_note(b, a, t), Ok(()));
    assert_eq!(idx.nodes[a].stake, 8);
    assert_eq!(idx.nodes[a].attached_note, Some(t));
    assert_eq!(idx.nodes[b].stake, 0);
    assert_eq!(idx.nodes[b].attached_note, None);
    assert_eq!(idx.notes[t].location, Some(a));
}

#[test]
fn stake_accounts_open_and_close() {
    let (mut idx, forest, _) = base(8);
    let t = idx.create_note(forest, 1, "t", "w", "i", "d").unwrap();
    let s = idx.create_stake(t, 5).unwrap();
    assert_eq!(idx.create_stake(t, 5), Ok(s));
    assert_eq!(idx.create_stake(9, 5), Err(DipErrors::InvalidNode));
    idx.update_stake(s, 3).unwrap();
    assert_eq!(idx.close_stake(s), Err(DipErrors::StakeNotEmpty));
    idx.update_stake(s, -3).unwrap();
    assert_eq!(idx.close_stake(s), Ok(()));
    assert!(!idx.stakes[s].open);
    assert_eq!(idx.update_stake(s, 1), Err(DipErrors::InvalidNode));
    assert_eq!(idx.create_stake(t, 5), Ok(s));
    assert!(idx.stakes[s].open);
}

#[test]
fn stake_overflow_is_refused() {
    let (mut idx, forest, _) = base(8);
    let t = idx.create_note(forest, 1, "t", "w", "i", "d").unwrap();
    let s = idx.create_stake(t, 5).unwrap();
    let r = idx.create_stake(t, 6).unwrap();
    idx.update_stake(s, u64::MAX as i128).unwrap();
    assert_eq!(idx.update_stake(r, 1), Err(DipErrors::StakeOverflow));
    assert_eq!(idx.update_stake(r, i128::MAX), Err(DipErrors::StakeOverflow));
    assert_eq!(idx.update_stake(r, i128::MIN), Err(DipErrors::NotEnoughStake));
    assert_eq!(idx.notes[t].stake, u64::MAX);
}

#[test]
fn bribe_rules() {
    let (mut idx, forest, root) = base(8);
    let n = idx.create_node(root, "n").unwrap();
    let t = idx.create_note(forest, 1, "t", "w", "i", "d").unwrap();
    let s = idx.create_stake(t, 5).unwrap();
    let (b, _) = idx.set_bribe(n, 2, 10).unwrap();
    assert_eq!(idx.claim_bribe(b, s), Err(DipErrors::NotOnNode));
    idx.attach_note(n, t).unwrap();
    assert_eq!(idx.claim_bribe(b, s), Err(DipErrors::NotEnoughStake));
    let (b2, update) = idx.set_bribe(n, 2, 6).unwrap();
    assert_eq!(b2, b);
    assert_eq!(update.amount, 6);
    assert_eq!(update.to, Account::Escrow(b));
    assert_eq!(idx.bribes[b].amount, 6);
    assert_eq!(idx.bribes.len(), 1);
    assert_eq!(idx.set_bribe(77, 2, 1).map(|r| r.0), Err(DipErrors::InvalidNode));
    idx.update_stake(s, 3).unwrap();
    let paid = idx.claim_bribe(b, s).unwrap();
    assert_eq!(paid.amount, 6);
    assert_eq!(paid.from, Account::Escrow(b));
    assert_eq!(paid.authority, Authority::Forest(forest));
    assert_eq!(idx.claim_bribe(b, 40), Err(DipErrors::InvalidNode));
}

#[test]
fn share_rounds_toward_zero() {
    assert_eq!(stake_share(100, 1, 3), 33);
    assert_eq!(stake_share(100, 2, 3), 66);
    assert_eq!(stake_share(u64::MAX, u64::MAX, u64::MAX), u64::MAX);
    assert_eq!(stake_share(7, 0, 5), 0);
}

#[test]
fn tag_set_follows_the_parent_chain() {
    let (mut idx, _, root) = base(8);
    let jazz = idx.create_node(root, "jazz").unwrap();
    let bebop = idx.create_node(jazz, "bebop").unwrap();
    let mut tags: Vec<String> =
        idx.tags_of(bebop).into_iter().map(|t| String::from_utf8(t).unwrap()).collect();
    tags.sort();
    assert_eq!(tags, vec!["bebop".to_string(), "jazz".to_string(), "music".to_string()]);
    assert_eq!(idx.tags_of(root), vec![b"music".to_vec()]);
    assert_eq!(idx.create_node(bebop, "jazz"), Err(DipErrors::TagsMismatch));
    assert_eq!(idx.create_node(jazz, "music"), Err(DipErrors::TagsMismatch));
}

#[test]
fn aggregates_follow_the_accounts() {
    let (mut idx, forest, root) = base(8);
    let n = idx.create_node(root, "n").unwrap();
    let t = idx.create_note(forest, 1, "t", "w", "i", "d").unwrap();
    idx.attach_note(n, t).unwrap();
    let x = idx.create_stake(t, 1).unwrap();
    let y = idx.create_stake(t, 2).unwrap();
    idx.update_stake(x, 12).unwrap();
    idx.update_stake(y, 30).unwrap();
    idx.update_stake(x, -2).unwrap();
    assert_eq!(idx.stakes[x].stake + idx.stakes[y].stake, idx.notes[t].stake);
    assert_eq!(idx.notes[t].stake, 40);
    assert_eq!(idx.nodes[n].stake, 40);
    let m = idx.create_node(root, "m").unwrap();
    idx.move_note(n, m, t).unwrap();
    assert_eq!(idx.nodes[n].stake, 0);
    assert_eq!(idx.nodes[m].stake, 40);
}

#[test]
fn attach_node_refuses_a_tag_used_below_a_sibling() {
    let (mut idx, _, root) = base(8);
    let a = idx.create_node(root, "a").unwrap();
    idx.attach_node(root, a).unwrap();
    let ab = idx.create_node(a, "b").unwrap();
    let b = idx.create_node(root, "b").unwrap();
    assert_eq!(idx.attach_node(root, b), Err(DipErrors::TagsMismatch));
    assert_eq!(idx.nodes[root].children, vec![a]);
    assert!(idx.excluded_tags(a).is_empty());
    assert_eq!(idx.nodes[ab].parent, Some(a));
}

#[test]
fn attach_node_refuses_a_child_with_a_sibling_tag() {
    let (mut idx, _, root) = base(8);
    let a = idx.create_node(root, "a").unwrap();
    idx.attach_node(root, a).unwrap();
    let b = idx.create_node(root, "b").unwrap();
    idx.create_node(b, "a").unwrap();
    assert_eq!(idx.attach_node(root, b), Err(DipErrors::TagsMismatch));
}

#[test]
fn replace_node_refuses_a_tag_used_below_a_sibling() {
    let (mut idx, forest, root) = base(2);
    let a = idx.create_node(root, "a").unwrap();
    let b = idx.create_node(root, "b").unwrap();
    let c = idx.create_node(root, "c").unwrap();
    idx.attach_node(root, a).unwrap();
    idx.attach_node(root, b).unwrap();
    idx.create_node(a, "c").unwrap();
    let t = idx.create_note(forest, 1, "t", "w", "i", "d").unwrap();
    let s = idx.create_stake(t, 5).unwrap();
    idx.update_stake(s, 3).unwrap();
    idx.attach_note(c, t).unwrap();
    assert_eq!(idx.replace_node(root, b, c), Err(DipErrors::TagsMismatch));
    assert_eq!(idx.nodes[root].children, vec![a, b]);
    // Below the evicted child, the tag is free again.
    let d = idx.create_node(root, "d").unwrap();
    idx.create_node(b, "d").unwrap();
    let u = idx.create_note(forest, 2, "t", "w", "i", "d").unwrap();
    let su = idx.create_stake(u, 5).unwrap();
    idx.update_stake(su, 3).unwrap();
    idx.attach_note(d, u).unwrap();
    assert_eq!(idx.replace_node(root, b, d), Ok(()));
    assert_eq!(idx.nodes[root].children, vec![a, d]);
}
