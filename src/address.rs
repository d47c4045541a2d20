use vstd::prelude::*;
use anchor_lang::prelude::Pubkey;
use crate::index::MAX_TAG_LENGTH;

verus! {

/// Seeds may hold at most this many bytes each.
pub const MAX_SEED_LENGTH: usize = 32;

/// At most this many seeds go into one derivation, besides the bump seed.
pub const MAX_SEED_COUNT: usize = 15;

/// The program-derived address of `seeds` under `program`.
pub uninterp spec fn program_address(seeds: Seq<Seq<u8>>, program: Seq<u8>) -> Seq<u8>;

/// The byte sequences held by `seeds`.
pub open spec fn seeds_view(seeds: Seq<Vec<u8>>) -> Seq<Seq<u8>> {
    seeds.map_values(|s: Vec<u8>| s@)
}

/// Relies on `Pubkey::find_program_address`: the address is a function of
/// the seeds and the program alone. It refuses more than fifteen seeds and a
/// seed over 32 bytes by panicking; it also panics when no bump seed gives an
/// address off the curve, which happens with negligible probability.
#[verifier::external_body]
fn find_address(seeds: &Vec<Vec<u8>>, program: &[u8; 32]) -> (r: [u8; 32])
    requires
        seeds@.len() <= MAX_SEED_COUNT,
        forall|i: int| 0 <= i < seeds@.len() ==> #[trigger] seeds@[i]@.len() <= MAX_SEED_LENGTH,
    ensures
        r@ == program_address(seeds_view(seeds@), program@),
{
    let s: Vec<&[u8]> = seeds.iter().map(|x| x.as_slice()).collect();
    Pubkey::find_program_address(&s, &Pubkey::new_from_array(*program)).0.to_bytes()
}

pub open spec fn forest_seed() -> Seq<u8> {
    seq![102u8, 111u8, 114u8, 101u8, 115u8, 116u8]
}

pub open spec fn authority_seed() -> Seq<u8> {
    seq![97u8, 117u8, 116u8, 104u8, 111u8, 114u8, 105u8, 116u8, 121u8]
}

pub open spec fn tree_seed() -> Seq<u8> {
    seq![116u8, 114u8, 101u8, 101u8]
}

pub open spec fn node_seed() -> Seq<u8> {
    seq![110u8, 111u8, 100u8, 101u8]
}

pub open spec fn note_seed() -> Seq<u8> {
    seq![110u8, 111u8, 116u8, 101u8]
}

pub open spec fn stake_seed() -> Seq<u8> {
    seq![115u8, 116u8, 97u8, 107u8, 101u8]
}

pub open spec fn bribe_seed() -> Seq<u8> {
    seq![98u8, 114u8, 105u8, 98u8, 101u8]
}

fn bytes_of(a: &[u8; 32]) -> (r: Vec<u8>)
    ensures
        r@ == a@,
{
    let mut r: Vec<u8> = Vec::new();
    let mut i: usize = 0;
    while i < 32
        invariant
            0 <= i <= 32,
            a@.len() == 32,
            r@ == a@.subrange(0, i as int),
        decreases 32 - i,
    {
        r.push(a[i]);
        i = i + 1;
    }
    assert(r@ =~= a@);
    r
}

fn derive2(program: &[u8; 32], first: Vec<u8>, second: Vec<u8>) -> (r: [u8; 32])
    requires
        first@.len() <= MAX_SEED_LENGTH,
        second@.len() <= MAX_SEED_LENGTH,
    ensures
        r@ == program_address(seq![first@, second@], program@),
{
    let mut seeds: Vec<Vec<u8>> = Vec::new();
    seeds.push(first);
    seeds.push(second);
    assert(seeds_view(seeds@) =~= seq![first@, second@]);
    find_address(&seeds, program)
}

fn derive3(program: &[u8; 32], first: Vec<u8>, second: Vec<u8>, third: Vec<u8>) -> (r: [u8; 32])
    requires
        first@.len() <= MAX_SEED_LENGTH,
        second@.len() <= MAX_SEED_LENGTH,
        third@.len() <= MAX_SEED_LENGTH,
    ensures
        r@ == program_address(seq![first@, second@, third@], program@),
{
    let mut seeds: Vec<Vec<u8>> = Vec::new();
    seeds.push(first);
    seeds.push(second);
    seeds.push(third);
    assert(seeds_view(seeds@) =~= seq![first@, second@, third@]);
    find_address(&seeds, program)
}

/// The address of the forest with id `id`.
pub fn forest_address(program: &[u8; 32], id: &[u8; 32]) -> (r: [u8; 32])
    ensures
        r@ == program_address(seq![forest_seed(), id@], program@),
{
    let seed: Vec<u8> = vec![102u8, 111u8, 114u8, 101u8, 115u8, 116u8];
    assert(seed@ == forest_seed());
    derive2(program, seed, bytes_of(id))
}

/// The authority under which the protocol moves tokens out of a forest's custody.
pub fn forest_authority_address(program: &[u8; 32], forest_id: &[u8; 32]) -> (r: [u8; 32])
    ensures
        r@ == program_address(seq![authority_seed(), forest_id@], program@),
{
    let seed: Vec<u8> = vec![97u8, 117u8, 116u8, 104u8, 111u8, 114u8, 105u8, 116u8, 121u8];
    assert(seed@ == authority_seed());
    derive2(program, seed, bytes_of(forest_id))
}

/// The address of the tree of `forest` with tag `tag`.
pub fn tree_address(program: &[u8; 32], forest: &[u8; 32], tag: &Vec<u8>) -> (r: [u8; 32])
    requires
        tag@.len() < MAX_TAG_LENGTH,
    ensures
        r@ == program_address(seq![tree_seed(), forest@, tag@], program@),
{
    let seed: Vec<u8> = vec![116u8, 114u8, 101u8, 101u8];
    assert(seed@ == tree_seed());
    derive3(program, seed, bytes_of(forest), tag.clone())
}

/// The address of a node of `tree`: for the root (`parent` is `None`) it
/// derives from the tree and the tag, for any other node from the tree, the
/// parent and the tag. Tags are shorter than a parent address, so the seeds
/// of a root never read as those of another node.
pub fn node_address(program: &[u8; 32], tree: &[u8; 32], parent: Option<&[u8; 32]>, tag: &Vec<u8>) -> (r:
    [u8; 32])
    requires
        tag@.len() < MAX_TAG_LENGTH,
    ensures
        match parent {
            Some(p) => r@ == program_address(
                seq![node_seed(), tree@, p@, tag@],
                program@,
            ),
            None => r@ == program_address(seq![node_seed(), tree@, tag@], program@),
        },
{
    let seed: Vec<u8> = vec![110u8, 111u8, 100u8, 101u8];
    assert(seed@ == node_seed());
    match parent {
        None => derive3(program, seed, bytes_of(tree), tag.clone()),
        Some(p) => {
            let t = tag.clone();
            let mut seeds: Vec<Vec<u8>> = Vec::new();
            seeds.push(seed);
            seeds.push(bytes_of(tree));
            seeds.push(bytes_of(p));
            seeds.push(t);
            assert(seeds_view(seeds@) =~= seq![node_seed(), tree@, p@, tag@]);
            find_address(&seeds, program)
        },
    }
}

/// The address of the note of `forest` with id `id`.
pub fn note_address(program: &[u8; 32], forest: &[u8; 32], id: &[u8; 32]) -> (r: [u8; 32])
    ensures
        r@ == program_address(seq![note_seed(), forest@, id@], program@),
{
    let seed: Vec<u8> = vec![110u8, 111u8, 116u8, 101u8];
    assert(seed@ == note_seed());
    derive3(program, seed, bytes_of(forest), bytes_of(id))
}

/// The address of the stake account of `staker` on `note`.
pub fn stake_address(program: &[u8; 32], note: &[u8; 32], staker: &[u8; 32]) -> (r: [u8; 32])
    ensures
        r@ == program_address(seq![stake_seed(), note@, staker@], program@),
{
    let seed: Vec<u8> = vec![115u8, 116u8, 97u8, 107u8, 101u8];
    assert(seed@ == stake_seed());
    derive3(program, seed, bytes_of(note), bytes_of(staker))
}

/// The address of the bribe of `briber` on `node`.
pub fn bribe_address(program: &[u8; 32], node: &[u8; 32], briber: &[u8; 32]) -> (r: [u8; 32])
    ensures
        r@ == program_address(seq![bribe_seed(), node@, briber@], program@),
{
    let seed: Vec<u8> = vec![98u8, 114u8, 105u8, 98u8, 101u8];
    assert(seed@ == bribe_seed());
    derive3(program, seed, bytes_of(node), bytes_of(briber))
}

} // verus!
