//! Derivation of cell addresses from seeds, and the seed tuples of tables
//! and records.

use vstd::prelude::*;

verus! {

/// The address that the host derives from `seeds` for `program_id`, or
/// `None` where the seeds admit no address.
pub uninterp spec fn program_address(seeds: Seq<Seq<u8>>, program_id: Seq<u8>) -> Option<Seq<u8>>;

/// Most seeds one derivation takes.
pub const MAX_SEEDS: usize = 16;

/// Most bytes one seed may hold.
pub const MAX_SEED_LEN: usize = 32;

/// The seeds as plain byte sequences.
pub open spec fn seeds_view(seeds: Seq<Vec<u8>>) -> Seq<Seq<u8>> {
    seeds.map_values(|s: Vec<u8>| s@)
}

/// Relies on `Pubkey::create_program_address`: it hashes the seeds and the
/// program id, gives `None` on more than `MAX_SEEDS` seeds or a seed longer
/// than `MAX_SEED_LEN`, and is otherwise a function of its arguments alone.
#[verifier::external_body]
fn create_program_address(seeds: &Vec<Vec<u8>>, program_id: &[u8; 32]) -> (r: Option<[u8; 32]>)
    ensures
        r is None <==> program_address(seeds_view(seeds@), program_id@) is None,
        r matches Some(a) ==> program_address(seeds_view(seeds@), program_id@) == Some(a@),
        seeds@.len() > MAX_SEEDS ==> r is None,
        (exists|i: int| 0 <= i < seeds@.len() && seeds@[i]@.len() > MAX_SEED_LEN) ==> r is None,
{
    let refs: Vec<&[u8]> = seeds.iter().map(|s| s.as_slice()).collect();
    let id = solana_program::pubkey::Pubkey::new_from_array(*program_id);
    solana_program::pubkey::Pubkey::create_program_address(&refs, &id).ok().map(|p| p.to_bytes())
}

/// The seeds of a table's cell: its name, its owner and the bump.
pub open spec fn table_seeds(name: Seq<u8>, owner: Seq<u8>, bump: u8) -> Seq<Seq<u8>> {
    seq![name, owner, seq![bump]]
}

/// The seeds of a record's cell: its key, its table's address, its owner and
/// the bump.
pub open spec fn record_seeds(key: Seq<u8>, table: Seq<u8>, owner: Seq<u8>, bump: u8) -> Seq<Seq<u8>> {
    seq![key, table, owner, seq![bump]]
}

/// The address of a table's cell.
pub open spec fn table_address(name: Seq<u8>, owner: Seq<u8>, bump: u8, program_id: Seq<u8>) -> Option<Seq<u8>> {
    program_address(table_seeds(name, owner, bump), program_id)
}

/// The address of a record's cell.
pub open spec fn record_address(
    key: Seq<u8>,
    table: Seq<u8>,
    owner: Seq<u8>,
    bump: u8,
    program_id: Seq<u8>,
) -> Option<Seq<u8>> {
    program_address(record_seeds(key, table, owner, bump), program_id)
}

/// A copy of `b` as a vector.
pub fn bytes_to_vec(b: &[u8]) -> (r: Vec<u8>)
    ensures
        r@ == b@,
{
    let mut r: Vec<u8> = Vec::new();
    let mut i: usize = 0;
    while i < b.len()
        invariant
            i <= b@.len(),
            r@ == b@.subrange(0, i as int),
        decreases b@.len() - i,
    {
        r.push(b[i]);
        i = i + 1;
        assert(r@ =~= b@.subrange(0, i as int));
    }
    assert(r@ =~= b@);
    r
}

/// Whether two addresses are the same.
pub fn same_address(a: &[u8; 32], b: &[u8; 32]) -> (r: bool)
    ensures
        r == (a@ == b@),
{
    let mut i: usize = 0;
    while i < 32
        invariant
            i <= 32,
            a@.len() == 32,
            b@.len() == 32,
            forall|j: int| 0 <= j < i ==> a@[j] == b@[j],
        decreases 32 - i,
    {
        if a[i] != b[i] {
            assert(a@[i as int] != b@[i as int]);
            return false;
        }
        i = i + 1;
    }
    assert(a@ =~= b@);
    true
}

/// The seeds of a table's cell, as the host takes them.
pub fn make_table_seeds(name: &[u8], owner: &[u8; 32], bump: u8) -> (r: Vec<Vec<u8>>)
    ensures
        seeds_view(r@) == table_seeds(name@, owner@, bump),
{
    let mut r: Vec<Vec<u8>> = Vec::new();
    r.push(bytes_to_vec(name));
    r.push(bytes_to_vec(owner.as_slice()));
    let mut b: Vec<u8> = Vec::new();
    b.push(bump);
    r.push(b);
    assert(seeds_view(r@) =~= table_seeds(name@, owner@, bump));
    r
}

/// The seeds of a record's cell, as the host takes them.
pub fn make_record_seeds(key: &[u8], table: &[u8; 32], owner: &[u8; 32], bump: u8) -> (r: Vec<Vec<u8>>)
    ensures
        seeds_view(r@) == record_seeds(key@, table@, owner@, bump),
{
    let mut r: Vec<Vec<u8>> = Vec::new();
    r.push(bytes_to_vec(key));
    r.push(bytes_to_vec(table.as_slice()));
    r.push(bytes_to_vec(owner.as_slice()));
    let mut b: Vec<u8> = Vec::new();
    b.push(bump);
    r.push(b);
    assert(seeds_view(r@) =~= record_seeds(key@, table@, owner@, bump));
    r
}

/// Derives the address of the cell that `seeds` name for `program_id`.
pub fn derive_address(seeds: &Vec<Vec<u8>>, program_id: &[u8; 32]) -> (r: Option<[u8; 32]>)
    ensures
        r is None <==> program_address(seeds_view(seeds@), program_id@) is None,
        r matches Some(a) ==> program_address(seeds_view(seeds@), program_id@) == Some(a@),
{
    create_program_address(seeds, program_id)
}

/// Whether `cell` is the address that `seeds` derive for `program_id`.
pub fn address_matches(seeds: &Vec<Vec<u8>>, program_id: &[u8; 32], cell: &[u8; 32]) -> (r: bool)
    ensures
        r == (program_address(seeds_view(seeds@), program_id@) == Some(cell@)),
{
    match derive_address(seeds, program_id) {
        Some(a) => same_address(&a, cell),
        None => false,
    }
}

/// The bytes that the derivation hashes, before the program id: the seeds
/// one after another.
pub open spec fn seed_bytes(seeds: Seq<Seq<u8>>) -> Seq<u8> {
    seeds.flatten()
}

proof fn lemma_seed_bytes_three(a: Seq<u8>, b: Seq<u8>, c: Seq<u8>)
    ensures
        seed_bytes(seq![a, b, c]) == a + b + c,
{
    let s = seq![a, b, c];
    assert(s.drop_first() =~= seq![b, c]);
    assert(s.drop_first().drop_first() =~= seq![c]);
    assert(s.drop_first().drop_first().drop_first() =~= Seq::<Seq<u8>>::empty());
    assert(Seq::<Seq<u8>>::empty().flatten() =~= Seq::<u8>::empty());
    assert(seq![c].first() == c);
    assert(seq![c].flatten() =~= c);
    assert(seq![b, c].flatten() =~= b + c);
    assert(s.flatten() =~= a + b + c);
}

proof fn lemma_seed_bytes_four(a: Seq<u8>, b: Seq<u8>, c: Seq<u8>, d: Seq<u8>)
    ensures
        seed_bytes(seq![a, b, c, d]) == a + b + c + d,
{
    let s = seq![a, b, c, d];
    assert(s.drop_first() =~= seq![b, c, d]);
    lemma_seed_bytes_three(b, c, d);
    assert(s.flatten() =~= a + b + c + d);
}

/// Sequences of equal length that differ differ at some index.
proof fn lemma_differ_at(x: Seq<u8>, y: Seq<u8>) -> (i: int)
    requires
        x.len() == y.len(),
        x != y,
    ensures
        0 <= i < x.len(),
        x[i] != y[i],
{
    if forall|j: int| 0 <= j < x.len() ==> x[j] == y[j] {
        assert(x =~= y);
    }
    choose|j: int| 0 <= j < x.len() && x[j] != y[j]
}

/// Deriving a table's address twice from the same name, owner and bump gives
/// the same answer; and tables that differ in name or owner hand the
/// derivation different bytes to hash, so their addresses differ unless the
/// hash collides.
pub proof fn table_derivation_separates(n1: Seq<u8>, o1: Seq<u8>, n2: Seq<u8>, o2: Seq<u8>, bump: u8, program_id: Seq<u8>)
    requires
        o1.len() == 32,
        o2.len() == 32,
    ensures
        table_address(n1, o1, bump, program_id) == table_address(n1, o1, bump, program_id),
        (n1 != n2 || o1 != o2) ==> seed_bytes(table_seeds(n1, o1, bump)) != seed_bytes(table_seeds(n2, o2, bump)),
{
    lemma_seed_bytes_three(n1, o1, seq![bump]);
    lemma_seed_bytes_three(n2, o2, seq![bump]);
    let b1 = n1 + o1 + seq![bump];
    let b2 = n2 + o2 + seq![bump];
    assert(seed_bytes(table_seeds(n1, o1, bump)) == b1);
    assert(seed_bytes(table_seeds(n2, o2, bump)) == b2);
    if (n1 != n2 || o1 != o2) && n1.len() == n2.len() {
        if n1 != n2 {
            let i = lemma_differ_at(n1, n2);
            assert(b1[i] != b2[i]);
        } else {
            let j = lemma_differ_at(o1, o2);
            assert(b1[n1.len() + j] != b2[n1.len() + j]);
        }
    }
}

/// Deriving a record's address twice from the same seeds gives the same
/// answer; and records that differ in key, table or owner hand the
/// derivation different bytes to hash, so their addresses differ unless the
/// hash collides.
pub proof fn record_derivation_separates(
    k1: Seq<u8>,
    t1: Seq<u8>,
    o1: Seq<u8>,
    k2: Seq<u8>,
    t2: Seq<u8>,
    o2: Seq<u8>,
    bump: u8,
    program_id: Seq<u8>,
)
    requires
        t1.len() == 32,
        o1.len() == 32,
        t2.len() == 32,
        o2.len() == 32,
    ensures
        record_address(k1, t1, o1, bump, program_id) == record_address(k1, t1, o1, bump, program_id),
        (k1 != k2 || t1 != t2 || o1 != o2) ==> seed_bytes(record_seeds(k1, t1, o1, bump)) != seed_bytes(
            record_seeds(k2, t2, o2, bump),
        ),
{
    lemma_seed_bytes_four(k1, t1, o1, seq![bump]);
    lemma_seed_bytes_four(k2, t2, o2, seq![bump]);
    let b1 = k1 + t1 + o1 + seq![bump];
    let b2 = k2 + t2 + o2 + seq![bump];
    assert(seed_bytes(record_seeds(k1, t1, o1, bump)) == b1);
    assert(seed_bytes(record_seeds(k2, t2, o2, bump)) == b2);
    if (k1 != k2 || t1 != t2 || o1 != o2) && k1.len() == k2.len() {
        if k1 != k2 {
            let i = lemma_differ_at(k1, k2);
            assert(b1[i] != b2[i]);
        } else if t1 != t2 {
            let j = lemma_differ_at(t1, t2);
            assert(b1[k1.len() + j] != b2[k1.len() + j]);
        } else {
            let j = lemma_differ_at(o1, o2);
            assert(b1[k1.len() + 32 + j] != b2[k1.len() + 32 + j]);
        }
    }
}

} // verus!
