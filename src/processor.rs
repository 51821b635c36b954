//! The decisions of the store: each operation checks the cells handed to it
//! and answers with the host calls that carry it out, or with the error that
//! refuses it before any call is made.

use vstd::prelude::*;
use crate::accounts::{encode_table, encode_value, holds_table, table_bytes, value_bytes, SolTable};
use crate::address::{address_matches, derive_address, make_record_seeds, make_table_seeds, record_address, record_seeds, table_address, table_seeds};
use crate::codec::utf8;
use crate::error::{ProcessError, SolDbError};
use crate::instructions::{lemma_bytes_determine_fields, Delete, InitTable, Insert, Put, SolDbIntructions};
use crate::ledger::{calls_view, Call, CellState, HostCall};

verus! {

/// The most bytes one update may add to a record's cell.
pub const MAX_GROWTH: u64 = 10 * 1024;

/// The answer of an operation over plain values.
pub open spec fn outcome_view(r: Result<Vec<HostCall>, ProcessError>) -> Result<Seq<Call>, ProcessError> {
    match r {
        Ok(calls) => Ok(calls_view(calls@)),
        Err(e) => Err(e),
    }
}

/// A refusal by a rule of the store.
pub open spec fn refused(e: SolDbError) -> Result<Seq<Call>, ProcessError> {
    Err(ProcessError::Program(e))
}

/// The calls that create a cell funded to `min_balance` and write `data` into it.
pub open spec fn create_plan(
    funder: Seq<u8>,
    cell: Seq<u8>,
    program_id: Seq<u8>,
    seeds: Seq<Seq<u8>>,
    data: Seq<u8>,
    min_balance: nat,
) -> Seq<Call> {
    seq![
        Call::Create { funder, cell, lamports: min_balance, space: data.len(), owner: program_id, seeds },
        Call::Write { cell, data },
    ]
}

/// What creating a table's cell answers. Cells: the owner, the table's cell,
/// the system program.
pub open spec fn init_table_outcome(
    name: Seq<char>,
    bump: u8,
    program_id: Seq<u8>,
    accounts: Seq<CellState>,
    min_balance: nat,
) -> Result<Seq<Call>, ProcessError> {
    if accounts.len() < 3 {
        Err(ProcessError::MissingAccounts)
    } else {
        let owner = accounts[0].key@;
        let cell = accounts[1].key@;
        if table_address(utf8(name), owner, bump, program_id) != Some(cell) {
            refused(SolDbError::PdaMismatch)
        } else {
            Ok(create_plan(owner, cell, program_id, table_seeds(utf8(name), owner, bump), table_bytes(name), min_balance))
        }
    }
}

/// What inserting a record answers. Cells: the table's cell, the record's
/// cell, the payer, the system program.
pub open spec fn insert_outcome(
    key: Seq<u8>,
    payload: Seq<u8>,
    bump: u8,
    program_id: Seq<u8>,
    accounts: Seq<CellState>,
    min_balance: nat,
) -> Result<Seq<Call>, ProcessError> {
    if accounts.len() < 4 {
        Err(ProcessError::MissingAccounts)
    } else {
        let table = accounts[0];
        let record = accounts[1].key@;
        let payer = accounts[2].key@;
        if table.owner@ != program_id {
            refused(SolDbError::WrongOwner)
        } else if !holds_table(table.data@) {
            refused(SolDbError::NotTable)
        } else if record_address(key, table.key@, payer, bump, program_id) != Some(record) {
            refused(SolDbError::PdaMismatch)
        } else {
            Ok(create_plan(payer, record, program_id, record_seeds(key, table.key@, payer, bump), value_bytes(payload), min_balance))
        }
    }
}

/// The calls that bring a record's cell from `old_size` bytes and `balance`
/// to `payload`, funded to exactly `min_balance`: a top-up and a resize when
/// it grows, a resize and a refund when it shrinks, then the write.
pub open spec fn put_plan(
    payer: Seq<u8>,
    record: Seq<u8>,
    balance: nat,
    old_size: nat,
    payload: Seq<u8>,
    min_balance: nat,
) -> Seq<Call> {
    let data = value_bytes(payload);
    let new_size = data.len();
    let adjust = if new_size > old_size {
        (if balance < min_balance {
            seq![Call::Transfer { from: payer, to: record, amount: (min_balance - balance) as nat }]
        } else {
            Seq::empty()
        }) + seq![Call::Resize { cell: record, size: new_size }]
    } else if new_size < old_size {
        seq![Call::Resize { cell: record, size: new_size }] + (if balance > min_balance {
            seq![Call::Move { from: record, to: payer, amount: (balance - min_balance) as nat }]
        } else {
            Seq::empty()
        })
    } else {
        Seq::empty()
    };
    adjust + seq![Call::Write { cell: record, data }]
}

/// What updating a record answers. Cells: the payer, the table's cell, the
/// record's cell, the system program.
pub open spec fn put_outcome(
    table_name: Seq<char>,
    table_bump: u8,
    key: Seq<u8>,
    key_bump: u8,
    payload: Seq<u8>,
    program_id: Seq<u8>,
    accounts: Seq<CellState>,
    min_balance: nat,
) -> Result<Seq<Call>, ProcessError> {
    if accounts.len() < 4 {
        Err(ProcessError::MissingAccounts)
    } else {
        let payer = accounts[0].key@;
        let table = accounts[1];
        let record = accounts[2];
        let new_size = value_bytes(payload).len();
        let old_size = record.data@.len();
        if table.owner@ != program_id || record.owner@ != program_id {
            refused(SolDbError::WrongOwner)
        } else if table_address(utf8(table_name), payer, table_bump, program_id) != Some(table.key@) {
            refused(SolDbError::PdaMismatch)
        } else if !holds_table(table.data@) {
            refused(SolDbError::NotTable)
        } else if record_address(key, table.key@, payer, key_bump, program_id) != Some(record.key@) {
            refused(SolDbError::PdaMismatch)
        } else if new_size > old_size + MAX_GROWTH {
            refused(SolDbError::GrowthTooLarge)
        } else {
            Ok(put_plan(payer, record.key@, record.lamports as nat, old_size, payload, min_balance))
        }
    }
}

/// What deleting a record answers. Cells: the record's cell, the recipient,
/// which is the identity the record was derived for.
pub open spec fn delete_outcome(
    table_name: Seq<char>,
    table_bump: u8,
    key: Seq<u8>,
    key_bump: u8,
    program_id: Seq<u8>,
    accounts: Seq<CellState>,
) -> Result<Seq<Call>, ProcessError> {
    if accounts.len() < 2 {
        Err(ProcessError::MissingAccounts)
    } else {
        let record = accounts[0];
        let recipient = accounts[1].key@;
        if record.owner@ != program_id {
            refused(SolDbError::WrongOwner)
        } else {
            match table_address(utf8(table_name), recipient, table_bump, program_id) {
                None => refused(SolDbError::PdaMismatch),
                Some(table) => if record_address(key, table, recipient, key_bump, program_id) != Some(record.key@) {
                    refused(SolDbError::PdaMismatch)
                } else {
                    Ok(seq![Call::Close { cell: record.key@, recipient }])
                },
            }
        }
    }
}

/// What an operation answers.
pub open spec fn instruction_outcome(
    ix: SolDbIntructions,
    program_id: Seq<u8>,
    accounts: Seq<CellState>,
    min_balance: nat,
) -> Result<Seq<Call>, ProcessError> {
    match ix {
        SolDbIntructions::InitTable(t) => init_table_outcome(t.name@, t.bump, program_id, accounts, min_balance),
        SolDbIntructions::Insert(t) => insert_outcome(t.key@, t.payload@, t.bump, program_id, accounts, min_balance),
        SolDbIntructions::Put(t) => put_outcome(t.table@, t.table_bump, t.key@, t.key_bump, t.payload@, program_id, accounts, min_balance),
        SolDbIntructions::Delete(t) => delete_outcome(t.table@, t.table_bump, t.key@, t.key_bump, program_id, accounts),
    }
}

fn missing() -> (r: Result<Vec<HostCall>, ProcessError>)
    ensures
        r == Err::<Vec<HostCall>, ProcessError>(ProcessError::MissingAccounts),
{
    Err(ProcessError::MissingAccounts)
}

fn refuse(e: SolDbError) -> (r: Result<Vec<HostCall>, ProcessError>)
    ensures
        r == Err::<Vec<HostCall>, ProcessError>(ProcessError::Program(e)),
{
    Err(ProcessError::Program(e))
}

/// Whether `data` holds a table marker.
fn is_table(data: &[u8]) -> (r: bool)
    ensures
        r == holds_table(data@),
{
    match SolTable::from_bytes(data) {
        Some(_) => true,
        None => false,
    }
}

/// The calls that create `cell` funded to `min_balance` and write `data`.
fn create_calls(
    funder: [u8; 32],
    cell: [u8; 32],
    program_id: &[u8; 32],
    seeds: Vec<Vec<u8>>,
    data: Vec<u8>,
    min_balance: u64,
) -> (r: Vec<HostCall>)
    ensures
        calls_view(r@) == create_plan(funder@, cell@, program_id@, crate::address::seeds_view(seeds@), data@, min_balance as nat),
{
    let mut calls: Vec<HostCall> = Vec::new();
    calls.push(HostCall::CreateCell {
        funder,
        cell,
        lamports: min_balance,
        space: data.len() as u64,
        owner: *program_id,
        seeds,
    });
    calls.push(HostCall::WriteData { cell, data });
    assert(calls_view(calls@) =~= create_plan(funder@, cell@, program_id@, crate::address::seeds_view(calls@[0]->seeds@), calls@[1]->data@, min_balance as nat));
    calls
}

/// Creates a table's cell at the address derived from its name and owner,
/// funded by the owner to `min_balance`, the minimum balance of the
/// marker's size.
pub fn process_init_table(
    ix: &InitTable,
    program_id: &[u8; 32],
    accounts: &Vec<CellState>,
    min_balance: u64,
) -> (r: Result<Vec<HostCall>, ProcessError>)
    requires
        ix.encodable(),
    ensures
        outcome_view(r) == init_table_outcome(ix.name@, ix.bump, program_id@, accounts@, min_balance as nat),
{
    if accounts.len() < 3 {
        return missing();
    }
    let owner = accounts[0].key;
    let cell = accounts[1].key;
    let seeds = make_table_seeds(ix.name.as_str().as_bytes(), &owner, ix.bump);
    if !address_matches(&seeds, program_id, &cell) {
        return refuse(SolDbError::PdaMismatch);
    }
    let data = encode_table(ix.name.as_str());
    Ok(create_calls(owner, cell, program_id, seeds, data, min_balance))
}

/// Creates a record's cell at the address derived from its key, its table
/// and the payer, funded by the payer to `min_balance`, the minimum balance
/// of the record's size.
pub fn process_insert(
    ix: &Insert,
    program_id: &[u8; 32],
    accounts: &Vec<CellState>,
    min_balance: u64,
) -> (r: Result<Vec<HostCall>, ProcessError>)
    requires
        ix.encodable(),
    ensures
        outcome_view(r) == insert_outcome(ix.key@, ix.payload@, ix.bump, program_id@, accounts@, min_balance as nat),
{
    if accounts.len() < 4 {
        return missing();
    }
    let table = &accounts[0];
    let record = accounts[1].key;
    let payer = accounts[2].key;
    if !crate::address::same_address(&table.owner, program_id) {
        return refuse(SolDbError::WrongOwner);
    }
    if !is_table(table.data.as_slice()) {
        return refuse(SolDbError::NotTable);
    }
    let seeds = make_record_seeds(ix.key.as_slice(), &table.key, &payer, ix.bump);
    if !address_matches(&seeds, program_id, &record) {
        return refuse(SolDbError::PdaMismatch);
    }
    let data = encode_value(ix.payload.as_slice());
    Ok(create_calls(payer, record, program_id, seeds, data, min_balance))
}

/// Replaces a record's payload. The checks come first: ownership of both
/// cells, the table's address, its marker, the record's address, then the
/// growth cap; only then the calls, which leave the record's cell sized to
/// the new payload and funded to exactly `min_balance`, the minimum balance
/// of that size.
pub fn process_put(
    ix: &Put,
    program_id: &[u8; 32],
    accounts: &Vec<CellState>,
    min_balance: u64,
) -> (r: Result<Vec<HostCall>, ProcessError>)
    requires
        ix.encodable(),
    ensures
        outcome_view(r) == put_outcome(
            ix.table@,
            ix.table_bump,
            ix.key@,
            ix.key_bump,
            ix.payload@,
            program_id@,
            accounts@,
            min_balance as nat,
        ),
{
    if accounts.len() < 4 {
        return missing();
    }
    let payer = accounts[0].key;
    let table = &accounts[1];
    let record = &accounts[2];
    if !crate::address::same_address(&table.owner, program_id) || !crate::address::same_address(&record.owner, program_id) {
        return refuse(SolDbError::WrongOwner);
    }
    let table_seeds = make_table_seeds(ix.table.as_str().as_bytes(), &payer, ix.table_bump);
    if !address_matches(&table_seeds, program_id, &table.key) {
        return refuse(SolDbError::PdaMismatch);
    }
    if !is_table(table.data.as_slice()) {
        return refuse(SolDbError::NotTable);
    }
    let record_seeds = make_record_seeds(ix.key.as_slice(), &table.key, &payer, ix.key_bump);
    if !address_matches(&record_seeds, program_id, &record.key) {
        return refuse(SolDbError::PdaMismatch);
    }
    let data = encode_value(ix.payload.as_slice());
    let new_size: usize = data.len();
    let old_size: usize = record.data.len();
    if new_size > old_size && (new_size - old_size) as u64 > MAX_GROWTH {
        return refuse(SolDbError::GrowthTooLarge);
    }
    let balance = record.lamports;
    let mut calls: Vec<HostCall> = Vec::new();
    if new_size > old_size {
        if balance < min_balance {
            calls.push(HostCall::Transfer { from: payer, to: record.key, amount: min_balance - balance });
        }
        calls.push(HostCall::Resize { cell: record.key, size: new_size });
    } else if new_size < old_size {
        calls.push(HostCall::Resize { cell: record.key, size: new_size });
        if balance > min_balance {
            calls.push(HostCall::MoveLamports { from: record.key, to: payer, amount: balance - min_balance });
        }
    }
    calls.push(HostCall::WriteData { cell: record.key, data });
    assert(calls_view(calls@) =~= put_plan(payer@, record.key@, balance as nat, old_size as nat, ix.payload@, min_balance as nat));
    Ok(calls)
}

/// Closes a record's cell, giving its whole balance to the recipient. The
/// cell must be owned by this program and lie at the address derived from
/// the key, the table and the recipient.
pub fn process_delete(
    ix: &Delete,
    program_id: &[u8; 32],
    accounts: &Vec<CellState>,
) -> (r: Result<Vec<HostCall>, ProcessError>)
    requires
        ix.encodable(),
    ensures
        outcome_view(r) == delete_outcome(ix.table@, ix.table_bump, ix.key@, ix.key_bump, program_id@, accounts@),
{
    if accounts.len() < 2 {
        return missing();
    }
    let record = &accounts[0];
    let recipient = accounts[1].key;
    if !crate::address::same_address(&record.owner, program_id) {
        return refuse(SolDbError::WrongOwner);
    }
    let table_seeds = make_table_seeds(ix.table.as_str().as_bytes(), &recipient, ix.table_bump);
    let table = match derive_address(&table_seeds, program_id) {
        Some(a) => a,
        None => {
            return refuse(SolDbError::PdaMismatch);
        },
    };
    let record_seeds = make_record_seeds(ix.key.as_slice(), &table, &recipient, ix.key_bump);
    if !address_matches(&record_seeds, program_id, &record.key) {
        return refuse(SolDbError::PdaMismatch);
    }
    let mut calls: Vec<HostCall> = Vec::new();
    calls.push(HostCall::Close { cell: record.key, recipient });
    assert(calls_view(calls@) =~= seq![Call::Close { cell: record.key@, recipient: recipient@ }]);
    Ok(calls)
}

/// Decodes an instruction and carries it out. `min_balance` is the minimum
/// balance of the size that the operation gives its cell (see
/// `SolDbIntructions::space`).
pub fn process_instruction(
    program_id: &[u8; 32],
    accounts: &Vec<CellState>,
    instruction_data: &[u8],
    min_balance: u64,
) -> (r: Result<Vec<HostCall>, ProcessError>)
    ensures
        (forall|ix: SolDbIntructions| ix.encodable() ==> #[trigger] ix.spec_bytes() != instruction_data@)
            ==> r == Err::<Vec<HostCall>, ProcessError>(ProcessError::MalformedInstruction),
        forall|ix: SolDbIntructions| ix.encodable() && #[trigger] ix.spec_bytes() == instruction_data@
            ==> outcome_view(r) == instruction_outcome(ix, program_id@, accounts@, min_balance as nat),
{
    let ix = match SolDbIntructions::unpack(instruction_data) {
        Ok(ix) => ix,
        Err(e) => {
            return Err(e);
        },
    };
    let r = match &ix {
        SolDbIntructions::InitTable(t) => process_init_table(t, program_id, accounts, min_balance),
        SolDbIntructions::Insert(t) => process_insert(t, program_id, accounts, min_balance),
        SolDbIntructions::Put(t) => process_put(t, program_id, accounts, min_balance),
        SolDbIntructions::Delete(t) => process_delete(t, program_id, accounts),
    };
    assert forall|other: SolDbIntructions| other.encodable() && #[trigger] other.spec_bytes() == instruction_data@
        implies outcome_view(r) == instruction_outcome(other, program_id@, accounts@, min_balance as nat) by {
        lemma_bytes_determine_fields(other, ix);
    }
    r
}

} // verus!
