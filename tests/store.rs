use solana_program::pubkey::Pubkey;
use solana_program::rent::Rent;
use soldb::accounts::{SolTable, SolValue};
use soldb::address::{derive_address, make_record_seeds, make_table_seeds};
use soldb::error::{ProcessError, SolDbError};
use soldb::instructions::SolDbIntructions;
use soldb::ledger::{CellState, HostCall, Ledger};
use soldb::processor::process_instruction;

const PAYER_FUNDS: u64 = 10_000_000_000;

fn program_id() -> [u8; 32] {
    "SDBPbpwuFzj8zjhf4LjQJwYoy2SAJETeBDGKb8keRpq".parse::<Pubkey>().unwrap().to_bytes()
}

fn system_program() -> [u8; 32] {
    [0u8; 32]
}

fn payer_key() -> [u8; 32] {
    [7u8; 32]
}

fn min_balance(size: usize) -> u64 {
    Rent::default().minimum_balance(size)
}

fn framed_string(s: &str) -> Vec<u8> {
    borsh::to_vec(&s.to_string()).unwrap()
}

fn framed_bytes(b: &[u8]) -> Vec<u8> {
    borsh::to_vec(&b.to_vec()).unwrap()
}

fn init_table_data(name: &str, bump: u8) -> Vec<u8> {
    let mut d = vec![0u8];
    d.extend(framed_string(name));
    d.push(bump);
    d
}

fn insert_data(key: &[u8], payload: &[u8], bump: u8) -> Vec<u8> {
    let mut d = vec![1u8];
    d.extend(framed_bytes(key));
    d.extend(framed_bytes(payload));
    d.push(bump);
    d
}

fn put_data(table: &str, table_bump: u8, key: &[u8], key_bump: u8, payload: &[u8]) -> Vec<u8> {
    let mut d = vec![2u8];
    d.extend(framed_string(table));
    d.push(table_bump);
    d.extend(framed_bytes(key));
    d.push(key_bump);
    d.extend(framed_bytes(payload));
    d
}

fn delete_data(table: &str, table_bump: u8, key: &[u8], key_bump: u8) -> Vec<u8> {
    let mut d = vec![3u8];
    d.extend(framed_string(table));
    d.push(table_bump);
    d.extend(framed_bytes(key));
    d.push(key_bump);
    d
}

fn table_pda(name: &str, owner: &[u8; 32]) -> ([u8; 32], u8) {
    let (k, b) = Pubkey::find_program_address(
        &[name.as_bytes(), owner.as_ref()],
        &Pubkey::new_from_array(program_id()),
    );
    (k.to_bytes(), b)
}

fn record_pda(key: &[u8], table: &[u8; 32], owner: &[u8; 32]) -> ([u8; 32], u8) {
    let (k, b) = Pubkey::find_program_address(
        &[key, table.as_ref(), owner.as_ref()],
        &Pubkey::new_from_array(program_id()),
    );
    (k.to_bytes(), b)
}

fn new_ledger() -> Ledger {
    let mut l = Ledger::new();
    l.add_cell(CellState { key: payer_key(), owner: system_program(), lamports: PAYER_FUNDS, data: vec![] })
        .unwrap();
    l.add_cell(CellState { key: system_program(), owner: system_program(), lamports: 1, data: vec![] })
        .unwrap();
    l
}

fn snapshot(l: &Ledger, keys: &[[u8; 32]]) -> Vec<CellState> {
    keys.iter()
        .map(|k| match l.get(k) {
            Some(c) => CellState { key: c.key, owner: c.owner, lamports: c.lamports, data: c.data.clone() },
            None => CellState { key: *k, owner: system_program(), lamports: 0, data: vec![] },
        })
        .collect()
}

fn plan(l: &Ledger, keys: &[[u8; 32]], data: &[u8]) -> Result<Vec<HostCall>, ProcessError> {
    let ix = SolDbIntructions::unpack(data)?;
    let min = ix.space().map(|n| min_balance(n as usize)).unwrap_or(0);
    process_instruction(&program_id(), &snapshot(l, keys), data, min)
}

fn run(l: &mut Ledger, keys: &[[u8; 32]], data: &[u8]) -> Result<(), ProcessError> {
    let calls = plan(l, keys, data)?;
    l.apply_all(&calls).expect("the ledger refused a call");
    Ok(())
}

fn lamports(l: &Ledger, k: &[u8; 32]) -> u64 {
    l.get(k).unwrap().lamports
}

fn setup_table(l: &mut Ledger, name: &str) -> ([u8; 32], u8) {
    let (table, bump) = table_pda(name, &payer_key());
    run(l, &[payer_key(), table, system_program()], &init_table_data(name, bump)).unwrap();
    (table, bump)
}

fn setup_record(l: &mut Ledger, table: &[u8; 32], key: &[u8], payload: &[u8]) -> ([u8; 32], u8) {
    let (record, bump) = record_pda(key, table, &payer_key());
    run(l, &[*table, record, payer_key(), system_program()], &insert_data(key, payload, bump)).unwrap();
    (record, bump)
}

#[test]
fn derivation_agrees_with_find_program_address() {
    let (table, bump) = table_pda("Test", &payer_key());
    let seeds = make_table_seeds(b"Test", &payer_key(), bump);
    assert_eq!(derive_address(&seeds, &program_id()), Some(table));
    let (record, rbump) = record_pda(b"k-0", &table, &payer_key());
    let seeds = make_record_seeds(b"k-0", &table, &payer_key(), rbump);
    assert_eq!(derive_address(&seeds, &program_id()), Some(record));
    // Derivation is deterministic.
    assert_eq!(derive_address(&seeds, &program_id()), derive_address(&seeds, &program_id()));
}

#[test]
fn derivation_separates_tables_and_records() {
    let other_owner = [9u8; 32];
    let (t1, _) = table_pda("Test", &payer_key());
    let (t2, _) = table_pda("Test", &other_owner);
    let (t3, _) = table_pda("Tesu", &payer_key());
    assert_ne!(t1, t2);
    assert_ne!(t1, t3);
    let (r1, _) = record_pda(b"k-0", &t1, &payer_key());
    let (r2, _) = record_pda(b"k-0", &t3, &payer_key());
    let (r3, _) = record_pda(b"k-0", &t1, &other_owner);
    let (r4, _) = record_pda(b"k-1", &t1, &payer_key());
    assert_ne!(r1, r2);
    assert_ne!(r1, r3);
    assert_ne!(r1, r4);
}

#[test]
fn derivation_refuses_long_seeds() {
    let long = [1u8; 33];
    let seeds = make_table_seeds(&long, &payer_key(), 0);
    assert_eq!(derive_address(&seeds, &program_id()), None);
}

#[test]
fn test_init_table_success() {
    let mut l = new_ledger();
    let (table, _) = setup_table(&mut l, "Test");
    let expected = SolTable { name: "Test".to_string() }.to_bytes();
    let cell = l.get(&table).expect("table cell was not created");
    assert_eq!(cell.owner, program_id());
    assert_eq!(cell.lamports, min_balance(expected.len()));
    assert_eq!(cell.data, expected);
    assert_eq!(SolTable::from_bytes(&cell.data).unwrap().name, "Test");
    assert_eq!(lamports(&l, &payer_key()), PAYER_FUNDS - min_balance(expected.len()));
}

#[test]
fn create_table_tests_test_create_table() {
    let mut l = new_ledger();
    let (table, _) = setup_table(&mut l, "Test");
    let cell = l.get(&table).unwrap();
    assert_eq!(cell.owner, program_id());
    assert!(cell.lamports >= min_balance(cell.data.len()));
    assert_eq!(cell.data.len(), 8);
}

#[test]
fn test_init_table_pda_table_mismatch() {
    let l = new_ledger();
    let (table, bump) = table_pda("Test", &payer_key());
    let r = plan(&l, &[payer_key(), table, system_program()], &init_table_data("Wrong", bump));
    assert_eq!(r.unwrap_err(), ProcessError::Program(SolDbError::PdaMismatch));
    assert!(l.get(&table).is_none());
}

#[test]
fn init_table_wrong_bump_is_refused() {
    let l = new_ledger();
    let (table, bump) = table_pda("Test", &payer_key());
    let r = plan(&l, &[payer_key(), table, system_program()], &init_table_data("Test", bump.wrapping_sub(1)));
    assert_eq!(r.unwrap_err(), ProcessError::Program(SolDbError::PdaMismatch));
}

#[test]
fn init_table_plan_calls() {
    let l = new_ledger();
    let (table, bump) = table_pda("Test", &payer_key());
    let calls = plan(&l, &[payer_key(), table, system_program()], &init_table_data("Test", bump)).unwrap();
    assert_eq!(calls.len(), 2);
    match &calls[0] {
        HostCall::CreateCell { funder, cell, lamports, space, owner, seeds } => {
            assert_eq!(*funder, payer_key());
            assert_eq!(*cell, table);
            assert_eq!(*lamports, min_balance(8));
            assert_eq!(*space, 8);
            assert_eq!(*owner, program_id());
            assert_eq!(seeds.clone(), vec![b"Test".to_vec(), payer_key().to_vec(), vec![bump]]);
        }
        other => panic!("unexpected {:?}", other),
    }
}

#[test]
fn missing_accounts_are_refused() {
    let l = new_ledger();
    let (table, bump) = table_pda("Test", &payer_key());
    let r = plan(&l, &[payer_key(), table], &init_table_data("Test", bump));
    assert_eq!(r.unwrap_err(), ProcessError::MissingAccounts);
}

#[test]
fn test_insert() {
    let mut l = new_ledger();
    let (table, _) = setup_table(&mut l, "Test");
    let before = lamports(&l, &payer_key());
    let (record, _) = setup_record(&mut l, &table, b"k-0", b"v-0");
    let cell = l.get(&record).expect("record cell was not created");
    assert_eq!(SolValue::from_bytes(&cell.data).unwrap().val, b"v-0".to_vec());
    assert_eq!(cell.owner, program_id());
    assert_eq!(cell.data.len(), 7);
    assert_eq!(cell.lamports, min_balance(7));
    assert_eq!(lamports(&l, &payer_key()), before - min_balance(7));
}

#[test]
fn insert_twice_is_refused_by_the_host() {
    let mut l = new_ledger();
    let (table, _) = setup_table(&mut l, "Test");
    let (record, bump) = setup_record(&mut l, &table, b"k-0", b"v-0");
    let calls = plan(&l, &[table, record, payer_key(), system_program()], &insert_data(b"k-0", b"v-1", bump)).unwrap();
    assert!(l.apply_all(&calls).is_err());
    assert_eq!(SolValue::from_bytes(&l.get(&record).unwrap().data).unwrap().val, b"v-0".to_vec());
}

#[test]
fn insert_into_non_table_is_refused() {
    let mut l = new_ledger();
    let fake = [3u8; 32];
    l.add_cell(CellState { key: fake, owner: program_id(), lamports: 1, data: vec![1, 2] }).unwrap();
    let (record, bump) = record_pda(b"k-0", &fake, &payer_key());
    let r = plan(&l, &[fake, record, payer_key(), system_program()], &insert_data(b"k-0", b"v-0", bump));
    assert_eq!(r.unwrap_err(), ProcessError::Program(SolDbError::NotTable));
}

#[test]
fn insert_under_foreign_table_is_refused() {
    let mut l = new_ledger();
    let fake = [3u8; 32];
    l.add_cell(CellState { key: fake, owner: [5u8; 32], lamports: 1, data: SolTable { name: "T".to_string() }.to_bytes() })
        .unwrap();
    let (record, bump) = record_pda(b"k-0", &fake, &payer_key());
    let r = plan(&l, &[fake, record, payer_key(), system_program()], &insert_data(b"k-0", b"v-0", bump));
    assert_eq!(r.unwrap_err(), ProcessError::Program(SolDbError::WrongOwner));
}

#[test]
fn insert_at_wrong_address_is_refused() {
    let mut l = new_ledger();
    let (table, _) = setup_table(&mut l, "Test");
    let (record, bump) = record_pda(b"k-0", &table, &payer_key());
    let r = plan(&l, &[table, record, payer_key(), system_program()], &insert_data(b"k-1", b"v-0", bump));
    assert_eq!(r.unwrap_err(), ProcessError::Program(SolDbError::PdaMismatch));
}

#[test]
fn test_put() {
    let mut l = new_ledger();
    let (table, table_bump) = setup_table(&mut l, "Test");
    let (record, key_bump) = setup_record(&mut l, &table, b"k-0", b"v-0");
    let old_len = l.get(&record).unwrap().data.len();
    let old_min = min_balance(old_len);
    let owner_before = lamports(&l, &payer_key());
    run(&mut l, &[payer_key(), table, record, system_program()], &put_data("Test", table_bump, b"k-0", key_bump, b"v-10"))
        .unwrap();
    let cell = l.get(&record).unwrap();
    assert_eq!(SolValue::from_bytes(&cell.data).unwrap().val, b"v-10".to_vec());
    let new_len = cell.data.len();
    assert!(new_len >= old_len);
    let new_min = min_balance(new_len);
    assert_eq!(cell.lamports, new_min);
    assert_eq!(owner_before - lamports(&l, &payer_key()), new_min - old_min);
}

#[test]
fn put_shrink_refunds_the_excess() {
    let mut l = new_ledger();
    let (table, table_bump) = setup_table(&mut l, "Test");
    let (record, key_bump) = setup_record(&mut l, &table, b"k-0", b"a longer payload");
    let old_min = min_balance(l.get(&record).unwrap().data.len());
    let owner_before = lamports(&l, &payer_key());
    run(&mut l, &[payer_key(), table, record, system_program()], &put_data("Test", table_bump, b"k-0", key_bump, b"s"))
        .unwrap();
    let cell = l.get(&record).unwrap();
    assert_eq!(cell.data, vec![1, 0, 0, 0, b's']);
    assert_eq!(cell.lamports, min_balance(5));
    assert_eq!(lamports(&l, &payer_key()) - owner_before, old_min - min_balance(5));
}

#[test]
fn put_same_size_moves_no_balance() {
    let mut l = new_ledger();
    let (table, table_bump) = setup_table(&mut l, "Test");
    let (record, key_bump) = setup_record(&mut l, &table, b"k-0", b"v-0");
    let calls = plan(&l, &[payer_key(), table, record, system_program()], &put_data("Test", table_bump, b"k-0", key_bump, b"v-1"))
        .unwrap();
    assert_eq!(calls.len(), 1);
    let owner_before = lamports(&l, &payer_key());
    l.apply_all(&calls).unwrap();
    assert_eq!(lamports(&l, &payer_key()), owner_before);
    assert_eq!(SolValue::from_bytes(&l.get(&record).unwrap().data).unwrap().val, b"v-1".to_vec());
}

#[test]
fn put_growth_at_the_cap_is_accepted() {
    let mut l = new_ledger();
    let (table, table_bump) = setup_table(&mut l, "Test");
    let (record, key_bump) = setup_record(&mut l, &table, b"k-0", b"");
    let payload = vec![0xabu8; 10 * 1024];
    run(&mut l, &[payer_key(), table, record, system_program()], &put_data("Test", table_bump, b"k-0", key_bump, &payload))
        .unwrap();
    let cell = l.get(&record).unwrap();
    assert_eq!(cell.data.len(), 4 + 10 * 1024);
    assert_eq!(cell.lamports, min_balance(4 + 10 * 1024));
}

#[test]
fn put_growth_over_the_cap_is_refused() {
    let mut l = new_ledger();
    let (table, table_bump) = setup_table(&mut l, "Test");
    let (record, key_bump) = setup_record(&mut l, &table, b"k-0", b"");
    let payload = vec![0xabu8; 10 * 1024 + 1];
    let before = snapshot(&l, &[record, payer_key()]);
    let r = run(&mut l, &[payer_key(), table, record, system_program()], &put_data("Test", table_bump, b"k-0", key_bump, &payload));
    assert_eq!(r.unwrap_err(), ProcessError::Program(SolDbError::GrowthTooLarge));
    let after = snapshot(&l, &[record, payer_key()]);
    assert_eq!(after[0].data, before[0].data);
    assert_eq!(after[0].lamports, before[0].lamports);
    assert_eq!(after[1].lamports, before[1].lamports);
}

#[test]
fn put_checks_ownership_first() {
    let mut l = new_ledger();
    let (table, table_bump) = setup_table(&mut l, "Test");
    let (record, key_bump) = setup_record(&mut l, &table, b"k-0", b"v-0");
    let mut cells = snapshot(&l, &[payer_key(), table, record, system_program()]);
    cells[2].owner = [5u8; 32];
    let data = put_data("Test", table_bump, b"k-0", key_bump, b"v-1");
    let r = process_instruction(&program_id(), &cells, &data, min_balance(7));
    assert_eq!(r.unwrap_err(), ProcessError::Program(SolDbError::WrongOwner));
}

#[test]
fn put_with_wrong_table_bump_is_refused() {
    let mut l = new_ledger();
    let (table, table_bump) = setup_table(&mut l, "Test");
    let (record, key_bump) = setup_record(&mut l, &table, b"k-0", b"v-0");
    let r = plan(&l, &[payer_key(), table, record, system_program()], &put_data("Test", table_bump.wrapping_sub(1), b"k-0", key_bump, b"v-1"));
    assert_eq!(r.unwrap_err(), ProcessError::Program(SolDbError::PdaMismatch));
}

#[test]
fn test_delete() {
    let mut l = new_ledger();
    let (table, table_bump) = setup_table(&mut l, "Test");
    let (record, key_bump) = setup_record(&mut l, &table, b"k-0", b"v-0");
    let owner_before = lamports(&l, &payer_key());
    let record_lamports = lamports(&l, &record);
    run(&mut l, &[record, payer_key()], &delete_data("Test", table_bump, b"k-0", key_bump)).unwrap();
    assert_eq!(lamports(&l, &payer_key()), owner_before + record_lamports);
    assert!(l.get(&record).is_none());
}

#[test]
fn delete_by_a_stranger_is_refused() {
    let mut l = new_ledger();
    let (table, table_bump) = setup_table(&mut l, "Test");
    let (record, key_bump) = setup_record(&mut l, &table, b"k-0", b"v-0");
    let stranger = [8u8; 32];
    l.add_cell(CellState { key: stranger, owner: system_program(), lamports: 5, data: vec![] }).unwrap();
    let r = plan(&l, &[record, stranger], &delete_data("Test", table_bump, b"k-0", key_bump));
    assert_eq!(r.unwrap_err(), ProcessError::Program(SolDbError::PdaMismatch));
}

#[test]
fn store_lifecycle_scenario() {
    let mut l = new_ledger();
    let (a, table_bump) = setup_table(&mut l, "T");
    let (b, key_bump) = setup_record(&mut l, &a, b"k-0", b"v-0");
    assert_eq!(SolValue::from_bytes(&l.get(&b).unwrap().data).unwrap().val, b"v-0".to_vec());
    run(&mut l, &[payer_key(), a, b, system_program()], &put_data("T", table_bump, b"k-0", key_bump, b"v-10")).unwrap();
    let cell = l.get(&b).unwrap();
    assert_eq!(SolValue::from_bytes(&cell.data).unwrap().val, b"v-10".to_vec());
    assert_eq!(cell.data.len(), 8);
    assert_eq!(cell.lamports, min_balance(8));
    let before = lamports(&l, &payer_key());
    run(&mut l, &[b, payer_key()], &delete_data("T", table_bump, b"k-0", key_bump)).unwrap();
    assert!(l.get(&b).is_none());
    assert_eq!(lamports(&l, &payer_key()), before + min_balance(8));
    // The key can be inserted afresh.
    let (b2, _) = setup_record(&mut l, &a, b"k-0", b"v-2");
    assert_eq!(b2, b);
}

#[test]
fn malformed_instruction_is_refused() {
    let l = new_ledger();
    assert_eq!(plan(&l, &[], &[9, 1, 2]).unwrap_err(), ProcessError::MalformedInstruction);
}
