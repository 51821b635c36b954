//! What the plans of the store do to the host's cells: the guarantees that
//! hold once the host has carried out every call of a plan.

use vstd::prelude::*;
use crate::accounts::{holds_table, value_bytes};
use crate::address::{record_address, table_address};
use crate::codec::utf8;
use crate::error::SolDbError;
use crate::codec::framed;
use crate::ledger::{apply_call, apply_calls, resized, Call, CellModel, CellState, Cells};
use crate::processor::{create_plan, delete_outcome, insert_outcome, put_outcome, put_plan, refused, MAX_GROWTH};

verus! {

/// Two records with the same bytes hold the same payload.
pub proof fn lemma_value_bytes_injective(a: Seq<u8>, b: Seq<u8>)
    requires
        a.len() <= u32::MAX,
        b.len() <= u32::MAX,
        value_bytes(a) == value_bytes(b),
    ensures
        a == b,
{
    crate::codec::lemma_u32_le_round_trip(a.len());
    crate::codec::lemma_u32_le_round_trip(b.len());
    assert(framed(a).subrange(0, 4) =~= crate::codec::u32_le(a.len()));
    assert(framed(b).subrange(0, 4) =~= crate::codec::u32_le(b.len()));
    assert(a =~= framed(a).subrange(4, framed(a).len() as int));
    assert(b =~= framed(b).subrange(4, framed(b).len() as int));
}

proof fn lemma_apply_two(m: Cells, c0: Call, c1: Call)
    ensures
        apply_calls(m, seq![c0, c1]) == match apply_call(m, c0) {
            Some(m1) => apply_call(m1, c1),
            None => None,
        },
{
    assert(seq![c0, c1].drop_first() =~= seq![c1]);
    if let Some(m1) = apply_call(m, c0) {
        lemma_apply_one(m1, c1);
    }
}

proof fn lemma_apply_one(m: Cells, c0: Call)
    ensures
        apply_calls(m, seq![c0]) == apply_call(m, c0),
{
    assert(seq![c0].drop_first() =~= Seq::<Call>::empty());
    if let Some(m1) = apply_call(m, c0) {
        assert(apply_calls(m1, Seq::<Call>::empty()) == Some(m1));
    }
}

proof fn lemma_apply_three(m: Cells, c0: Call, c1: Call, c2: Call)
    ensures
        apply_calls(m, seq![c0, c1, c2]) == match apply_call(m, c0) {
            Some(m1) => apply_calls(m1, seq![c1, c2]),
            None => None,
        },
{
    assert(seq![c0, c1, c2].drop_first() =~= seq![c1, c2]);
}

/// An inserted record holds exactly its payload, framed, at exactly the
/// minimum balance, which the payer pays; reading it back gives the payload.
pub proof fn insert_then_read(
    key: Seq<u8>,
    payload: Seq<u8>,
    bump: u8,
    program_id: Seq<u8>,
    accounts: Seq<CellState>,
    min_balance: nat,
    m: Cells,
)
    requires
        payload.len() <= u32::MAX,
        insert_outcome(key, payload, bump, program_id, accounts, min_balance) is Ok,
        m.contains_key(accounts[2].key@),
        !m.contains_key(accounts[1].key@),
        m[accounts[2].key@].lamports >= min_balance,
    ensures
        ({
            let plan = insert_outcome(key, payload, bump, program_id, accounts, min_balance)->Ok_0;
            let record = accounts[1].key@;
            let payer = accounts[2].key@;
            apply_calls(m, plan) matches Some(m2) && m2.contains_key(record) && m2[record] == CellModel {
                owner: program_id,
                lamports: min_balance,
                data: value_bytes(payload),
            } && m2[payer].lamports == m[payer].lamports - min_balance && forall|v: Seq<u8>|
                v.len() <= u32::MAX && #[trigger] value_bytes(v) == m2[record].data ==> v == payload
        }),
{
    let record = accounts[1].key@;
    let payer = accounts[2].key@;
    let data = value_bytes(payload);
    let plan = insert_outcome(key, payload, bump, program_id, accounts, min_balance)->Ok_0;
    let c0 = plan[0];
    let c1 = plan[1];
    assert(plan =~= seq![c0, c1]);
    lemma_apply_two(m, c0, c1);
    let m1 = apply_call(m, c0)->Some_0;
    assert(m1[record].data == Seq::new(data.len(), |i: int| 0u8));
    let m2 = apply_call(m1, c1)->Some_0;
    assert(m2[record].data =~= data);
    assert forall|v: Seq<u8>| v.len() <= u32::MAX && #[trigger] value_bytes(v) == m2[record].data implies v == payload by {
        lemma_value_bytes_injective(v, payload);
    }
}

/// Deleting a record closes its cell and gives its whole balance to the
/// recipient.
pub proof fn delete_closes_and_refunds(
    table_name: Seq<char>,
    table_bump: u8,
    key: Seq<u8>,
    key_bump: u8,
    program_id: Seq<u8>,
    accounts: Seq<CellState>,
    m: Cells,
)
    requires
        delete_outcome(table_name, table_bump, key, key_bump, program_id, accounts) is Ok,
        m.contains_key(accounts[0].key@),
        m.contains_key(accounts[1].key@),
        accounts[0].key@ != accounts[1].key@,
    ensures
        ({
            let plan = delete_outcome(table_name, table_bump, key, key_bump, program_id, accounts)->Ok_0;
            let record = accounts[0].key@;
            let recipient = accounts[1].key@;
            apply_calls(m, plan) matches Some(m2) && !m2.contains_key(record) && m2[recipient].lamports
                == m[recipient].lamports + m[record].lamports
        }),
{
    let plan = delete_outcome(table_name, table_bump, key, key_bump, program_id, accounts)->Ok_0;
    lemma_apply_one(m, plan[0]);
    assert(plan =~= seq![plan[0]]);
}

/// Resizing a cell to the length of `data` and then writing `data` leaves
/// exactly `data`.
proof fn lemma_resize_then_write(old: Seq<u8>, data: Seq<u8>)
    ensures
        data + resized(old, data.len()).skip(data.len() as int) == data,
{
    assert(resized(old, data.len()).len() == data.len());
    assert(data + resized(old, data.len()).skip(data.len() as int) =~= data);
}

/// An update that grows a record within the cap leaves its cell holding the
/// new payload at exactly `min_balance`, the minimum balance of the new
/// size, and the payer pays exactly the difference. This holds where the
/// cell held no more than that minimum before.
pub proof fn put_growth_tops_up_exactly(
    table_name: Seq<char>,
    table_bump: u8,
    key: Seq<u8>,
    key_bump: u8,
    payload: Seq<u8>,
    program_id: Seq<u8>,
    accounts: Seq<CellState>,
    min_balance: nat,
    m: Cells,
)
    requires
        put_outcome(table_name, table_bump, key, key_bump, payload, program_id, accounts, min_balance) is Ok,
        value_bytes(payload).len() > accounts[2].data@.len(),
        accounts[2].lamports <= min_balance,
        m.contains_key(accounts[0].key@),
        m.contains_key(accounts[2].key@),
        m[accounts[2].key@] == accounts[2].model(),
        accounts[0].key@ != accounts[2].key@,
        m[accounts[0].key@].lamports >= min_balance - accounts[2].lamports,
    ensures
        ({
            let plan = put_outcome(table_name, table_bump, key, key_bump, payload, program_id, accounts, min_balance)->Ok_0;
            let payer = accounts[0].key@;
            let record = accounts[2].key@;
            apply_calls(m, plan) matches Some(m2) && m2.contains_key(record) && m2[record] == CellModel {
                owner: accounts[2].owner@,
                lamports: min_balance,
                data: value_bytes(payload),
            } && m2[payer].lamports == m[payer].lamports - (min_balance - accounts[2].lamports)
        }),
{
    let payer = accounts[0].key@;
    let record = accounts[2].key@;
    let balance = accounts[2].lamports as nat;
    let data = value_bytes(payload);
    let plan = put_outcome(table_name, table_bump, key, key_bump, payload, program_id, accounts, min_balance)->Ok_0;
    assert(plan == put_plan(payer, record, balance, accounts[2].data@.len(), payload, min_balance));
    let resize = Call::Resize { cell: record, size: data.len() };
    let write = Call::Write { cell: record, data };
    lemma_resize_then_write(accounts[2].data@, data);
    if balance < min_balance {
        let transfer = Call::Transfer { from: payer, to: record, amount: (min_balance - balance) as nat };
        assert(plan =~= seq![transfer, resize, write]);
        lemma_apply_three(m, transfer, resize, write);
        let m1 = apply_call(m, transfer)->Some_0;
        lemma_apply_two(m1, resize, write);
    } else {
        assert(plan =~= seq![resize, write]);
        lemma_apply_two(m, resize, write);
    }
}

/// An update that shrinks a record leaves its cell holding the new payload
/// at exactly `min_balance`, the minimum balance of the new size, and the
/// payer gets back exactly the excess. This holds where the cell held at
/// least that minimum before.
pub proof fn put_shrink_refunds_exactly(
    table_name: Seq<char>,
    table_bump: u8,
    key: Seq<u8>,
    key_bump: u8,
    payload: Seq<u8>,
    program_id: Seq<u8>,
    accounts: Seq<CellState>,
    min_balance: nat,
    m: Cells,
)
    requires
        put_outcome(table_name, table_bump, key, key_bump, payload, program_id, accounts, min_balance) is Ok,
        value_bytes(payload).len() < accounts[2].data@.len(),
        accounts[2].lamports >= min_balance,
        m.contains_key(accounts[0].key@),
        m.contains_key(accounts[2].key@),
        m[accounts[2].key@] == accounts[2].model(),
        accounts[0].key@ != accounts[2].key@,
    ensures
        ({
            let plan = put_outcome(table_name, table_bump, key, key_bump, payload, program_id, accounts, min_balance)->Ok_0;
            let payer = accounts[0].key@;
            let record = accounts[2].key@;
            apply_calls(m, plan) matches Some(m2) && m2.contains_key(record) && m2[record] == CellModel {
                owner: accounts[2].owner@,
                lamports: min_balance,
                data: value_bytes(payload),
            } && m2[payer].lamports == m[payer].lamports + (accounts[2].lamports - min_balance)
        }),
{
    let payer = accounts[0].key@;
    let record = accounts[2].key@;
    let balance = accounts[2].lamports as nat;
    let data = value_bytes(payload);
    let plan = put_outcome(table_name, table_bump, key, key_bump, payload, program_id, accounts, min_balance)->Ok_0;
    assert(plan == put_plan(payer, record, balance, accounts[2].data@.len(), payload, min_balance));
    let resize = Call::Resize { cell: record, size: data.len() };
    let write = Call::Write { cell: record, data };
    lemma_resize_then_write(accounts[2].data@, data);
    if balance > min_balance {
        let refund = Call::Move { from: record, to: payer, amount: (balance - min_balance) as nat };
        assert(plan =~= seq![resize, refund, write]);
        lemma_apply_three(m, resize, refund, write);
        let m1 = apply_call(m, resize)->Some_0;
        lemma_apply_two(m1, refund, write);
    } else {
        assert(plan =~= seq![resize, write]);
        lemma_apply_two(m, resize, write);
    }
}

/// An update that would grow a record by more than the cap is refused, so
/// no call is made and its cell keeps its bytes, size and balance.
pub proof fn put_over_cap_is_refused(
    table_name: Seq<char>,
    table_bump: u8,
    key: Seq<u8>,
    key_bump: u8,
    payload: Seq<u8>,
    program_id: Seq<u8>,
    accounts: Seq<CellState>,
    min_balance: nat,
)
    requires
        accounts.len() >= 4,
        value_bytes(payload).len() > accounts[2].data@.len() + MAX_GROWTH,
    ensures
        put_outcome(table_name, table_bump, key, key_bump, payload, program_id, accounts, min_balance) is Err,
        accounts[1].owner@ == program_id && accounts[2].owner@ == program_id && table_address(
            utf8(table_name),
            accounts[0].key@,
            table_bump,
            program_id,
        ) == Some(accounts[1].key@) && holds_table(accounts[1].data@) && record_address(
            key,
            accounts[1].key@,
            accounts[0].key@,
            key_bump,
            program_id,
        ) == Some(accounts[2].key@) ==> put_outcome(
            table_name,
            table_bump,
            key,
            key_bump,
            payload,
            program_id,
            accounts,
            min_balance,
        ) == refused(SolDbError::GrowthTooLarge),
{
}

} // verus!
