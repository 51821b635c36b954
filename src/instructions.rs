//! The operations of the store and their byte layout: one opcode byte, then
//! the operation's fields in order.

use vstd::prelude::*;
use crate::codec::{framed, frame_at, lemma_byte_then, lemma_frame_then, lemma_frame_unique, read_frame, read_string, read_u8, utf8};
use crate::accounts::{table_bytes, value_bytes};
use crate::error::ProcessError;
use vstd::utf8::decode_utf8;

verus! {

/// Creates a table's cell.
#[derive(Debug)]
pub struct InitTable {
    pub name: String,
    pub bump: u8,
}

/// Creates a record's cell under an existing table.
#[derive(Debug)]
pub struct Insert {
    pub key: Vec<u8>,
    pub payload: Vec<u8>,
    pub bump: u8,
}

/// Replaces the payload of an existing record, resizing its cell.
#[derive(Debug)]
pub struct Put {
    pub table: String,
    pub table_bump: u8,
    pub key: Vec<u8>,
    pub key_bump: u8,
    pub payload: Vec<u8>,
}

/// Closes a record's cell.
#[derive(Debug)]
pub struct Delete {
    pub table: String,
    pub table_bump: u8,
    pub key: Vec<u8>,
    pub key_bump: u8,
}

/// An operation of the store, as decoded from instruction bytes.
#[derive(Debug)]
pub enum SolDbIntructions {
    /// Opcode 0. Cells: the owner (signer), the table's cell (writable), the
    /// system program.
    InitTable(InitTable),
    /// Opcode 1. Cells: the table's cell, the record's cell (writable), the
    /// payer (signer), the system program.
    Insert(Insert),
    /// Opcode 2. Cells: the payer (signer), the table's cell, the record's
    /// cell (writable), the system program.
    Put(Put),
    /// Opcode 3. Cells: the record's cell (writable), the recipient of its
    /// balance (writable).
    Delete(Delete),
}

impl InitTable {
    pub open spec fn spec_bytes(&self) -> Seq<u8> {
        framed(utf8(self.name@)) + seq![self.bump]
    }

    pub open spec fn encodable(&self) -> bool {
        utf8(self.name@).len() <= u32::MAX
    }
}

impl Insert {
    pub open spec fn spec_bytes(&self) -> Seq<u8> {
        framed(self.key@) + (framed(self.payload@) + seq![self.bump])
    }

    pub open spec fn encodable(&self) -> bool {
        self.key@.len() <= u32::MAX && self.payload@.len() <= u32::MAX
    }
}

impl Put {
    pub open spec fn spec_bytes(&self) -> Seq<u8> {
        framed(utf8(self.table@)) + (seq![self.table_bump] + (framed(self.key@) + (seq![self.key_bump]
            + framed(self.payload@))))
    }

    pub open spec fn encodable(&self) -> bool {
        utf8(self.table@).len() <= u32::MAX && self.key@.len() <= u32::MAX && self.payload@.len()
            <= u32::MAX
    }
}

impl Delete {
    pub open spec fn spec_bytes(&self) -> Seq<u8> {
        framed(utf8(self.table@)) + (seq![self.table_bump] + (framed(self.key@) + seq![self.key_bump]))
    }

    pub open spec fn encodable(&self) -> bool {
        utf8(self.table@).len() <= u32::MAX && self.key@.len() <= u32::MAX
    }
}

impl SolDbIntructions {
    /// The instruction bytes of an operation.
    pub open spec fn spec_bytes(&self) -> Seq<u8> {
        match self {
            SolDbIntructions::InitTable(t) => seq![0u8] + t.spec_bytes(),
            SolDbIntructions::Insert(i) => seq![1u8] + i.spec_bytes(),
            SolDbIntructions::Put(p) => seq![2u8] + p.spec_bytes(),
            SolDbIntructions::Delete(x) => seq![3u8] + x.spec_bytes(),
        }
    }

    /// Whether every field fits the length that frames it.
    pub open spec fn encodable(&self) -> bool {
        match self {
            SolDbIntructions::InitTable(t) => t.encodable(),
            SolDbIntructions::Insert(i) => i.encodable(),
            SolDbIntructions::Put(p) => p.encodable(),
            SolDbIntructions::Delete(x) => x.encodable(),
        }
    }
}

/// The rest of `d` from `pos`.
pub open spec fn tail(d: Seq<u8>, pos: int) -> Seq<u8> {
    d.subrange(pos, d.len() as int)
}

proof fn lemma_init_table_layout(d: Seq<u8>, pos: int, t: InitTable)
    requires
        0 <= pos <= d.len(),
        t.encodable(),
        t.spec_bytes() == tail(d, pos),
    ensures
        frame_at(d, pos, utf8(t.name@)),
        pos + 4 + utf8(t.name@).len() + 1 == d.len(),
        d[pos + 4 + utf8(t.name@).len()] == t.bump,
{
    let n = utf8(t.name@);
    lemma_frame_then(d, pos, n, seq![t.bump]);
    let at1 = pos + 4 + n.len();
    lemma_byte_then(d, at1, t.bump, Seq::empty());
    assert(seq![t.bump] =~= seq![t.bump] + Seq::<u8>::empty());
}

fn parse_init_table(d: &[u8], pos: usize) -> (r: Option<InitTable>)
    requires
        pos <= d@.len(),
    ensures
        r matches Some(t) ==> t.encodable() && t.spec_bytes() == tail(d@, pos as int),
        r is None ==> forall|t: InitTable| t.encodable() ==> #[trigger] t.spec_bytes() != tail(d@, pos as int),
{
    match read_string(d, pos) {
        None => {
            proof {
                assert forall|t: InitTable| t.encodable() implies #[trigger] t.spec_bytes() != tail(d@, pos as int) by {
                    if t.spec_bytes() == tail(d@, pos as int) {
                        lemma_init_table_layout(d@, pos as int, t);
                    }
                }
            }
            None
        },
        Some((name, at1)) => {
            match read_u8(d, at1) {
                Some((bump, at2)) => {
                    if at2 == d.len() {
                        let t = InitTable { name, bump };
                        proof {
                            lemma_byte_then(d@, at1 as int, bump, Seq::empty());
                            assert(tail(d@, at2 as int) =~= Seq::<u8>::empty());
                            assert(seq![bump] =~= seq![bump] + Seq::<u8>::empty());
                            lemma_frame_then(d@, pos as int, utf8(t.name@), seq![bump]);
                        }
                        return Some(t);
                    }
                },
                None => {},
            }
            proof {
                assert forall|t: InitTable| t.encodable() implies #[trigger] t.spec_bytes() != tail(d@, pos as int) by {
                    if t.spec_bytes() == tail(d@, pos as int) {
                        lemma_init_table_layout(d@, pos as int, t);
                        lemma_frame_unique(d@, pos as int, utf8(t.name@), utf8(name@));
                    }
                }
            }
            None
        },
    }
}

proof fn lemma_insert_layout(d: Seq<u8>, pos: int, t: Insert)
    requires
        0 <= pos <= d.len(),
        t.encodable(),
        t.spec_bytes() == tail(d, pos),
    ensures
        frame_at(d, pos, t.key@),
        frame_at(d, pos + 4 + t.key@.len(), t.payload@),
        pos + 4 + t.key@.len() + 4 + t.payload@.len() + 1 == d.len(),
        d[pos + 4 + t.key@.len() + 4 + t.payload@.len()] == t.bump,
{
    lemma_frame_then(d, pos, t.key@, framed(t.payload@) + seq![t.bump]);
    let at1 = pos + 4 + t.key@.len();
    lemma_frame_then(d, at1, t.payload@, seq![t.bump]);
    let at2 = at1 + 4 + t.payload@.len();
    lemma_byte_then(d, at2, t.bump, Seq::empty());
    assert(seq![t.bump] =~= seq![t.bump] + Seq::<u8>::empty());
}

fn parse_insert(d: &[u8], pos: usize) -> (r: Option<Insert>)
    requires
        pos <= d@.len(),
    ensures
        r matches Some(t) ==> t.encodable() && t.spec_bytes() == tail(d@, pos as int),
        r is None ==> forall|t: Insert| t.encodable() ==> #[trigger] t.spec_bytes() != tail(d@, pos as int),
{
    if let Some((key, at1)) = read_frame(d, pos) {
        if let Some((payload, at2)) = read_frame(d, at1) {
            if let Some((bump, at3)) = read_u8(d, at2) {
                if at3 == d.len() {
                    let t = Insert { key, payload, bump };
                    proof {
                        lemma_byte_then(d@, at2 as int, bump, Seq::empty());
                        assert(seq![bump] =~= seq![bump] + Seq::<u8>::empty());
                        lemma_frame_then(d@, at1 as int, t.payload@, seq![bump]);
                        lemma_frame_then(d@, pos as int, t.key@, framed(t.payload@) + seq![bump]);
                    }
                    return Some(t);
                }
            }
            proof {
                assert forall|t: Insert| t.encodable() implies #[trigger] t.spec_bytes() != tail(d@, pos as int) by {
                    if t.spec_bytes() == tail(d@, pos as int) {
                        lemma_insert_layout(d@, pos as int, t);
                        lemma_frame_unique(d@, pos as int, t.key@, key@);
                        lemma_frame_unique(d@, at1 as int, t.payload@, payload@);
                    }
                }
            }
            return None;
        }
        proof {
            assert forall|t: Insert| t.encodable() implies #[trigger] t.spec_bytes() != tail(d@, pos as int) by {
                if t.spec_bytes() == tail(d@, pos as int) {
                    lemma_insert_layout(d@, pos as int, t);
                    lemma_frame_unique(d@, pos as int, t.key@, key@);
                }
            }
        }
        return None;
    }
    proof {
        assert forall|t: Insert| t.encodable() implies #[trigger] t.spec_bytes() != tail(d@, pos as int) by {
            if t.spec_bytes() == tail(d@, pos as int) {
                lemma_insert_layout(d@, pos as int, t);
            }
        }
    }
    None
}

proof fn lemma_delete_layout(d: Seq<u8>, pos: int, t: Delete)
    requires
        0 <= pos <= d.len(),
        t.encodable(),
        t.spec_bytes() == tail(d, pos),
    ensures
        frame_at(d, pos, utf8(t.table@)),
        pos + 4 + utf8(t.table@).len() < d.len(),
        d[pos + 4 + utf8(t.table@).len()] == t.table_bump,
        frame_at(d, pos + 4 + utf8(t.table@).len() + 1, t.key@),
        pos + 4 + utf8(t.table@).len() + 1 + 4 + t.key@.len() + 1 == d.len(),
        d[pos + 4 + utf8(t.table@).len() + 1 + 4 + t.key@.len()] == t.key_bump,
{
    let n = utf8(t.table@);
    lemma_frame_then(d, pos, n, seq![t.table_bump] + (framed(t.key@) + seq![t.key_bump]));
    let at1 = pos + 4 + n.len();
    lemma_byte_then(d, at1, t.table_bump, framed(t.key@) + seq![t.key_bump]);
    let at2 = at1 + 1;
    lemma_frame_then(d, at2, t.key@, seq![t.key_bump]);
    let at3 = at2 + 4 + t.key@.len();
    lemma_byte_then(d, at3, t.key_bump, Seq::empty());
    assert(seq![t.key_bump] =~= seq![t.key_bump] + Seq::<u8>::empty());
}

fn parse_delete(d: &[u8], pos: usize) -> (r: Option<Delete>)
    requires
        pos <= d@.len(),
    ensures
        r matches Some(t) ==> t.encodable() && t.spec_bytes() == tail(d@, pos as int),
        r is None ==> forall|t: Delete| t.encodable() ==> #[trigger] t.spec_bytes() != tail(d@, pos as int),
{
    if let Some((table, at1)) = read_string(d, pos) {
        if let Some((table_bump, at2)) = read_u8(d, at1) {
            if let Some((key, at3)) = read_frame(d, at2) {
                if let Some((key_bump, at4)) = read_u8(d, at3) {
                    if at4 == d.len() {
                        let t = Delete { table, table_bump, key, key_bump };
                        proof {
                            lemma_byte_then(d@, at3 as int, key_bump, Seq::empty());
                            assert(seq![key_bump] =~= seq![key_bump] + Seq::<u8>::empty());
                            lemma_frame_then(d@, at2 as int, t.key@, seq![key_bump]);
                            lemma_byte_then(d@, at1 as int, table_bump, framed(t.key@) + seq![key_bump]);
                            lemma_frame_then(d@, pos as int, utf8(t.table@), seq![table_bump] + (framed(t.key@) + seq![key_bump]));
                        }
                        return Some(t);
                    }
                }
                proof {
                    assert forall|t: Delete| t.encodable() implies #[trigger] t.spec_bytes() != tail(d@, pos as int) by {
                        if t.spec_bytes() == tail(d@, pos as int) {
                            lemma_delete_layout(d@, pos as int, t);
                            lemma_frame_unique(d@, pos as int, utf8(t.table@), utf8(table@));
                            lemma_frame_unique(d@, at2 as int, t.key@, key@);
                        }
                    }
                }
                return None;
            }
        }
        proof {
            assert forall|t: Delete| t.encodable() implies #[trigger] t.spec_bytes() != tail(d@, pos as int) by {
                if t.spec_bytes() == tail(d@, pos as int) {
                    lemma_delete_layout(d@, pos as int, t);
                    lemma_frame_unique(d@, pos as int, utf8(t.table@), utf8(table@));
                }
            }
        }
        return None;
    }
    proof {
        assert forall|t: Delete| t.encodable() implies #[trigger] t.spec_bytes() != tail(d@, pos as int) by {
            if t.spec_bytes() == tail(d@, pos as int) {
                lemma_delete_layout(d@, pos as int, t);
            }
        }
    }
    None
}

proof fn lemma_put_layout(d: Seq<u8>, pos: int, t: Put)
    requires
        0 <= pos <= d.len(),
        t.encodable(),
        t.spec_bytes() == tail(d, pos),
    ensures
        frame_at(d, pos, utf8(t.table@)),
        pos + 4 + utf8(t.table@).len() < d.len(),
        d[pos + 4 + utf8(t.table@).len()] == t.table_bump,
        frame_at(d, pos + 4 + utf8(t.table@).len() + 1, t.key@),
        pos + 4 + utf8(t.table@).len() + 1 + 4 + t.key@.len() < d.len(),
        d[pos + 4 + utf8(t.table@).len() + 1 + 4 + t.key@.len()] == t.key_bump,
        frame_at(d, pos + 4 + utf8(t.table@).len() + 1 + 4 + t.key@.len() + 1, t.payload@),
        pos + 4 + utf8(t.table@).len() + 1 + 4 + t.key@.len() + 1 + 4 + t.payload@.len() == d.len(),
{
    let n = utf8(t.table@);
    let r3 = seq![t.key_bump] + framed(t.payload@);
    let r2 = framed(t.key@) + r3;
    lemma_frame_then(d, pos, n, seq![t.table_bump] + r2);
    let at1 = pos + 4 + n.len();
    lemma_byte_then(d, at1, t.table_bump, r2);
    let at2 = at1 + 1;
    lemma_frame_then(d, at2, t.key@, r3);
    let at3 = at2 + 4 + t.key@.len();
    lemma_byte_then(d, at3, t.key_bump, framed(t.payload@));
    let at4 = at3 + 1;
    lemma_frame_then(d, at4, t.payload@, Seq::empty());
    assert(framed(t.payload@) =~= framed(t.payload@) + Seq::<u8>::empty());
}

fn parse_put(d: &[u8], pos: usize) -> (r: Option<Put>)
    requires
        pos <= d@.len(),
    ensures
        r matches Some(t) ==> t.encodable() && t.spec_bytes() == tail(d@, pos as int),
        r is None ==> forall|t: Put| t.encodable() ==> #[trigger] t.spec_bytes() != tail(d@, pos as int),
{
    if let Some((table, at1)) = read_string(d, pos) {
        if let Some((table_bump, at2)) = read_u8(d, at1) {
            if let Some((key, at3)) = read_frame(d, at2) {
                if let Some((key_bump, at4)) = read_u8(d, at3) {
                    if let Some((payload, at5)) = read_frame(d, at4) {
                        if at5 == d.len() {
                            let t = Put { table, table_bump, key, key_bump, payload };
                            proof {
                                let r3 = seq![key_bump] + framed(t.payload@);
                                let r2 = framed(t.key@) + r3;
                                assert(framed(t.payload@) =~= framed(t.payload@) + Seq::<u8>::empty());
                                lemma_frame_then(d@, at4 as int, t.payload@, Seq::empty());
                                lemma_byte_then(d@, at3 as int, key_bump, framed(t.payload@));
                                lemma_frame_then(d@, at2 as int, t.key@, r3);
                                lemma_byte_then(d@, at1 as int, table_bump, r2);
                                lemma_frame_then(d@, pos as int, utf8(t.table@), seq![table_bump] + r2);
                            }
                            return Some(t);
                        }
                        proof {
                            assert forall|t: Put| t.encodable() implies #[trigger] t.spec_bytes() != tail(d@, pos as int) by {
                                if t.spec_bytes() == tail(d@, pos as int) {
                                    lemma_put_layout(d@, pos as int, t);
                                    lemma_frame_unique(d@, pos as int, utf8(t.table@), utf8(table@));
                                    lemma_frame_unique(d@, at2 as int, t.key@, key@);
                                    lemma_frame_unique(d@, at4 as int, t.payload@, payload@);
                                }
                            }
                        }
                        return None;
                    }
                }
                proof {
                    assert forall|t: Put| t.encodable() implies #[trigger] t.spec_bytes() != tail(d@, pos as int) by {
                        if t.spec_bytes() == tail(d@, pos as int) {
                            lemma_put_layout(d@, pos as int, t);
                            lemma_frame_unique(d@, pos as int, utf8(t.table@), utf8(table@));
                            lemma_frame_unique(d@, at2 as int, t.key@, key@);
                        }
                    }
                }
                return None;
            }
        }
        proof {
            assert forall|t: Put| t.encodable() implies #[trigger] t.spec_bytes() != tail(d@, pos as int) by {
                if t.spec_bytes() == tail(d@, pos as int) {
                    lemma_put_layout(d@, pos as int, t);
                    lemma_frame_unique(d@, pos as int, utf8(t.table@), utf8(table@));
                }
            }
        }
        return None;
    }
    proof {
        assert forall|t: Put| t.encodable() implies #[trigger] t.spec_bytes() != tail(d@, pos as int) by {
            if t.spec_bytes() == tail(d@, pos as int) {
                lemma_put_layout(d@, pos as int, t);
            }
        }
    }
    None
}

impl SolDbIntructions {
    /// Decodes instruction bytes: an opcode, then exactly the fields of that
    /// operation. Anything else is `MalformedInstruction`.
    pub fn unpack(input: &[u8]) -> (r: Result<SolDbIntructions, ProcessError>)
        ensures
            r matches Ok(ix) ==> ix.encodable() && ix.spec_bytes() == input@,
            r is Err ==> r == Err::<SolDbIntructions, ProcessError>(ProcessError::MalformedInstruction),
            r is Err ==> forall|ix: SolDbIntructions| ix.encodable() ==> #[trigger] ix.spec_bytes() != input@,
    {
        proof {
            assert(tail(input@, 0) =~= input@);
            assert forall|op: u8, rest: Seq<u8>| #[trigger] (seq![op] + rest) == input@ <==> (0 < input@.len()
                && input@[0] == op && tail(input@, 1) == rest) by {
                lemma_byte_then(input@, 0, op, rest);
            }
        }
        if input.len() == 0 {
            return Err(ProcessError::MalformedInstruction);
        }
        let op = input[0];
        if op == 0 {
            if let Some(t) = parse_init_table(input, 1) {
                return Ok(SolDbIntructions::InitTable(t));
            }
        } else if op == 1 {
            if let Some(t) = parse_insert(input, 1) {
                return Ok(SolDbIntructions::Insert(t));
            }
        } else if op == 2 {
            if let Some(t) = parse_put(input, 1) {
                return Ok(SolDbIntructions::Put(t));
            }
        } else if op == 3 {
            if let Some(t) = parse_delete(input, 1) {
                return Ok(SolDbIntructions::Delete(t));
            }
        }
        Err(ProcessError::MalformedInstruction)
    }
}

impl SolDbIntructions {
    /// The size of the cell that the operation creates or resizes; `None`
    /// for `Delete`, which sizes no cell.
    pub fn space(&self) -> (r: Option<u64>)
        requires
            self.encodable(),
        ensures
            r == match self {
                SolDbIntructions::InitTable(t) => Some(table_bytes(t.name@).len() as u64),
                SolDbIntructions::Insert(t) => Some(value_bytes(t.payload@).len() as u64),
                SolDbIntructions::Put(t) => Some(value_bytes(t.payload@).len() as u64),
                SolDbIntructions::Delete(_) => None::<u64>,
            },
    {
        match self {
            SolDbIntructions::InitTable(t) => Some(t.name.as_str().as_bytes().len() as u64 + 4),
            SolDbIntructions::Insert(t) => Some(t.payload.len() as u64 + 4),
            SolDbIntructions::Put(t) => Some(t.payload.len() as u64 + 4),
            SolDbIntructions::Delete(_) => None,
        }
    }
}

impl SolDbIntructions {
    /// Whether two operations are the same one with the same field values.
    pub open spec fn same_fields(self, other: SolDbIntructions) -> bool {
        match (self, other) {
            (SolDbIntructions::InitTable(x), SolDbIntructions::InitTable(y)) => x.name@ == y.name@ && x.bump == y.bump,
            (SolDbIntructions::Insert(x), SolDbIntructions::Insert(y)) => x.key@ == y.key@ && x.payload@ == y.payload@
                && x.bump == y.bump,
            (SolDbIntructions::Put(x), SolDbIntructions::Put(y)) => x.table@ == y.table@ && x.table_bump == y.table_bump
                && x.key@ == y.key@ && x.key_bump == y.key_bump && x.payload@ == y.payload@,
            (SolDbIntructions::Delete(x), SolDbIntructions::Delete(y)) => x.table@ == y.table@ && x.table_bump
                == y.table_bump && x.key@ == y.key@ && x.key_bump == y.key_bump,
            _ => false,
        }
    }
}

/// Instruction bytes decode one way only: operations with the same bytes
/// have the same fields.
pub proof fn lemma_bytes_determine_fields(a: SolDbIntructions, b: SolDbIntructions)
    requires
        a.encodable(),
        b.encodable(),
        a.spec_bytes() == b.spec_bytes(),
    ensures
        a.same_fields(b),
{
    let d = a.spec_bytes();
    assert(d[0] == b.spec_bytes()[0]);
    let t = tail(d, 1);
    broadcast use vstd::utf8::encode_utf8_decode_utf8;
    match (a, b) {
        (SolDbIntructions::InitTable(x), SolDbIntructions::InitTable(y)) => {
            assert(t =~= x.spec_bytes());
            assert(t =~= y.spec_bytes());
            lemma_init_table_layout(d, 1, x);
            lemma_init_table_layout(d, 1, y);
            lemma_frame_unique(d, 1, utf8(x.name@), utf8(y.name@));
            assert(decode_utf8(utf8(x.name@)) == decode_utf8(utf8(y.name@)));
        },
        (SolDbIntructions::Insert(x), SolDbIntructions::Insert(y)) => {
            assert(t =~= x.spec_bytes());
            assert(t =~= y.spec_bytes());
            lemma_insert_layout(d, 1, x);
            lemma_insert_layout(d, 1, y);
            lemma_frame_unique(d, 1, x.key@, y.key@);
            lemma_frame_unique(d, (1 + 4 + x.key@.len()) as int, x.payload@, y.payload@);
        },
        (SolDbIntructions::Put(x), SolDbIntructions::Put(y)) => {
            assert(t =~= x.spec_bytes());
            assert(t =~= y.spec_bytes());
            lemma_put_layout(d, 1, x);
            lemma_put_layout(d, 1, y);
            lemma_frame_unique(d, 1, utf8(x.table@), utf8(y.table@));
            assert(decode_utf8(utf8(x.table@)) == decode_utf8(utf8(y.table@)));
            let at2: int = (1 + 4 + utf8(x.table@).len() + 1) as int;
            lemma_frame_unique(d, at2, x.key@, y.key@);
            lemma_frame_unique(d, (at2 + 4 + x.key@.len() + 1) as int, x.payload@, y.payload@);
        },
        (SolDbIntructions::Delete(x), SolDbIntructions::Delete(y)) => {
            assert(t =~= x.spec_bytes());
            assert(t =~= y.spec_bytes());
            lemma_delete_layout(d, 1, x);
            lemma_delete_layout(d, 1, y);
            lemma_frame_unique(d, 1, utf8(x.table@), utf8(y.table@));
            assert(decode_utf8(utf8(x.table@)) == decode_utf8(utf8(y.table@)));
            let at2: int = (1 + 4 + utf8(x.table@).len() + 1) as int;
            lemma_frame_unique(d, at2, x.key@, y.key@);
        },
        _ => {},
    }
}

} // verus!
