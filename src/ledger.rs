//! Cells as the host keeps them, the calls through which the store asks the
//! host to change them, and a model of what each call does.

use vstd::prelude::*;
use crate::address::seeds_view;

verus! {

/// What an operation sees of one cell handed to it.
#[derive(Debug)]
pub struct CellState {
    /// The cell's address.
    pub key: [u8; 32],
    /// The program that may write the cell.
    pub owner: [u8; 32],
    /// The cell's balance.
    pub lamports: u64,
    /// The cell's bytes.
    pub data: Vec<u8>,
}

/// A change that the store asks the host to make.
#[derive(Debug)]
pub enum HostCall {
    /// Create `cell` with `space` zeroed bytes, owned by `owner`, funded with
    /// `lamports` from `funder`; the store signs for `cell` with `seeds`.
    CreateCell { funder: [u8; 32], cell: [u8; 32], lamports: u64, space: u64, owner: [u8; 32], seeds: Vec<Vec<u8>> },
    /// Transfer `amount` from `from` to `to` through the system program.
    Transfer { from: [u8; 32], to: [u8; 32], amount: u64 },
    /// Resize the bytes of `cell` to `size`, zero-filling what is new.
    Resize { cell: [u8; 32], size: usize },
    /// Move `amount` from `from`, a cell this program owns, to `to` directly.
    MoveLamports { from: [u8; 32], to: [u8; 32], amount: u64 },
    /// Write `data` over the first bytes of `cell`.
    WriteData { cell: [u8; 32], data: Vec<u8> },
    /// Close `cell`, giving its whole balance to `recipient`.
    Close { cell: [u8; 32], recipient: [u8; 32] },
}

/// A host call over plain values.
pub enum Call {
    Create { funder: Seq<u8>, cell: Seq<u8>, lamports: nat, space: nat, owner: Seq<u8>, seeds: Seq<Seq<u8>> },
    Transfer { from: Seq<u8>, to: Seq<u8>, amount: nat },
    Resize { cell: Seq<u8>, size: nat },
    Move { from: Seq<u8>, to: Seq<u8>, amount: nat },
    Write { cell: Seq<u8>, data: Seq<u8> },
    Close { cell: Seq<u8>, recipient: Seq<u8> },
}

impl View for HostCall {
    type V = Call;

    open spec fn view(&self) -> Call {
        match self {
            HostCall::CreateCell { funder, cell, lamports, space, owner, seeds } => Call::Create {
                funder: funder@,
                cell: cell@,
                lamports: *lamports as nat,
                space: *space as nat,
                owner: owner@,
                seeds: seeds_view(seeds@),
            },
            HostCall::Transfer { from, to, amount } => Call::Transfer { from: from@, to: to@, amount: *amount as nat },
            HostCall::Resize { cell, size } => Call::Resize { cell: cell@, size: *size as nat },
            HostCall::MoveLamports { from, to, amount } => Call::Move { from: from@, to: to@, amount: *amount as nat },
            HostCall::WriteData { cell, data } => Call::Write { cell: cell@, data: data@ },
            HostCall::Close { cell, recipient } => Call::Close { cell: cell@, recipient: recipient@ },
        }
    }
}

/// The calls of a plan over plain values.
pub open spec fn calls_view(calls: Seq<HostCall>) -> Seq<Call> {
    calls.map_values(|c: HostCall| c@)
}

/// A cell over plain values.
pub struct CellModel {
    pub owner: Seq<u8>,
    pub lamports: nat,
    pub data: Seq<u8>,
}

impl CellState {
    pub open spec fn model(&self) -> CellModel {
        CellModel { owner: self.owner@, lamports: self.lamports as nat, data: self.data@ }
    }
}

/// The cells of the host, by address.
pub type Cells = Map<Seq<u8>, CellModel>;

/// `data` resized to `size`, cut or zero-filled.
pub open spec fn resized(data: Seq<u8>, size: nat) -> Seq<u8> {
    if size <= data.len() {
        data.take(size as int)
    } else {
        data + Seq::new((size - data.len()) as nat, |i: int| 0u8)
    }
}

/// `amount` moved from `from` to `to`, where both exist, differ, and `from`
/// holds enough.
pub open spec fn move_balance(m: Cells, from: Seq<u8>, to: Seq<u8>, amount: nat) -> Option<Cells> {
    if m.contains_key(from) && m.contains_key(to) && from != to && m[from].lamports >= amount {
        let f = m[from];
        let t = m[to];
        Some(
            m.insert(from, CellModel { lamports: (f.lamports - amount) as nat, ..f }).insert(
                to,
                CellModel { lamports: t.lamports + amount, ..t },
            ),
        )
    } else {
        None
    }
}

/// What one call does to the cells; `None` where the host refuses it.
pub open spec fn apply_call(m: Cells, c: Call) -> Option<Cells> {
    match c {
        Call::Create { funder, cell, lamports, space, owner, seeds } => {
            if m.contains_key(funder) && !m.contains_key(cell) && m[funder].lamports >= lamports {
                let f = m[funder];
                Some(
                    m.insert(funder, CellModel { lamports: (f.lamports - lamports) as nat, ..f }).insert(
                        cell,
                        CellModel { owner, lamports, data: Seq::new(space, |i: int| 0u8) },
                    ),
                )
            } else {
                None
            }
        },
        Call::Transfer { from, to, amount } => move_balance(m, from, to, amount),
        Call::Move { from, to, amount } => move_balance(m, from, to, amount),
        Call::Resize { cell, size } => {
            if m.contains_key(cell) {
                Some(m.insert(cell, CellModel { data: resized(m[cell].data, size), ..m[cell] }))
            } else {
                None
            }
        },
        Call::Write { cell, data } => {
            if m.contains_key(cell) && data.len() <= m[cell].data.len() {
                Some(m.insert(cell, CellModel { data: data + m[cell].data.skip(data.len() as int), ..m[cell] }))
            } else {
                None
            }
        },
        Call::Close { cell, recipient } => {
            if m.contains_key(cell) && m.contains_key(recipient) && cell != recipient {
                let r = m[recipient];
                Some(
                    m.insert(recipient, CellModel { lamports: r.lamports + m[cell].lamports, ..r }).remove(cell),
                )
            } else {
                None
            }
        },
    }
}

/// What a plan does to the cells, call after call; `None` where the host
/// refuses one of them.
pub open spec fn apply_calls(m: Cells, cs: Seq<Call>) -> Option<Cells>
    decreases cs.len(),
{
    if cs.len() == 0 {
        Some(m)
    } else {
        match apply_call(m, cs[0]) {
            Some(m1) => apply_calls(m1, cs.drop_first()),
            None => None,
        }
    }
}

/// Why the in-memory ledger refused a call.
#[derive(Clone, Copy, Debug, PartialEq, Eq, Structural)]
pub enum HostError {
    /// A cell that the call names does not exist.
    UnknownCell,
    /// The cell to create exists already.
    CellExists,
    /// A balance holds less than the call takes from it.
    InsufficientFunds,
    /// The call names one cell twice.
    SameCell,
    /// The data to write is longer than the cell.
    DataTooLong,
    /// A balance or a size would not fit its integer.
    Overflow,
}

/// Whether the integers of a call's result fit their types.
pub open spec fn call_fits(m: Cells, c: Call) -> bool {
    match c {
        Call::Create { funder, cell, lamports, space, owner, seeds } => space <= usize::MAX,
        Call::Transfer { from, to, amount } => m[to].lamports + amount <= u64::MAX,
        Call::Move { from, to, amount } => m[to].lamports + amount <= u64::MAX,
        Call::Resize { cell, size } => true,
        Call::Write { cell, data } => true,
        Call::Close { cell, recipient } => m[recipient].lamports + m[cell].lamports <= u64::MAX,
    }
}

/// An in-memory ledger: the host's cells, changed by host calls as the
/// model says.
pub struct Ledger {
    cells: Vec<CellState>,
}

/// Whether no two cells share an address.
pub open spec fn keys_unique(cells: Seq<CellState>) -> bool {
    forall|i: int, j: int| 0 <= i < cells.len() && 0 <= j < cells.len() && i != j ==> #[trigger] cells[i].key@ != #[trigger] cells[j].key@
}

/// The cells by address.
pub open spec fn cells_model(cells: Seq<CellState>) -> Cells {
    Map::new(
        |k: Seq<u8>| exists|i: int| 0 <= i < cells.len() && #[trigger] cells[i].key@ == k,
        |k: Seq<u8>| cells[choose|i: int| 0 <= i < cells.len() && #[trigger] cells[i].key@ == k].model(),
    )
}

proof fn lemma_model_at(cells: Seq<CellState>, i: int)
    requires
        keys_unique(cells),
        0 <= i < cells.len(),
    ensures
        cells_model(cells).contains_key(cells[i].key@),
        cells_model(cells)[cells[i].key@] == cells[i].model(),
{
    let k = cells[i].key@;
    assert(exists|j: int| 0 <= j < cells.len() && #[trigger] cells[j].key@ == k);
    let j = choose|j: int| 0 <= j < cells.len() && #[trigger] cells[j].key@ == k;
    assert(i == j);
}

/// Replacing the cell at `i` by one at the same address replaces its model.
proof fn lemma_model_update(cells: Seq<CellState>, i: int, c: CellState)
    requires
        keys_unique(cells),
        0 <= i < cells.len(),
        c.key@ == cells[i].key@,
    ensures
        keys_unique(cells.update(i, c)),
        cells_model(cells.update(i, c)) == cells_model(cells).insert(c.key@, c.model()),
{
    let n = cells.update(i, c);
    assert forall|a: int, b: int| 0 <= a < n.len() && 0 <= b < n.len() && a != b implies #[trigger] n[a].key@ != #[trigger] n[b].key@ by {
        assert(n[a].key@ == cells[a].key@);
        assert(n[b].key@ == cells[b].key@);
    }
    let m1 = cells_model(n);
    let m2 = cells_model(cells).insert(c.key@, c.model());
    assert forall|k: Seq<u8>| #[trigger] m1.contains_key(k) <==> m2.contains_key(k) by {
        if m2.contains_key(k) && k != c.key@ {
            let j = choose|j: int| 0 <= j < cells.len() && #[trigger] cells[j].key@ == k;
            assert(n[j].key@ == k);
        }
        if k == c.key@ {
            assert(n[i].key@ == k);
        }
        if m1.contains_key(k) && k != c.key@ {
            let j = choose|j: int| 0 <= j < n.len() && #[trigger] n[j].key@ == k;
            assert(cells[j].key@ == k);
        }
    }
    assert forall|k: Seq<u8>| #[trigger] m1.contains_key(k) implies m1[k] == m2[k] by {
        let j = choose|j: int| 0 <= j < n.len() && #[trigger] n[j].key@ == k;
        lemma_model_at(n, j);
        if j != i {
            lemma_model_at(cells, j);
        }
    }
    assert(m1 =~= m2);
}

/// Adding a cell at a new address adds its model.
proof fn lemma_model_push(cells: Seq<CellState>, c: CellState)
    requires
        keys_unique(cells),
        !cells_model(cells).contains_key(c.key@),
    ensures
        keys_unique(cells.push(c)),
        cells_model(cells.push(c)) == cells_model(cells).insert(c.key@, c.model()),
{
    let n = cells.push(c);
    assert forall|a: int| 0 <= a < cells.len() implies #[trigger] cells[a].key@ != c.key@ by {
        if cells[a].key@ == c.key@ {
            assert(cells_model(cells).contains_key(c.key@));
        }
    }
    assert forall|a: int, b: int| 0 <= a < n.len() && 0 <= b < n.len() && a != b implies #[trigger] n[a].key@ != #[trigger] n[b].key@ by {
        if a < cells.len() && b < cells.len() {
            assert(n[a] == cells[a] && n[b] == cells[b]);
        } else if a < cells.len() {
            assert(n[a] == cells[a]);
        } else {
            assert(n[b] == cells[b]);
        }
    }
    let m1 = cells_model(n);
    let m2 = cells_model(cells).insert(c.key@, c.model());
    assert forall|k: Seq<u8>| #[trigger] m1.contains_key(k) <==> m2.contains_key(k) by {
        if m2.contains_key(k) && k != c.key@ {
            let j = choose|j: int| 0 <= j < cells.len() && #[trigger] cells[j].key@ == k;
            assert(n[j].key@ == k);
        }
        if k == c.key@ {
            assert(n[cells.len() as int].key@ == k);
        }
        if m1.contains_key(k) {
            let j = choose|j: int| 0 <= j < n.len() && #[trigger] n[j].key@ == k;
            if j < cells.len() {
                assert(cells[j].key@ == k);
            }
        }
    }
    assert forall|k: Seq<u8>| #[trigger] m1.contains_key(k) implies m1[k] == m2[k] by {
        let j = choose|j: int| 0 <= j < n.len() && #[trigger] n[j].key@ == k;
        lemma_model_at(n, j);
        if j < cells.len() {
            assert(n[j] == cells[j]);
            lemma_model_at(cells, j);
        }
    }
    assert(m1 =~= m2);
}

/// Removing the cell at `i` removes its model.
proof fn lemma_model_remove(cells: Seq<CellState>, i: int)
    requires
        keys_unique(cells),
        0 <= i < cells.len(),
    ensures
        keys_unique(cells.remove(i)),
        cells_model(cells.remove(i)) == cells_model(cells).remove(cells[i].key@),
{
    let n = cells.remove(i);
    let key = cells[i].key@;
    assert forall|a: int| 0 <= a < n.len() implies #[trigger] n[a] == cells[if a < i { a } else { a + 1 }] by {}
    assert forall|a: int, b: int| 0 <= a < n.len() && 0 <= b < n.len() && a != b implies #[trigger] n[a].key@ != #[trigger] n[b].key@ by {
        assert(n[a] == cells[if a < i { a } else { a + 1 }]);
        assert(n[b] == cells[if b < i { b } else { b + 1 }]);
    }
    let m1 = cells_model(n);
    let m2 = cells_model(cells).remove(key);
    assert forall|k: Seq<u8>| #[trigger] m1.contains_key(k) <==> m2.contains_key(k) by {
        if m2.contains_key(k) {
            let j = choose|j: int| 0 <= j < cells.len() && #[trigger] cells[j].key@ == k;
            assert(j != i);
            let a = if j < i { j } else { j - 1 };
            assert(n[a] == cells[j]);
        }
        if m1.contains_key(k) {
            let a = choose|a: int| 0 <= a < n.len() && #[trigger] n[a].key@ == k;
            let j = if a < i { a } else { a + 1 };
            assert(n[a] == cells[j]);
            assert(cells[j].key@ == k);
            assert(j != i);
        }
    }
    assert forall|k: Seq<u8>| #[trigger] m1.contains_key(k) implies m1[k] == m2[k] by {
        let a = choose|a: int| 0 <= a < n.len() && #[trigger] n[a].key@ == k;
        let j = if a < i { a } else { a + 1 };
        assert(n[a] == cells[j]);
        lemma_model_at(n, a);
        lemma_model_at(cells, j);
    }
    assert(m1 =~= m2);
}

/// `data` resized to `size`, cut or zero-filled.
fn resize_bytes(data: &mut Vec<u8>, size: usize)
    ensures
        final(data)@ == resized(old(data)@, size as nat),
{
    if size <= data.len() {
        data.truncate(size);
        assert(final(data)@ =~= resized(old(data)@, size as nat));
    } else {
        let ghost start = data@;
        while data.len() < size
            invariant
                start.len() <= data@.len() <= size,
                data@ == start + Seq::new((data@.len() - start.len()) as nat, |i: int| 0u8),
            decreases size - data@.len(),
        {
            data.push(0u8);
            assert(data@ =~= start + Seq::new((data@.len() - start.len()) as nat, |i: int| 0u8));
        }
    }
}

/// `head` written over the first bytes of `data`.
fn overwrite(data: &Vec<u8>, head: &[u8]) -> (r: Vec<u8>)
    requires
        head@.len() <= data@.len(),
    ensures
        r@ == head@ + data@.skip(head@.len() as int),
{
    let mut r: Vec<u8> = Vec::new();
    crate::codec::push_bytes(&mut r, head);
    let mut i: usize = head.len();
    while i < data.len()
        invariant
            head@.len() <= i <= data@.len(),
            r@ == head@ + data@.subrange(head@.len() as int, i as int),
        decreases data@.len() - i,
    {
        r.push(data[i]);
        i = i + 1;
        assert(r@ =~= head@ + data@.subrange(head@.len() as int, i as int));
    }
    assert(data@.skip(head@.len() as int) =~= data@.subrange(head@.len() as int, data@.len() as int));
    r
}

impl Ledger {
    /// No two cells share an address.
    pub closed spec fn wf(&self) -> bool {
        keys_unique(self.cells@)
    }

    /// The cells by address.
    pub closed spec fn model(&self) -> Cells {
        cells_model(self.cells@)
    }

    /// A ledger with no cells.
    pub fn new() -> (r: Ledger)
        ensures
            r.wf(),
            r.model() == Map::<Seq<u8>, CellModel>::empty(),
    {
        let r = Ledger { cells: Vec::new() };
        assert(r.model() =~= Map::<Seq<u8>, CellModel>::empty());
        r
    }

    /// The index of the cell at `key`.
    fn find(&self, key: &[u8; 32]) -> (r: Option<usize>)
        requires
            self.wf(),
        ensures
            r matches Some(i) ==> i < self.cells@.len() && self.cells@[i as int].key@ == key@,
            r is None ==> !self.model().contains_key(key@),
    {
        let mut i: usize = 0;
        while i < self.cells.len()
            invariant
                i <= self.cells@.len(),
                forall|j: int| 0 <= j < i ==> #[trigger] self.cells@[j].key@ != key@,
            decreases self.cells@.len() - i,
        {
            if crate::address::same_address(&self.cells[i].key, key) {
                return Some(i);
            }
            i = i + 1;
        }
        None
    }

    /// The cell at `key`.
    pub fn get(&self, key: &[u8; 32]) -> (r: Option<&CellState>)
        requires
            self.wf(),
        ensures
            r matches Some(c) ==> self.model().contains_key(key@) && self.model()[key@] == c.model() && c.key@ == key@,
            r is None ==> !self.model().contains_key(key@),
    {
        match self.find(key) {
            Some(i) => {
                proof {
                    lemma_model_at(self.cells@, i as int);
                }
                Some(&self.cells[i])
            },
            None => None,
        }
    }

    /// Adds a cell at an address that holds none yet.
    pub fn add_cell(&mut self, cell: CellState) -> (r: Result<(), HostError>)
        requires
            old(self).wf(),
        ensures
            final(self).wf(),
            r is Ok <==> !old(self).model().contains_key(cell.key@),
            r is Ok ==> final(self).model() == old(self).model().insert(cell.key@, cell.model()),
            r is Err ==> final(self).model() == old(self).model(),
    {
        match self.find(&cell.key) {
            Some(i) => {
                proof {
                    lemma_model_at(self.cells@, i as int);
                }
                Err(HostError::CellExists)
            },
            None => {
                proof {
                    lemma_model_push(self.cells@, cell);
                }
                self.cells.push(cell);
                Ok(())
            },
        }
    }

    fn set_lamports(&mut self, i: usize, lamports: u64)
        requires
            old(self).wf(),
            i < old(self).cells@.len(),
        ensures
            final(self).wf(),
            final(self).cells@.len() == old(self).cells@.len(),
            final(self).model() == old(self).model().insert(
                old(self).cells@[i as int].key@,
                CellModel { lamports: lamports as nat, ..old(self).cells@[i as int].model() },
            ),
            forall|j: int| 0 <= j < final(self).cells@.len() ==> #[trigger] final(self).cells@[j].key@ == old(self).cells@[j].key@,
            final(self).cells@[i as int].lamports == lamports,
    {
        let mut c = self.cells.remove(i);
        c.lamports = lamports;
        proof {
            lemma_model_update(old(self).cells@, i as int, c);
            assert(old(self).cells@.remove(i as int).insert(i as int, c) =~= old(self).cells@.update(i as int, c));
            assert(c.model() == CellModel { lamports: lamports as nat, ..old(self).cells@[i as int].model() });
        }
        self.cells.insert(i, c);
    }

    fn set_data(&mut self, i: usize, data: Vec<u8>)
        requires
            old(self).wf(),
            i < old(self).cells@.len(),
        ensures
            final(self).wf(),
            final(self).model() == old(self).model().insert(
                old(self).cells@[i as int].key@,
                CellModel { data: data@, ..old(self).cells@[i as int].model() },
            ),
    {
        let mut c = self.cells.remove(i);
        c.data = data;
        proof {
            lemma_model_update(old(self).cells@, i as int, c);
            assert(old(self).cells@.remove(i as int).insert(i as int, c) =~= old(self).cells@.update(i as int, c));
            assert(c.model() == CellModel { data: data@, ..old(self).cells@[i as int].model() });
        }
        self.cells.insert(i, c);
    }
}

impl Ledger {
    /// Moves `amount` from the cell at `from` to the cell at `to`.
    fn move_between(&mut self, from: &[u8; 32], to: &[u8; 32], amount: u64) -> (r: Result<(), HostError>)
        requires
            old(self).wf(),
        ensures
            final(self).wf(),
            r is Ok ==> move_balance(old(self).model(), from@, to@, amount as nat) == Some(final(self).model()),
            r is Err ==> final(self).model() == old(self).model(),
            move_balance(old(self).model(), from@, to@, amount as nat) is Some && old(self).model()[to@].lamports
                + amount <= u64::MAX ==> r is Ok,
    {
        let ghost m = self.model();
        let fi = match self.find(from) {
            Some(i) => i,
            None => {
                return Err(HostError::UnknownCell);
            },
        };
        let ti = match self.find(to) {
            Some(i) => i,
            None => {
                return Err(HostError::UnknownCell);
            },
        };
        proof {
            lemma_model_at(self.cells@, fi as int);
            lemma_model_at(self.cells@, ti as int);
        }
        if fi == ti {
            return Err(HostError::SameCell);
        }
        let fl = self.cells[fi].lamports;
        let tl = self.cells[ti].lamports;
        if fl < amount {
            return Err(HostError::InsufficientFunds);
        }
        if tl > u64::MAX - amount {
            return Err(HostError::Overflow);
        }
        self.set_lamports(fi, fl - amount);
        proof {
            lemma_model_at(self.cells@, ti as int);
        }
        self.set_lamports(ti, tl + amount);
        Ok(())
    }

    /// Carries out one host call as the model says; refused calls change
    /// nothing.
    pub fn apply(&mut self, call: &HostCall) -> (r: Result<(), HostError>)
        requires
            old(self).wf(),
        ensures
            final(self).wf(),
            r is Ok ==> apply_call(old(self).model(), call@) == Some(final(self).model()),
            r is Err ==> final(self).model() == old(self).model(),
            apply_call(old(self).model(), call@) is Some && call_fits(old(self).model(), call@) ==> r is Ok,
    {
        match call {
            HostCall::CreateCell { funder, cell, lamports, space, owner, seeds } => {
                let fi = match self.find(funder) {
                    Some(i) => i,
                    None => {
                        return Err(HostError::UnknownCell);
                    },
                };
                proof {
                    lemma_model_at(self.cells@, fi as int);
                }
                if let Some(_) = self.find(cell) {
                    return Err(HostError::CellExists);
                }
                let fl = self.cells[fi].lamports;
                if fl < *lamports {
                    return Err(HostError::InsufficientFunds);
                }
                if *space > usize::MAX as u64 {
                    return Err(HostError::Overflow);
                }
                let mut data: Vec<u8> = Vec::new();
                resize_bytes(&mut data, *space as usize);
                assert(data@ =~= Seq::new(*space as nat, |i: int| 0u8));
                self.set_lamports(fi, fl - *lamports);
                let created = CellState { key: *cell, owner: *owner, lamports: *lamports, data };
                proof {
                    lemma_model_push(self.cells@, created);
                }
                self.cells.push(created);
                Ok(())
            },
            HostCall::Transfer { from, to, amount } => self.move_between(from, to, *amount),
            HostCall::MoveLamports { from, to, amount } => self.move_between(from, to, *amount),
            HostCall::Resize { cell, size } => {
                let i = match self.find(cell) {
                    Some(i) => i,
                    None => {
                        return Err(HostError::UnknownCell);
                    },
                };
                proof {
                    lemma_model_at(self.cells@, i as int);
                }
                let mut data = crate::address::bytes_to_vec(self.cells[i].data.as_slice());
                resize_bytes(&mut data, *size);
                self.set_data(i, data);
                Ok(())
            },
            HostCall::WriteData { cell, data } => {
                let i = match self.find(cell) {
                    Some(i) => i,
                    None => {
                        return Err(HostError::UnknownCell);
                    },
                };
                proof {
                    lemma_model_at(self.cells@, i as int);
                }
                if data.len() > self.cells[i].data.len() {
                    return Err(HostError::DataTooLong);
                }
                let written = overwrite(&self.cells[i].data, data.as_slice());
                self.set_data(i, written);
                Ok(())
            },
            HostCall::Close { cell, recipient } => {
                let ci = match self.find(cell) {
                    Some(i) => i,
                    None => {
                        return Err(HostError::UnknownCell);
                    },
                };
                let ri = match self.find(recipient) {
                    Some(i) => i,
                    None => {
                        return Err(HostError::UnknownCell);
                    },
                };
                proof {
                    lemma_model_at(self.cells@, ci as int);
                    lemma_model_at(self.cells@, ri as int);
                }
                if ci == ri {
                    return Err(HostError::SameCell);
                }
                let cl = self.cells[ci].lamports;
                let rl = self.cells[ri].lamports;
                if rl > u64::MAX - cl {
                    return Err(HostError::Overflow);
                }
                self.set_lamports(ri, rl + cl);
                proof {
                    lemma_model_at(self.cells@, ci as int);
                    lemma_model_remove(self.cells@, ci as int);
                }
                self.cells.remove(ci);
                Ok(())
            },
        }
    }
}

impl Ledger {
    /// Carries out the calls of a plan in order, stopping at the first that
    /// is refused. The host discards a refused transaction as a whole; this
    /// ledger keeps what the calls before the refused one did.
    pub fn apply_all(&mut self, calls: &Vec<HostCall>) -> (r: Result<(), HostError>)
        requires
            old(self).wf(),
        ensures
            final(self).wf(),
            r is Ok ==> apply_calls(old(self).model(), calls_view(calls@)) == Some(final(self).model()),
            apply_calls(old(self).model(), calls_view(calls@)) is None ==> r is Err,
    {
        let ghost all = calls_view(calls@);
        let mut i: usize = 0;
        assert(all.skip(0) =~= all);
        while i < calls.len()
            invariant
                self.wf(),
                i <= calls@.len(),
                all == calls_view(calls@),
                apply_calls(old(self).model(), all) == apply_calls(self.model(), all.skip(i as int)),
            decreases calls@.len() - i,
        {
            proof {
                assert(all.skip(i as int)[0] == calls@[i as int]@);
                assert(all.skip(i as int).drop_first() =~= all.skip(i + 1));
            }
            let ghost before = self.model();
            match self.apply(&calls[i]) {
                Ok(()) => {},
                Err(e) => {
                    return Err(e);
                },
            }
            i = i + 1;
        }
        assert(all.skip(i as int) =~= Seq::<Call>::empty());
        Ok(())
    }
}

} // verus!
