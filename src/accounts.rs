//! What the cells of the store hold: a table marker, or a record's payload.

use vstd::prelude::*;
use crate::codec::{framed, frame_at, lemma_frame_unique, push_framed, read_frame, read_string, utf8};

verus! {

/// The marker that a table's cell holds.
#[derive(Debug)]
pub struct SolTable {
    pub name: String,
}

/// The payload that a record's cell holds.
#[derive(Debug)]
pub struct SolValue {
    pub val: Vec<u8>,
}

/// The bytes of a table marker named `name`.
pub open spec fn table_bytes(name: Seq<char>) -> Seq<u8> {
    framed(utf8(name))
}

/// The bytes of a record holding `val`.
pub open spec fn value_bytes(val: Seq<u8>) -> Seq<u8> {
    framed(val)
}

/// Whether `data` holds exactly one table marker.
pub open spec fn holds_table(data: Seq<u8>) -> bool {
    exists|s: Seq<char>| utf8(s).len() <= u32::MAX && #[trigger] table_bytes(s) == data
}

/// The bytes of a table marker named `name`.
pub fn encode_table(name: &str) -> (r: Vec<u8>)
    requires
        utf8(name@).len() <= u32::MAX,
    ensures
        r@ == table_bytes(name@),
{
    let mut out: Vec<u8> = Vec::new();
    push_framed(&mut out, name.as_bytes());
    assert(out@ =~= table_bytes(name@));
    out
}

/// The bytes of a record holding `val`.
pub fn encode_value(val: &[u8]) -> (r: Vec<u8>)
    requires
        val@.len() <= u32::MAX,
    ensures
        r@ == value_bytes(val@),
{
    let mut out: Vec<u8> = Vec::new();
    push_framed(&mut out, val);
    out
}

impl SolTable {
    /// The bytes of this marker.
    pub fn to_bytes(&self) -> (r: Vec<u8>)
        requires
            utf8(self.name@).len() <= u32::MAX,
        ensures
            r@ == table_bytes(self.name@),
    {
        encode_table(self.name.as_str())
    }

    /// The marker that `data` holds, if it holds exactly one.
    pub fn from_bytes(data: &[u8]) -> (r: Option<SolTable>)
        ensures
            r matches Some(t) ==> table_bytes(t.name@) == data@ && utf8(t.name@).len() <= u32::MAX,
            r is None ==> forall|s: Seq<char>| utf8(s).len() <= u32::MAX ==> #[trigger] table_bytes(s) != data@,
    {
        match read_string(data, 0) {
            Some((name, p)) => {
                if p == data.len() {
                    assert(data@.subrange(0, p as int) =~= data@);
                    Some(SolTable { name })
                } else {
                    proof {
                        assert forall|s: Seq<char>| utf8(s).len() <= u32::MAX implies #[trigger] table_bytes(s) != data@ by {
                            if table_bytes(s) == data@ {
                                assert(data@.subrange(0, data@.len() as int) =~= data@);
                                lemma_frame_unique(data@, 0, utf8(s), utf8(name@));
                            }
                        }
                    }
                    None
                }
            },
            None => {
                proof {
                    assert forall|s: Seq<char>| utf8(s).len() <= u32::MAX implies #[trigger] table_bytes(s) != data@ by {
                        if table_bytes(s) == data@ {
                            assert(data@.subrange(0, data@.len() as int) =~= data@);
                            assert(frame_at(data@, 0, utf8(s)));
                        }
                    }
                }
                None
            },
        }
    }
}

impl SolValue {
    /// The bytes of this record.
    pub fn to_bytes(&self) -> (r: Vec<u8>)
        requires
            self.val@.len() <= u32::MAX,
        ensures
            r@ == value_bytes(self.val@),
    {
        encode_value(self.val.as_slice())
    }

    /// The record that `data` holds, if it holds exactly one.
    pub fn from_bytes(data: &[u8]) -> (r: Option<SolValue>)
        ensures
            r matches Some(v) ==> value_bytes(v.val@) == data@ && v.val@.len() <= u32::MAX,
            r is None ==> forall|b: Seq<u8>| b.len() <= u32::MAX ==> #[trigger] value_bytes(b) != data@,
    {
        match read_frame(data, 0) {
            Some((val, p)) => {
                if p == data.len() {
                    assert(data@.subrange(0, p as int) =~= data@);
                    Some(SolValue { val })
                } else {
                    proof {
                        assert forall|b: Seq<u8>| b.len() <= u32::MAX implies #[trigger] value_bytes(b) != data@ by {
                            if value_bytes(b) == data@ {
                                assert(data@.subrange(0, data@.len() as int) =~= data@);
                                lemma_frame_unique(data@, 0, b, val@);
                            }
                        }
                    }
                    None
                }
            },
            None => {
                proof {
                    assert forall|b: Seq<u8>| b.len() <= u32::MAX implies #[trigger] value_bytes(b) != data@ by {
                        if value_bytes(b) == data@ {
                            assert(data@.subrange(0, data@.len() as int) =~= data@);
                            assert(frame_at(data@, 0, b));
                        }
                    }
                }
                None
            },
        }
    }
}

} // verus!
