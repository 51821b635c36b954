use soldb::accounts::{encode_table, encode_value, SolTable, SolValue};
use soldb::error::{ProcessError, SolDbError};
use soldb::instructions::SolDbIntructions;

fn framed_string(s: &str) -> Vec<u8> {
    borsh::to_vec(&s.to_string()).unwrap()
}

fn framed_bytes(b: &[u8]) -> Vec<u8> {
    borsh::to_vec(&b.to_vec()).unwrap()
}

#[test]
fn table_marker_matches_borsh_layout() {
    let bytes = encode_table("Test");
    assert_eq!(bytes, framed_string("Test"));
    assert_eq!(bytes, vec![4, 0, 0, 0, b'T', b'e', b's', b't']);
    let t = SolTable { name: "Test".to_string() };
    assert_eq!(t.to_bytes(), bytes);
    let back = SolTable::from_bytes(&bytes).unwrap();
    assert_eq!(back.name, "Test");
}

#[test]
fn value_matches_borsh_layout() {
    let bytes = encode_value(b"v-0");
    assert_eq!(bytes, framed_bytes(b"v-0"));
    let v = SolValue { val: b"v-10".to_vec() };
    assert_eq!(v.to_bytes(), vec![4, 0, 0, 0, b'v', b'-', b'1', b'0']);
    assert_eq!(SolValue::from_bytes(&v.to_bytes()).unwrap().val, b"v-10".to_vec());
}

#[test]
fn empty_payload_round_trips() {
    let bytes = encode_value(&[]);
    assert_eq!(bytes, vec![0, 0, 0, 0]);
    assert_eq!(SolValue::from_bytes(&bytes).unwrap().val, Vec::<u8>::new());
}

#[test]
fn table_marker_rejects_trailing_and_short_data() {
    let mut bytes = encode_table("Test");
    bytes.push(0);
    assert!(SolTable::from_bytes(&bytes).is_none());
    assert!(SolTable::from_bytes(&[4, 0, 0, 0, b'T']).is_none());
    assert!(SolTable::from_bytes(&[1, 0]).is_none());
    assert!(SolTable::from_bytes(&[]).is_none());
}

#[test]
fn table_marker_rejects_invalid_utf8() {
    assert!(SolTable::from_bytes(&[2, 0, 0, 0, 0xff, 0xfe]).is_none());
    // The same bytes are a valid record.
    assert_eq!(SolValue::from_bytes(&[2, 0, 0, 0, 0xff, 0xfe]).unwrap().val, vec![0xff, 0xfe]);
}

#[test]
fn unpack_init_table() {
    let mut data = vec![0u8];
    data.extend(framed_string("Test"));
    data.push(254);
    match SolDbIntructions::unpack(&data).unwrap() {
        SolDbIntructions::InitTable(t) => {
            assert_eq!(t.name, "Test");
            assert_eq!(t.bump, 254);
        }
        other => panic!("unexpected {:?}", other),
    }
}

#[test]
fn unpack_insert() {
    let mut data = vec![1u8];
    data.extend(framed_bytes(b"k-0"));
    data.extend(framed_bytes(b"v-0"));
    data.push(7);
    match SolDbIntructions::unpack(&data).unwrap() {
        SolDbIntructions::Insert(t) => {
            assert_eq!(t.key, b"k-0".to_vec());
            assert_eq!(t.payload, b"v-0".to_vec());
            assert_eq!(t.bump, 7);
        }
        other => panic!("unexpected {:?}", other),
    }
}

#[test]
fn unpack_put() {
    let mut data = vec![2u8];
    data.extend(framed_string("Test"));
    data.push(1);
    data.extend(framed_bytes(b"k-0"));
    data.push(2);
    data.extend(framed_bytes(b"v-10"));
    match SolDbIntructions::unpack(&data).unwrap() {
        SolDbIntructions::Put(t) => {
            assert_eq!(t.table, "Test");
            assert_eq!(t.table_bump, 1);
            assert_eq!(t.key, b"k-0".to_vec());
            assert_eq!(t.key_bump, 2);
            assert_eq!(t.payload, b"v-10".to_vec());
        }
        other => panic!("unexpected {:?}", other),
    }
}

#[test]
fn unpack_delete() {
    let mut data = vec![3u8];
    data.extend(framed_string("Test"));
    data.push(9);
    data.extend(framed_bytes(b"k-0"));
    data.push(8);
    match SolDbIntructions::unpack(&data).unwrap() {
        SolDbIntructions::Delete(t) => {
            assert_eq!(t.table, "Test");
            assert_eq!(t.table_bump, 9);
            assert_eq!(t.key, b"k-0".to_vec());
            assert_eq!(t.key_bump, 8);
        }
        other => panic!("unexpected {:?}", other),
    }
}

#[test]
fn unpack_rejects_malformed() {
    assert_eq!(SolDbIntructions::unpack(&[]).unwrap_err(), ProcessError::MalformedInstruction);
    assert_eq!(SolDbIntructions::unpack(&[4]).unwrap_err(), ProcessError::MalformedInstruction);
    // InitTable without its bump.
    let mut data = vec![0u8];
    data.extend(framed_string("Test"));
    assert_eq!(SolDbIntructions::unpack(&data).unwrap_err(), ProcessError::MalformedInstruction);
    // A trailing byte.
    data.push(1);
    data.push(2);
    assert_eq!(SolDbIntructions::unpack(&data).unwrap_err(), ProcessError::MalformedInstruction);
    // A length that runs past the end.
    assert_eq!(SolDbIntructions::unpack(&[1, 9, 0, 0, 0, 1]).unwrap_err(), ProcessError::MalformedInstruction);
}

#[test]
fn space_of_each_operation() {
    let mut data = vec![0u8];
    data.extend(framed_string("Test"));
    data.push(0);
    assert_eq!(SolDbIntructions::unpack(&data).unwrap().space(), Some(8));
    let mut data = vec![3u8];
    data.extend(framed_string("Test"));
    data.push(0);
    data.extend(framed_bytes(b"k"));
    data.push(0);
    assert_eq!(SolDbIntructions::unpack(&data).unwrap().space(), None);
}

#[test]
fn error_codes_and_messages() {
    let all = [
        SolDbError::WrongOwner,
        SolDbError::PdaMismatch,
        SolDbError::NotTable,
        SolDbError::GrowthTooLarge,
        SolDbError::WrongError,
    ];
    for (i, e) in all.iter().enumerate() {
        assert_eq!(e.code(), i as u32);
        assert_eq!(SolDbError::try_from(i as u32), Ok(*e));
    }
    assert_eq!(SolDbError::try_from(99u32), Ok(SolDbError::WrongError));
    assert_eq!(SolDbError::WrongOwner.to_str(), "account not owned by this program");
    assert_eq!(SolDbError::PdaMismatch.to_str(), "derived address does not match");
    assert_eq!(SolDbError::NotTable.to_str(), "not a table account");
    assert_eq!(
        SolDbError::GrowthTooLarge.to_str(),
        "growth exceeds the per-operation maximum of 10KiB"
    );
}
