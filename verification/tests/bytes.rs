use vmstate::access::Access;
use vmstate::errors::DecodeError;
use vmstate::field_id::FieldId;
use vmstate::finalize::FinalizeOperation;
use vmstate::identifier::Identifier;

fn ident(name: &str) -> Identifier {
    Identifier::from_bytes(name.as_bytes().to_vec()).expect("valid identifier")
}

fn check_bytes(expected: Access) {
    // Check the byte representation.
    let mut expected_bytes = Vec::new();
    expected.write_le(&mut expected_bytes);
    let (decoded, used) = Access::read_le(&expected_bytes[..]).expect("decodes");
    assert_eq!(used, expected_bytes.len());
    assert_eq!(expected, decoded);
}

#[test]
fn test_bytes() {
    for iteration in 0..1000u32 {
        // Index
        let index = iteration.wrapping_mul(2_654_435_761);
        check_bytes(Access::Index(index));

        // Member
        let name = format!("m{}_{}", iteration, "x".repeat((iteration % 20) as usize));
        check_bytes(Access::Member(ident(&name)));
    }
}

#[test]
fn test_access_exact_encoding() {
    let mut bytes = Vec::new();
    Access::Index(1).write_le(&mut bytes);
    assert_eq!(bytes, vec![0u8, 1, 0, 0, 0]);

    let mut bytes = Vec::new();
    Access::Member(ident("ab")).write_le(&mut bytes);
    assert_eq!(bytes, vec![1u8, 2, b'a', b'b']);
}

#[test]
fn test_access_decode_trailing_bytes_ignored() {
    let bytes = vec![0u8, 7, 0, 0, 0, 99, 98];
    let (decoded, used) = Access::read_le(&bytes[..]).expect("decodes");
    assert_eq!(decoded, Access::Index(7));
    assert_eq!(used, 5);
}

#[test]
fn test_access_decode_unknown_tag() {
    for tag in 2u8..=255 {
        let bytes = vec![tag, 0, 0, 0, 0];
        assert_eq!(Access::read_le(&bytes[..]), Err(DecodeError::UnknownTag));
    }
}

#[test]
fn test_access_decode_truncated() {
    assert_eq!(Access::read_le(&[][..]), Err(DecodeError::Truncated));
    assert_eq!(Access::read_le(&[0u8, 1, 2][..]), Err(DecodeError::Truncated));
    assert_eq!(Access::read_le(&[1u8][..]), Err(DecodeError::Truncated));
    assert_eq!(Access::read_le(&[1u8, 3, b'a', b'b'][..]), Err(DecodeError::Truncated));
}

#[test]
fn test_access_decode_bad_identifier() {
    // A name may not be empty, start with a digit, or hold punctuation.
    assert_eq!(Access::read_le(&[1u8, 0][..]), Err(DecodeError::BadIdentifier));
    assert_eq!(Access::read_le(&[1u8, 2, b'1', b'b'][..]), Err(DecodeError::BadIdentifier));
    assert_eq!(Access::read_le(&[1u8, 2, b'a', b'-'][..]), Err(DecodeError::BadIdentifier));
}

#[test]
fn test_identifier_rules() {
    assert!(Identifier::from_bytes(b"abc_123".to_vec()).is_some());
    assert!(Identifier::from_bytes(b"Z9".to_vec()).is_some());
    assert!(Identifier::from_bytes(Vec::new()).is_none());
    assert!(Identifier::from_bytes(b"1abc".to_vec()).is_none());
    assert!(Identifier::from_bytes(b"_abc".to_vec()).is_none());
    assert!(Identifier::from_bytes(b"ab cd".to_vec()).is_none());
    assert!(Identifier::from_bytes(vec![b'a'; 31]).is_some());
    assert!(Identifier::from_bytes(vec![b'a'; 32]).is_none());
}

fn check_operation_bytes(expected: FinalizeOperation) {
    let mut expected_bytes = Vec::new();
    expected.write_le(&mut expected_bytes);
    let (decoded, used) = FinalizeOperation::read_le(&expected_bytes[..]).expect("decodes");
    assert_eq!(used, expected_bytes.len());
    assert_eq!(expected, decoded);
}

#[test]
fn test_operation_round_trip() {
    let m = FieldId::new(0x0123_4567_89ab_cdef);
    let k = FieldId::new(42);
    let v = FieldId::new(u64::MAX);
    check_operation_bytes(FinalizeOperation::InitializeMapping(m));
    check_operation_bytes(FinalizeOperation::InsertKeyValue(m, k, v));
    check_operation_bytes(FinalizeOperation::UpdateKeyValue(m, 3, k, v));
    check_operation_bytes(FinalizeOperation::RemoveKeyValue(m, u64::MAX));
    check_operation_bytes(FinalizeOperation::RemoveMapping(m));
}

#[test]
fn test_operation_exact_encoding() {
    let mut bytes = Vec::new();
    FinalizeOperation::InitializeMapping(FieldId::new(7)).write_le(&mut bytes);
    assert_eq!(bytes, vec![0u8, 7, 0, 0, 0, 0, 0, 0, 0]);

    let mut bytes = Vec::new();
    FinalizeOperation::RemoveKeyValue(FieldId::new(1), 2).write_le(&mut bytes);
    assert_eq!(bytes, vec![3u8, 1, 0, 0, 0, 0, 0, 0, 0, 2, 0, 0, 0, 0, 0, 0, 0]);
}

#[test]
fn test_operation_decode_errors() {
    assert_eq!(FinalizeOperation::read_le(&[][..]), Err(DecodeError::Truncated));
    assert_eq!(FinalizeOperation::read_le(&[5u8][..]), Err(DecodeError::UnknownTag));
    assert_eq!(
        FinalizeOperation::read_le(&[1u8, 1, 2, 3, 4, 5, 6, 7, 8][..]),
        Err(DecodeError::Truncated)
    );
}

#[test]
fn test_mapping_id() {
    let m = FieldId::new(11);
    let k = FieldId::new(22);
    let v = FieldId::new(33);
    assert_eq!(FinalizeOperation::InitializeMapping(m).mapping_id(), m);
    assert_eq!(FinalizeOperation::InsertKeyValue(m, k, v).mapping_id(), m);
    assert_eq!(FinalizeOperation::UpdateKeyValue(m, 0, k, v).mapping_id(), m);
    assert_eq!(FinalizeOperation::RemoveKeyValue(m, 0).mapping_id(), m);
    assert_eq!(FinalizeOperation::RemoveMapping(m).mapping_id(), m);
}
