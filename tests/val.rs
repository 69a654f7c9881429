use minidb::error::DbError;
use minidb::typ::Typ;
use minidb::val::Val;

#[test]
fn val_ser_de_typ() {
    let typ = Typ::Number;
    assert_eq!(typ, Typ::deserialize(typ.serialize()).unwrap());
}

#[test]
fn val_ser_val() {
    let val = Val::Number(42);
    let mut buf = vec![];
    val.serialize(&mut buf).unwrap();
    assert_eq!(vec![1, 42, 0, 0, 0, 0, 0, 0, 0], buf);

    let val = Val::String("hello ".to_owned());
    let mut buf = vec![];
    val.serialize(&mut buf).unwrap();
    assert_eq!(vec![0, 6, b'h', b'e', b'l', b'l', b'o', b' '], buf);

    let val = Val::Boolean(true);
    let mut buf = vec![];
    val.serialize(&mut buf).unwrap();
    assert_eq!(vec![2, 0], buf);
}

#[test]
fn val_de_val() {
    let buf = vec![0, 6, b'h', b'e', b'l', b'l', b'o', b' '];
    let val = Val::deserialize(&mut buf.as_slice()).unwrap();
    assert_eq!(val, Val::String("hello ".into()));

    let buf = vec![1, 42, 0, 0, 0, 0, 0, 0, 0];
    let val = Val::deserialize(&mut buf.as_slice()).unwrap();
    assert_eq!(val, Val::Number(42));

    let buf = vec![2, 0];
    let val = Val::deserialize(&mut buf.as_slice()).unwrap();
    assert_eq!(val, Val::Boolean(true));
}

#[test]
fn val_ser_de_row() {
    let row = vec![
        Val::String("Hello".into()),
        Val::Number(42),
        Val::Number(-1),
    ];

    let mut buf = vec![];
    for val in &row {
        val.serialize(&mut buf).unwrap();
    }
    println!("{buf:x?}");

    let mut reader = buf.as_slice();
    let mut deserialized = vec![];
    for _ in 0..3 {
        deserialized.push(Val::deserialize(&mut reader).unwrap());
    }

    assert_eq!(row, deserialized);
}

#[test]
fn unknown_type_tag_is_rejected() {
    assert_eq!(Typ::deserialize(3), None);
    assert_eq!(Typ::deserialize(0), Some(Typ::String));
    assert_eq!(Typ::deserialize(2), Some(Typ::Boolean));
}

#[test]
fn round_trip_of_each_kind() {
    let vals = vec![
        Val::String(String::new()),
        Val::String("città".into()),
        Val::Number(i64::MIN),
        Val::Number(i64::MAX),
        Val::Number(0),
        Val::Boolean(false),
        Val::Boolean(true),
    ];
    for v in vals {
        let mut buf = vec![];
        v.serialize(&mut buf).unwrap();
        let mut reader = buf.as_slice();
        let back = Val::deserialize(&mut reader).unwrap();
        assert_eq!(back, v);
        assert!(reader.is_empty());
    }
}

#[test]
fn false_is_encoded_as_one() {
    let mut buf = vec![];
    Val::Boolean(false).serialize(&mut buf).unwrap();
    assert_eq!(buf, vec![2, 1]);
}

#[test]
fn negative_number_is_twos_complement() {
    let mut buf = vec![];
    Val::Number(-1).serialize(&mut buf).unwrap();
    assert_eq!(buf, vec![1, 255, 255, 255, 255, 255, 255, 255, 255]);
}

#[test]
fn deserialize_leaves_the_rest() {
    let buf = vec![2, 1, 1, 7, 0, 0, 0, 0, 0, 0, 0, 9];
    let mut reader = buf.as_slice();
    assert_eq!(Val::deserialize(&mut reader).unwrap(), Val::Boolean(false));
    assert_eq!(reader, &[1, 7, 0, 0, 0, 0, 0, 0, 0, 9][..]);
    assert_eq!(Val::deserialize(&mut reader).unwrap(), Val::Number(7));
    assert_eq!(reader, &[9][..]);
}

#[test]
fn truncated_input_is_a_decoding_error() {
    assert_eq!(Val::deserialize(&mut &[][..]), Err(DbError::Decoding));
    assert_eq!(Val::deserialize(&mut &[1, 42, 0][..]), Err(DbError::Decoding));
    assert_eq!(Val::deserialize(&mut &[0, 5, b'a'][..]), Err(DbError::Decoding));
    assert_eq!(Val::deserialize(&mut &[2][..]), Err(DbError::Decoding));
}

#[test]
fn unknown_tag_is_a_decoding_error() {
    assert_eq!(Val::deserialize(&mut &[7, 0, 0][..]), Err(DbError::Decoding));
    assert_eq!(Val::deserialize(&mut &[2, 5][..]), Err(DbError::Decoding));
}

#[test]
fn invalid_utf8_is_a_decoding_error() {
    assert_eq!(Val::deserialize(&mut &[0, 2, 0xff, 0xfe][..]), Err(DbError::Decoding));
}

#[test]
fn long_string_is_too_long() {
    let mut buf = vec![];
    let s: String = std::iter::repeat('a').take(256).collect();
    assert_eq!(Val::String(s).serialize(&mut buf), Err(DbError::TooLong));
    assert!(buf.is_empty());
    let s: String = std::iter::repeat('a').take(255).collect();
    Val::String(s).serialize(&mut buf).unwrap();
    assert_eq!(buf.len(), 257);
    assert_eq!(buf[1], 255);
}

#[test]
fn division_truncates_toward_zero() {
    assert_eq!(Val::Number(7).div(&Val::Number(2)), Ok(Val::Number(3)));
    assert_eq!(Val::Number(-7).div(&Val::Number(2)), Ok(Val::Number(-3)));
    assert_eq!(Val::Number(7).div(&Val::Number(-2)), Ok(Val::Number(-3)));
}

#[test]
fn division_by_zero_is_an_error() {
    assert_eq!(Val::Number(5).div(&Val::Number(0)), Err(DbError::Arithmetic));
    assert_eq!(Val::Number(i64::MIN).div(&Val::Number(-1)), Err(DbError::Arithmetic));
}

#[test]
fn arithmetic_results() {
    assert_eq!(Val::Number(40).add(&Val::Number(2)), Ok(Val::Number(42)));
    assert_eq!(Val::Number(40).sub(&Val::Number(2)), Ok(Val::Number(38)));
    assert_eq!(Val::Number(6).mul(&Val::Number(7)), Ok(Val::Number(42)));
    assert_eq!(
        Val::String("ab".into()).add(&Val::String("cd".into())),
        Ok(Val::String("abcd".into()))
    );
    assert_eq!(Val::Number(i64::MAX).add(&Val::Number(1)), Err(DbError::Arithmetic));
}

#[test]
fn mixed_types_are_type_errors() {
    assert_eq!(Val::Number(1).add(&Val::String("a".into())), Err(DbError::Type));
    assert_eq!(Val::String("a".into()).sub(&Val::String("b".into())), Err(DbError::Type));
    assert_eq!(Val::Boolean(true).mul(&Val::Boolean(true)), Err(DbError::Type));
    assert_eq!(Val::Number(1).equals(&Val::Boolean(true)), Err(DbError::Type));
    assert_eq!(Val::Number(1).less_than(&Val::String("1".into())), Err(DbError::Type));
}

#[test]
fn comparisons() {
    assert_eq!(Val::Number(1).less_than(&Val::Number(2)), Ok(true));
    assert_eq!(Val::Number(2).less_than(&Val::Number(2)), Ok(false));
    assert_eq!(Val::Boolean(false).less_than(&Val::Boolean(true)), Ok(true));
    assert_eq!(Val::String("ab".into()).less_than(&Val::String("b".into())), Ok(true));
    assert_eq!(Val::String("ab".into()).less_than(&Val::String("a".into())), Ok(false));
    assert_eq!(Val::String("x".into()).equals(&Val::String("x".into())), Ok(true));
    assert_eq!(Val::Number(3).equals(&Val::Number(4)), Ok(false));
}

#[test]
fn to_bool_and_type() {
    assert!(Val::Boolean(true).to_bool());
    assert!(!Val::Boolean(false).to_bool());
    assert_eq!(Val::String("s".into()).get_type(), Typ::String);
    assert_eq!(Val::Number(1).get_type(), Typ::Number);
    assert_eq!(Val::Boolean(true).get_type(), Typ::Boolean);
}
