use streamconv::scalar::Type;

const ALL: [Type; 10] = [
    Type::I8,
    Type::U8,
    Type::I16,
    Type::U16,
    Type::I32,
    Type::U32,
    Type::I64,
    Type::U64,
    Type::F32,
    Type::F64,
];

#[test]
fn from_str_reads_every_token() {
    assert_eq!(Type::from_str("i8"), Ok(Type::I8));
    assert_eq!(Type::from_str("u8"), Ok(Type::U8));
    assert_eq!(Type::from_str("i16"), Ok(Type::I16));
    assert_eq!(Type::from_str("u16"), Ok(Type::U16));
    assert_eq!(Type::from_str("i32"), Ok(Type::I32));
    assert_eq!(Type::from_str("u32"), Ok(Type::U32));
    assert_eq!(Type::from_str("i64"), Ok(Type::I64));
    assert_eq!(Type::from_str("u64"), Ok(Type::U64));
    assert_eq!(Type::from_str("f32"), Ok(Type::F32));
    assert_eq!(Type::from_str("f64"), Ok(Type::F64));
}

#[test]
fn from_str_refuses_everything_else() {
    for bad in [
        "", "i", "8", "i7", "I8", "u128", "f16", "f8", "i8 ", " i8", "int", "i08", "u61", "f33",
        "x32", "i1", "u6", "é8", "i３２", "f64f64",
    ] {
        assert_eq!(Type::from_str(bad), Err("invalid type"), "{:?}", bad);
    }
}

#[test]
fn name_and_to_string_give_the_token() {
    let tokens = ["i8", "u8", "i16", "u16", "i32", "u32", "i64", "u64", "f32", "f64"];
    for (t, token) in ALL.iter().zip(tokens) {
        assert_eq!(t.name(), token);
        assert_eq!(t.to_string(), token);
    }
}

#[test]
fn a_name_reads_back_as_its_kind() {
    for t in ALL {
        assert_eq!(Type::from_str(t.name()), Ok(t));
        assert_eq!(Type::from_str(&t.to_string()), Ok(t));
    }
}

#[test]
fn widths_signs_and_floats() {
    let widths = [1usize, 1, 2, 2, 4, 4, 8, 8, 4, 8];
    let signed = [true, false, true, false, true, false, true, false, false, false];
    let float = [false, false, false, false, false, false, false, false, true, true];
    for i in 0..10 {
        assert_eq!(ALL[i].width(), widths[i]);
        assert_eq!(ALL[i].is_signed(), signed[i]);
        assert_eq!(ALL[i].is_float(), float[i]);
    }
}
