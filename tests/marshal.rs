use clips::{extract_clipsvalue, to_raw, CLIPSValue, RawValue, UDFConversionError, ValueKind};

fn bytes(s: &str) -> Vec<u8> {
    s.as_bytes().to_vec()
}

#[test]
fn boolean_symbols_read_as_booleans() {
    assert!(matches!(extract_clipsvalue(&RawValue::Symbol(bytes("TRUE"))), Ok(CLIPSValue::Bool(true))));
    assert!(matches!(extract_clipsvalue(&RawValue::Symbol(bytes("FALSE"))), Ok(CLIPSValue::Bool(false))));
    match extract_clipsvalue(&RawValue::Symbol(bytes("maybe"))) {
        Ok(CLIPSValue::Symbol(s)) => assert_eq!(s, "maybe"),
        _ => panic!("a symbol reads as a symbol"),
    }
}

#[test]
fn scalars_and_multifields_read_back() {
    assert!(matches!(extract_clipsvalue(&RawValue::Integer(-9)), Ok(CLIPSValue::Int(-9))));
    assert!(matches!(extract_clipsvalue(&RawValue::Float(77)), Ok(CLIPSValue::Float(77))));
    match extract_clipsvalue(&RawValue::String(bytes("héllo"))) {
        Ok(CLIPSValue::String(s)) => assert_eq!(s, "héllo"),
        _ => panic!("a string reads as a string"),
    }
    let raw = RawValue::Multifield(vec![
        RawValue::Integer(1),
        RawValue::Multifield(vec![RawValue::Symbol(bytes("a"))]),
    ]);
    match extract_clipsvalue(&raw) {
        Ok(CLIPSValue::Multifield(vs)) => {
            assert_eq!(vs.len(), 2);
            assert!(matches!(vs[0], CLIPSValue::Int(1)));
            match &vs[1] {
                CLIPSValue::Multifield(inner) => {
                    assert!(matches!(&inner[0], CLIPSValue::Symbol(s) if s == "a"))
                }
                _ => panic!("nested multifield"),
            }
        }
        _ => panic!("a multifield reads as a multifield"),
    }
}

#[test]
fn conversion_failures() {
    assert!(matches!(
        extract_clipsvalue(&RawValue::String(vec![0xff, 0xfe])),
        Err(UDFConversionError::ValueNotUnicode)
    ));
    assert!(matches!(
        extract_clipsvalue(&RawValue::InstanceName(bytes("i1"))),
        Err(UDFConversionError::InvalidType(ValueKind::Value))
    ));
    assert!(matches!(
        extract_clipsvalue(&RawValue::Multifield(vec![RawValue::Integer(1), RawValue::Void])),
        Err(UDFConversionError::InvalidType(ValueKind::Value))
    ));
    assert!(matches!(
        RawValue::Symbol(bytes("yes")).to_bool(),
        Err(UDFConversionError::ValueNotBoolean)
    ));
    assert!(matches!(
        RawValue::Integer(3).to_bool(),
        Err(UDFConversionError::InvalidType(ValueKind::Boolean))
    ));
    assert!(matches!(
        RawValue::Symbol(bytes("s")).to_integer(),
        Err(UDFConversionError::InvalidType(ValueKind::Integer))
    ));
    assert!(matches!(
        RawValue::Integer(3).to_text(),
        Err(UDFConversionError::InvalidType(ValueKind::String))
    ));
    assert!(matches!(
        RawValue::String(bytes("s")).to_symbol(),
        Err(UDFConversionError::InvalidType(ValueKind::Symbol))
    ));
    assert!(matches!(
        RawValue::Symbol(bytes("s")).to_instance_name(),
        Err(UDFConversionError::InvalidType(ValueKind::InstanceName))
    ));
    assert!(matches!(
        RawValue::Integer(3).to_float_bits(),
        Err(UDFConversionError::InvalidType(ValueKind::Float))
    ));
}

#[test]
fn typed_readers() {
    assert_eq!(RawValue::Integer(-1).to_integer().unwrap(), -1);
    assert_eq!(RawValue::Integer(-1).to_u64().unwrap(), u64::MAX);
    assert_eq!(RawValue::Integer(12).to_usize().unwrap(), 12);
    assert_eq!(RawValue::Float(2.5f64.to_bits()).to_float_bits().unwrap(), 2.5f64.to_bits());
    assert_eq!(RawValue::String(bytes("abc")).to_text().unwrap(), "abc");
    assert_eq!(RawValue::Symbol(bytes("sym")).to_symbol().unwrap().0, "sym");
    assert_eq!(RawValue::InstanceName(bytes("inst")).to_instance_name().unwrap().0, "inst");
    assert!(RawValue::Symbol(bytes("TRUE")).to_bool().unwrap());
    assert!(!RawValue::Symbol(bytes("FALSE")).to_bool().unwrap());
}

#[test]
fn booleans_are_written_as_symbols() {
    match to_raw(&CLIPSValue::Bool(true)) {
        RawValue::Symbol(b) => assert_eq!(b, b"TRUE".to_vec()),
        _ => panic!("a boolean is written as a symbol"),
    }
    match to_raw(&CLIPSValue::Bool(false)) {
        RawValue::Symbol(b) => assert_eq!(b, b"FALSE".to_vec()),
        _ => panic!("a boolean is written as a symbol"),
    }
    match to_raw(&CLIPSValue::String("é".to_string())) {
        RawValue::String(b) => assert_eq!(b, vec![0xc3, 0xa9]),
        _ => panic!("a string is written as a string"),
    }
}

#[test]
fn host_values_written_and_read_back_are_equal() {
    let v = CLIPSValue::Multifield(vec![
        CLIPSValue::Symbol("x".to_string()),
        CLIPSValue::Int(5),
        CLIPSValue::Bool(true),
        CLIPSValue::Multifield(vec![CLIPSValue::String("s".to_string())]),
    ]);
    match extract_clipsvalue(&to_raw(&v)) {
        Ok(CLIPSValue::Multifield(vs)) => {
            assert!(matches!(&vs[0], CLIPSValue::Symbol(s) if s == "x"));
            assert!(matches!(vs[1], CLIPSValue::Int(5)));
            assert!(matches!(vs[2], CLIPSValue::Bool(true)));
            assert!(matches!(&vs[3], CLIPSValue::Multifield(inner) if inner.len() == 1));
        }
        _ => panic!("round trip"),
    }
}

#[test]
fn non_text_symbol_is_not_a_boolean() {
    assert!(matches!(
        RawValue::Symbol(vec![0xff]).to_bool(),
        Err(UDFConversionError::ValueNotBoolean)
    ));
}
