use clips::{decode, encode, CLIPSValue};

fn sym(s: &str) -> CLIPSValue {
    CLIPSValue::Symbol(s.to_string())
}

fn text(s: &str) -> CLIPSValue {
    CLIPSValue::String(s.to_string())
}

fn same(a: &CLIPSValue, b: &CLIPSValue) -> bool {
    match (a, b) {
        (CLIPSValue::Symbol(x), CLIPSValue::Symbol(y)) => x == y,
        (CLIPSValue::Int(x), CLIPSValue::Int(y)) => x == y,
        (CLIPSValue::String(x), CLIPSValue::String(y)) => x == y,
        (CLIPSValue::Float(x), CLIPSValue::Float(y)) => x == y,
        (CLIPSValue::Bool(x), CLIPSValue::Bool(y)) => x == y,
        (CLIPSValue::Multifield(xs), CLIPSValue::Multifield(ys)) => {
            xs.len() == ys.len() && xs.iter().zip(ys.iter()).all(|(x, y)| same(x, y))
        }
        _ => false,
    }
}

fn round_trips(v: CLIPSValue) {
    let t = encode(&v);
    let back = decode(&t).expect("the encoding of a value decodes");
    assert!(same(&back, &v), "{} did not decode to the value it encodes", t);
}

#[test]
fn encode_int_exact_text() {
    assert_eq!(encode(&CLIPSValue::Int(-42)), "{\"Int\":-42}");
    assert_eq!(encode(&CLIPSValue::Int(0)), "{\"Int\":0}");
    assert_eq!(encode(&CLIPSValue::Int(1234567)), "{\"Int\":1234567}");
}

#[test]
fn encode_each_variant_exact_text() {
    assert_eq!(encode(&sym("point")), "{\"Symbol\":\"point\"}");
    assert_eq!(encode(&text("a \"b\" \\ c")), "{\"String\":\"a \\\"b\\\" \\\\ c\"}");
    assert_eq!(encode(&CLIPSValue::Float(1.5f64.to_bits())), "{\"Float\":4609434218613702656}");
    assert_eq!(encode(&CLIPSValue::Bool(true)), "{\"Bool\":true}");
    assert_eq!(encode(&CLIPSValue::Bool(false)), "{\"Bool\":false}");
    assert_eq!(
        encode(&CLIPSValue::Multifield(vec![sym("a"), CLIPSValue::Int(5)])),
        "{\"Multifield\":[{\"Symbol\":\"a\"},{\"Int\":5}]}"
    );
    assert_eq!(encode(&CLIPSValue::Multifield(vec![])), "{\"Multifield\":[]}");
}

#[test]
fn decode_inverts_encode_for_scalars() {
    round_trips(sym("x"));
    round_trips(sym(""));
    round_trips(text("with \"quotes\" and \\ backslash"));
    round_trips(text("ünïcödé ✓"));
    round_trips(CLIPSValue::Int(i64::MIN));
    round_trips(CLIPSValue::Int(i64::MAX));
    round_trips(CLIPSValue::Int(-1));
    round_trips(CLIPSValue::Float(u64::MAX));
    round_trips(CLIPSValue::Float((-0.25f64).to_bits()));
    round_trips(CLIPSValue::Bool(true));
    round_trips(CLIPSValue::Bool(false));
}

#[test]
fn decode_inverts_encode_for_nested_multifields() {
    let inner = CLIPSValue::Multifield(vec![CLIPSValue::Int(1), text("two"), CLIPSValue::Bool(false)]);
    let deeper = CLIPSValue::Multifield(vec![inner, CLIPSValue::Multifield(vec![]), sym("z")]);
    round_trips(CLIPSValue::Multifield(vec![deeper, CLIPSValue::Float(3.0f64.to_bits())]));
    round_trips(CLIPSValue::Multifield(vec![]));
}

#[test]
fn decode_reads_the_interchange_text() {
    let v = decode("{\"Multifield\":[{\"Int\":7},{\"String\":\"q\"}]}").unwrap();
    assert!(same(&v, &CLIPSValue::Multifield(vec![CLIPSValue::Int(7), text("q")])));
}

#[test]
fn decode_refuses_other_text() {
    assert!(decode("").is_none());
    assert!(decode("{\"Int\":5").is_none());
    assert!(decode("{\"Int\":5}x").is_none());
    assert!(decode("{\"Uint\":5}").is_none());
    assert!(decode("{\"Int\":99999999999999999999}").is_none());
    assert!(decode("{\"String\":\"bad \\n escape\"}").is_none());
    assert!(decode("{\"Multifield\":[{\"Int\":1},]}").is_none());
}

#[test]
fn decode_accepts_only_canonical_numbers() {
    assert!(decode("{\"Int\":-0}").is_none());
    assert!(decode("{\"Int\":007}").is_none());
    assert!(decode("{\"Float\":01}").is_none());
    assert!(matches!(decode("{\"Int\":0}"), Some(CLIPSValue::Int(0))));
    assert!(matches!(decode("{\"Int\":-9223372036854775808}"), Some(CLIPSValue::Int(i64::MIN))));
    assert!(decode("{\"Int\":9223372036854775808}").is_none());
    assert!(matches!(decode("{\"Float\":18446744073709551615}"), Some(CLIPSValue::Float(u64::MAX))));
}
