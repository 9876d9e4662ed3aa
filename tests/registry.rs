use clips::udf::{
    ANY_BITS, BOOLEAN_BIT, FLOAT_BIT, INTEGER_BIT, MULTIFIELD_BIT, STRING_BIT, SYMBOL_BIT, VOID_BIT,
};
use clips::{
    argument_type_codes, CLIPSEnvironment, CLIPSError, UDFDeclaration, UDFRegistry, UDFType,
};

fn decl(name: &str, min_args: u16, max_args: u16) -> UDFDeclaration {
    UDFDeclaration {
        name: name.to_string(),
        min_args,
        max_args,
        return_types: UDFType::from_bits(INTEGER_BIT),
        arg_types: vec![UDFType::from_bits(INTEGER_BIT)],
    }
}

#[test]
fn character_codes() {
    assert_eq!(UDFType::from_bits(ANY_BITS).as_character_code(), "*");
    assert_eq!(UDFType::from_bits(ANY_BITS | BOOLEAN_BIT).as_character_code(), "*");
    assert_eq!(UDFType::from_bits(INTEGER_BIT | FLOAT_BIT).as_character_code(), "dl");
    assert_eq!(UDFType::from_bits(BOOLEAN_BIT).as_character_code(), "b");
    assert_eq!(UDFType::from_bits(SYMBOL_BIT | STRING_BIT).as_character_code(), "sy");
    assert_eq!(UDFType::from_bits(VOID_BIT | MULTIFIELD_BIT).as_character_code(), "mv");
    assert_eq!(UDFType::from_bits(0).as_character_code(), "");
}

#[test]
fn argument_codes_are_separated_by_semicolons() {
    let ts = vec![
        UDFType::from_bits(INTEGER_BIT),
        UDFType::from_bits(STRING_BIT | SYMBOL_BIT),
        UDFType::from_bits(ANY_BITS),
    ];
    assert_eq!(argument_type_codes(&ts), "l;sy;*");
    assert_eq!(argument_type_codes(&vec![]), "");
}

#[test]
fn flags_combine() {
    let n = UDFType::from_bits(INTEGER_BIT).union(UDFType::from_bits(FLOAT_BIT));
    assert!(n.contains(UDFType::from_bits(FLOAT_BIT)));
    assert!(!n.contains(UDFType::from_bits(STRING_BIT)));
}

#[test]
fn registering_a_name_twice_is_refused() {
    let mut reg = UDFRegistry::new();
    assert!(reg.register(decl("f", 1, 2)).is_ok());
    assert!(matches!(reg.register(decl("f", 0, 0)), Err(CLIPSError::NameInUse)));
    assert!(reg.contains("f"));
    assert!(reg.register(decl("g", 0, 0)).is_ok());
}

#[test]
fn min_above_max_is_refused() {
    let mut reg = UDFRegistry::new();
    assert!(matches!(reg.register(decl("h", 3, 2)), Err(CLIPSError::MinArgumentsExceedsMax)));
    assert!(!reg.contains("h"));
}

#[test]
fn removing_an_unknown_name_says_false() {
    let mut reg = UDFRegistry::new();
    assert!(!reg.remove("never"));
    assert!(reg.register(decl("f", 0, 1)).is_ok());
    assert!(reg.remove("f"));
    assert!(!reg.contains("f"));
    assert!(!reg.remove("f"));
    assert!(reg.register(decl("f", 0, 1)).is_ok());
}

#[test]
fn environment_gives_codes_for_a_new_function() {
    let mut env = CLIPSEnvironment::new(0);
    let d = UDFDeclaration {
        name: "sum".to_string(),
        min_args: 2,
        max_args: 2,
        return_types: UDFType::from_bits(INTEGER_BIT | FLOAT_BIT),
        arg_types: vec![UDFType::from_bits(INTEGER_BIT), UDFType::from_bits(FLOAT_BIT)],
    };
    let codes = env.add_udf(d).unwrap();
    assert_eq!(codes.return_types, "dl");
    assert_eq!(codes.arg_types, "l;d");
    assert!(matches!(env.add_udf(decl("sum", 0, 0)), Err(CLIPSError::NameInUse)));
    assert!(env.remove_udf("sum"));
    assert!(!env.remove_udf("sum"));
}

#[test]
fn removing_one_function_keeps_the_others() {
    let mut env = CLIPSEnvironment::new(0);
    assert!(env.add_udf(decl("f", 0, 1)).is_ok());
    assert!(env.add_udf(decl("g", 0, 1)).is_ok());
    assert!(!env.remove_udf("h"));
    assert!(env.remove_udf("f"));
    assert!(env.udfs.contains("g"));
    assert!(!env.udfs.contains("f"));
}

#[test]
fn new_environments_have_no_builders() {
    let env = CLIPSEnvironment::new(3);
    assert!(env.fact_builders.handles().is_empty());
    assert!(env.instance_builders.handles().is_empty());
    let view = clips::UDFData::new(3, 4, 5).env();
    assert_eq!(view.raw, 3);
    assert!(!view.destroy_on_drop);
    assert!(view.fact_builders.handles().is_empty());
}
