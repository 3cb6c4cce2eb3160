//! Reading integer literals and the element type of list literals.

use dowel::literal::{parse_int, unify_elems};
use dowel::value::{Data, Prov, Type, Value};

fn of(ty: Type) -> Value {
    Value::new(ty, Data::Error, Prov::none())
}

#[test]
fn integer_notations() {
    assert_eq!(parse_int("1_000"), Some(1000));
    assert_eq!(parse_int("0xff"), Some(255));
    assert_eq!(parse_int("-3"), Some(-3));
}

#[test]
fn every_radix_and_sign_is_read() {
    assert_eq!(parse_int("0XFF"), Some(255));
    assert_eq!(parse_int("0o17"), Some(15));
    assert_eq!(parse_int("0b1010"), Some(10));
    assert_eq!(parse_int("+7"), Some(7));
    assert_eq!(parse_int("-0x10"), Some(-16));
    assert_eq!(parse_int("9_223_372_036_854_775_807"), Some(i64::MAX));
}

#[test]
fn what_does_not_read_as_an_i64_gives_nothing() {
    assert_eq!(parse_int("9223372036854775808"), None);
    assert_eq!(parse_int("-9223372036854775808"), None);
    assert_eq!(parse_int("--9223372036854775808"), None);
    assert_eq!(parse_int("-9223372036854775807"), Some(-i64::MAX));
    assert_eq!(parse_int("0x"), None);
    assert_eq!(parse_int("0b102"), None);
    assert_eq!(parse_int("12a"), None);
    assert_eq!(parse_int(""), None);
    assert_eq!(parse_int("_"), None);
}

#[test]
fn list_elements_agree_on_a_type_or_are_unknown() {
    assert!(unify_elems(&[of(Type::Str), of(Type::Str)]).same(&Type::Str));
    assert!(unify_elems(&[of(Type::Str), of(Type::Int)]).same(&Type::Unknown));
    assert!(unify_elems(&[of(Type::Unknown), of(Type::Int)]).same(&Type::Int));
    assert!(unify_elems(&[of(Type::Cfg(Box::new(Type::Path))), of(Type::Path)]).same(&Type::Path));
    assert!(unify_elems(&[]).same(&Type::Unknown));
}
