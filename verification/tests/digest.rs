//! Digests of values: spans are left out, the declaring file and the
//! contents are in.

use dowel::digest::{props_digest, value_digest};
use dowel::value::{CfgKey, Data, Ns, Origin, PathBase, PathValue, Pred, Prov, Site, Span, Type, Value};
use dowel::value::FileId;

fn at(file: u64, start: u32, data: Data) -> Value {
    Value {
        ty: Type::Path,
        data,
        prov: Prov::at(Origin::Literal, Site { file: FileId(file), span: Span::new(start, start + 3) }),
    }
}

fn dir(rel: &str) -> Data {
    Data::Path(PathValue { base: PathBase::Package, rel: rel.to_string() })
}

#[test]
fn moving_a_value_within_its_file_does_not_change_the_digest() {
    let a = at(1, 10, dir("include"));
    let b = at(1, 99, dir("include"));
    assert_eq!(value_digest(&a), value_digest(&b));
}

#[test]
fn the_declaring_file_is_part_of_the_digest() {
    let a = at(1, 10, dir("include"));
    let b = at(2, 10, dir("include"));
    assert_ne!(value_digest(&a), value_digest(&b));
}

#[test]
fn the_content_is_part_of_the_digest() {
    assert_ne!(value_digest(&at(1, 0, dir("include"))), value_digest(&at(1, 0, dir("src"))));
}

#[test]
fn a_list_distinguishes_order() {
    let one = Value::list(
        Type::Str,
        vec![Value::str("a".to_string(), Prov::none()), Value::str("b".to_string(), Prov::none())],
        Prov::none(),
    );
    let two = Value::list(
        Type::Str,
        vec![Value::str("b".to_string(), Prov::none()), Value::str("a".to_string(), Prov::none())],
        Prov::none(),
    );
    assert_ne!(value_digest(&one), value_digest(&two));
}

#[test]
fn different_kinds_with_the_same_body_differ() {
    let dep = Value { ty: Type::DepRef, data: Data::Dep("x".into()), prov: Prov::none() };
    let target = Value { ty: Type::TargetRef, data: Data::Target("x".into()), prov: Prov::none() };
    assert_ne!(value_digest(&dep), value_digest(&target));
}

#[test]
fn the_property_name_is_part_of_the_digest() {
    let v = Value::str("x".to_string(), Prov::none());
    let w = Value::str("x".to_string(), Prov::none());
    assert_ne!(props_digest(&[("flags".to_string(), v)]), props_digest(&[("link_flags".to_string(), w)]));
}

#[test]
fn a_nested_value_moved_within_its_file_keeps_the_digest() {
    let list = |start: u32| {
        Value::list(Type::Path, vec![at(1, start + 5, dir("include")), at(1, start + 9, dir("src"))], Prov::at(
            Origin::Literal,
            Site { file: FileId(1), span: Span::new(start, start + 20) },
        ))
    };
    assert_eq!(value_digest(&list(10)), value_digest(&list(400)));
}

#[test]
fn a_predicate_is_part_of_the_digest() {
    let f = |n: &str| Pred::Flag(CfgKey { ns: Ns::Feature, name: n.to_string() });
    let when = |p: Pred| Value {
        ty: Type::Str,
        data: Data::When { pred: p, inner: Box::new(Value::str("x".to_string(), Prov::none())) },
        prov: Prov::none(),
    };
    let left = Pred::And(Box::new(f("a")), Box::new(Pred::Or(Box::new(f("b")), Box::new(f("c")))));
    let right = Pred::Or(Box::new(Pred::And(Box::new(f("a")), Box::new(f("b")))), Box::new(f("c")));
    assert_ne!(value_digest(&when(left)), value_digest(&when(right)));
}
