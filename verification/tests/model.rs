use protoschema::algebra::{Type, Value};
use protoschema::codec::{dec_table, dec_value, enc_table, enc_value};
use protoschema::table::Table;
use protoschema::typeset::{SchemaError, TypeSet};

#[test]
fn add_type_last_write_wins() {
    let mut ts = TypeSet::new();
    ts.add_type("speed".to_string(), Type::Float);
    ts.add_type("speed".to_string(), Type::Double);
    assert_eq!(ts.get("speed"), Some(&Type::Double));
    assert_eq!(ts.get("missing"), None);
}

#[test]
fn prototype_bijection_and_eviction() {
    let mut ts = TypeSet::new();
    assert_eq!(
        ts.setup_prototype("car".to_string(), "vehicle-car".to_string(), false, None),
        Ok(false)
    );
    assert_eq!(ts.lookup_by_type("car").map(|s| s.as_str()), Some("vehicle-car"));
    assert_eq!(ts.lookup_by_discriminator("vehicle-car").map(|s| s.as_str()), Some("car"));
    // Reusing the discriminator evicts the stale pairing.
    assert_eq!(
        ts.setup_prototype("truck".to_string(), "vehicle-car".to_string(), true, None),
        Ok(true)
    );
    assert_eq!(ts.lookup_by_discriminator("vehicle-car").map(|s| s.as_str()), Some("truck"));
    assert_eq!(ts.lookup_by_type("car"), None);
    assert_eq!(ts.is_abstract("truck"), Some(true));
}

#[test]
fn setup_prototype_rejects_dangling_parent() {
    let mut ts = TypeSet::new();
    let r = ts.setup_prototype(
        "child".to_string(),
        "c".to_string(),
        false,
        Some("ghost-parent".to_string()),
    );
    assert_eq!(r, Err(SchemaError::DanglingParent));
    assert_eq!(ts.lookup_by_type("child"), None);
}

#[test]
fn resolution_idempotent() {
    let mut ts = TypeSet::new();
    let mut t = Table::new();
    t.add_field("health", Type::Int32, Value::Int32(50));
    ts.add_table("base".to_string(), t);
    ts.setup_prototype("base".to_string(), "base-proto".to_string(), false, None)
        .unwrap();
    let a = ts.resolve("base").unwrap();
    let b = ts.resolve("base").unwrap();
    assert_eq!(a, b);
}

#[test]
fn cycle_detected() {
    let mut ts = TypeSet::new();
    ts.add_table("A".to_string(), Table::new());
    ts.add_table("B".to_string(), Table::new());
    ts.setup_prototype("A".to_string(), "a".to_string(), false, None).unwrap();
    ts.setup_prototype("B".to_string(), "b".to_string(), false, Some("A".to_string()))
        .unwrap();
    ts.setup_prototype("A".to_string(), "a".to_string(), false, Some("B".to_string()))
        .unwrap();
    assert_eq!(ts.resolve("A"), Err(SchemaError::CycleDetected));
    assert_eq!(ts.resolve("B"), Err(SchemaError::CycleDetected));
}

#[test]
fn resolve_dangling_parent_at_walk_time() {
    let mut ts = TypeSet::new();
    ts.add_table("kid".to_string(), Table::new());
    ts.setup_prototype("gp".to_string(), "gp-proto".to_string(), false, None).unwrap();
    ts.setup_prototype("kid".to_string(), "kid-proto".to_string(), false, Some("gp".to_string()))
        .unwrap();
    // The parent is registered as a prototype but has no table definition.
    assert_eq!(ts.resolve("kid"), Err(SchemaError::DanglingParent));
    assert_eq!(ts.resolve("nobody"), Err(SchemaError::DanglingParent));
}

#[test]
fn shadowing_scenario() {
    // T1 has required "health" (Int32) and optional "name" (String, default "").
    let mut t1 = Table::new();
    t1.add_required_field("health", Type::Int32);
    t1.add_field("name", Type::String, Value::String(String::new()));
    // T2 inherits T1 and overrides "health" with default 100.
    let mut t2 = Table::new();
    t2.add_field("health", Type::Int32, Value::Int32(100));

    let mut ts = TypeSet::new();
    ts.add_table("T1".to_string(), t1);
    ts.add_table("T2".to_string(), t2);
    ts.setup_prototype("T1".to_string(), "t1".to_string(), false, None).unwrap();
    ts.setup_prototype("T2".to_string(), "t2".to_string(), false, Some("T1".to_string()))
        .unwrap();

    let r = ts.resolve("T2").unwrap();
    assert_eq!(r.attr_of("health"), Some(&Type::Int32));
    assert_eq!(r.attr_of("name"), Some(&Type::String));
    assert_eq!(r.default_of("health"), Some(&Value::Int32(100)));
    assert_eq!(r.default_of("name"), Some(&Value::String(String::new())));
    assert_eq!(r.attr_of("mana"), None);
}

#[test]
fn required_field_clears_stale_default() {
    let mut t = Table::new();
    t.add_field("ammo", Type::Uint16, Value::Uint16(8));
    assert_eq!(t.default_of("ammo"), Some(&Value::Uint16(8)));
    t.add_required_field("ammo", Type::Uint32);
    assert_eq!(t.attr_of("ammo"), Some(&Type::Uint32));
    assert_eq!(t.default_of("ammo"), None);
}

#[test]
fn literal_and_optional_fields() {
    let mut t = Table::new();
    t.add_literal_field("type", "unit-spec");
    assert_eq!(t.attr_of("type"), Some(&Type::StringLiteral("unit-spec".to_string())));
    t.add_optional_field("note", Type::String);
    assert_eq!(t.attr_of("note"), Some(&Type::String));
    assert_eq!(t.default_of("note"), None);
    t.add_field("note2", Type::String, Value::Nil);
    assert_eq!(t.default_of("note2"), Some(&Value::Nil));
}

#[test]
fn value_round_trip() {
    let deep = Value::Array(vec![
        Value::Bool(true),
        Value::Int64(-5),
        Value::String("héllo, wörld".to_string()),
        Value::Variant(Box::new(Value::Tuple(vec![Value::Uint8(255), Value::Nil]))),
        Value::PrototypeReference("iron-plate".to_string()),
        Value::Double(0x4009_21FB_5444_2D18),
    ]);
    let mut out = Vec::new();
    enc_value(&mut out, &deep);
    let (back, end) = dec_value(&out, 0).unwrap();
    assert_eq!(end, out.len());
    assert_eq!(back, deep);
}

#[test]
fn table_round_trip() {
    let mut t = Table::new();
    t.add_required_field("health", Type::Int32);
    t.add_field("name", Type::String, Value::String("unnamed".to_string()));
    t.add_field(
        "tags",
        Type::Array(Box::new(Type::String)),
        Value::Array(vec![Value::String("enemy".to_string())]),
    );
    t.add_required_field(
        "kind",
        Type::Variant(vec![Type::PrototypeReference("unit".to_string()), Type::Uint64]),
    );
    let mut out = Vec::new();
    enc_table(&mut out, &t);
    let (back, end) = dec_table(&out, 0).unwrap();
    assert_eq!(end, out.len());
    assert_eq!(back, t);
}

#[test]
fn table_decode_rejects_garbage() {
    let garbage = vec![255u8, 1, 2, 3];
    assert!(dec_table(&garbage, 0).is_none());
    assert!(dec_value(&garbage, 0).is_none());
}

#[test]
fn typeset_round_trip() {
    let mut t1 = Table::new();
    t1.add_required_field("health", Type::Int32);
    t1.add_field("name", Type::String, Value::String(String::new()));
    let mut t2 = Table::new();
    t2.add_field("health", Type::Int32, Value::Int32(100));

    let mut ts = TypeSet::new();
    ts.add_type("hp".to_string(), Type::Int32);
    ts.add_type(
        "ids".to_string(),
        Type::Array(Box::new(Type::PrototypeReference("unit".to_string()))),
    );
    ts.add_table("T1".to_string(), t1);
    ts.add_table("T2".to_string(), t2);
    ts.setup_prototype("T1".to_string(), "t1".to_string(), true, None).unwrap();
    ts.setup_prototype("T2".to_string(), "t2".to_string(), false, Some("T1".to_string()))
        .unwrap();

    let blob = ts.serialize();
    let back = TypeSet::deserialize(&blob).unwrap();

    // Deep structural equality of the whole aggregate.
    assert_eq!(back.types, ts.types);
    assert_eq!(back.tables, ts.tables);
    assert_eq!(back.prototype_abstractness, ts.prototype_abstractness);
    assert_eq!(back.prototype_inheritance, ts.prototype_inheritance);
    assert_eq!(back.lookup_by_type("T1").map(|s| s.as_str()), Some("t1"));
    assert_eq!(back.lookup_by_type("T2").map(|s| s.as_str()), Some("t2"));
    assert_eq!(back.lookup_by_discriminator("t2").map(|s| s.as_str()), Some("T2"));
    assert_eq!(back.is_abstract("T1"), Some(true));
    assert_eq!(back.parent_of("T2"), Some(&Some("T1".to_string())));

    // The restored aggregate still resolves like the original.
    let r = back.resolve("T2").unwrap();
    assert_eq!(r.default_of("health"), Some(&Value::Int32(100)));
    assert_eq!(r.attr_of("name"), Some(&Type::String));
}

#[test]
fn empty_typeset_round_trip() {
    let ts = TypeSet::new();
    let blob = ts.serialize();
    let back = TypeSet::deserialize(&blob).unwrap();
    assert_eq!(back.types, ts.types);
    assert!(back.lookup_by_type("anything").is_none());
}

#[test]
fn deserialize_rejects_malformed_blob() {
    assert!(matches!(
        TypeSet::deserialize(&Vec::new()),
        Err(SchemaError::MalformedPersistedState)
    ));
    assert!(matches!(
        TypeSet::deserialize(&vec![9u8, 1, 2, 3]),
        Err(SchemaError::MalformedPersistedState)
    ));
    let mut truncated = TypeSet::new().serialize();
    truncated.pop();
    truncated.push(7u8);
    assert!(TypeSet::deserialize(&truncated).is_err());
}

#[test]
fn duplicate_and_merge() {
    let mut parent = Table::new();
    parent.add_field("speed", Type::Float, Value::Float(0x3F80_0000));
    parent.add_required_field("mass", Type::Double);
    let mut child = Table::new();
    child.add_field("speed", Type::Double, Value::Double(0));
    let mut merged = parent.duplicate();
    merged.merge_over(&child);
    assert_eq!(merged.attr_of("speed"), Some(&Type::Double));
    assert_eq!(merged.default_of("speed"), Some(&Value::Double(0)));
    assert_eq!(merged.attr_of("mass"), Some(&Type::Double));
}
