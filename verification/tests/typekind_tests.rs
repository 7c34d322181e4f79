use ceph_db::type_system::Signature;
use ceph_db::typekind::FnKind;
use ceph_db::typekind::TypeKind;

#[test]
fn test_le_typekind_objects() {
    let obj_t1 = TypeKind::Object(vec![(String::from("x"), TypeKind::Number)]);
    let obj_t2 = TypeKind::Object(vec![(String::from("x"), TypeKind::Number)]);

    assert!(obj_t1 == obj_t2);
    assert!(obj_t1 <= obj_t2);

    let obj_t1 = TypeKind::Object(vec![(String::from("x"), TypeKind::Number)]);
    let obj_t2 = TypeKind::Object(vec![
        (String::from("x"), TypeKind::Number),
        (String::from("y"), TypeKind::String),
    ]);

    assert!(obj_t1 < obj_t2);
    assert!(obj_t1 <= obj_t2);
}

#[test]
fn unknown_and_any_absorb_everything() {
    let samples = vec![
        TypeKind::Unknown,
        TypeKind::Number,
        TypeKind::String,
        TypeKind::Boolean,
        TypeKind::Void,
        TypeKind::Object(vec![(String::from("x"), TypeKind::Number)]),
        TypeKind::InBuilt(FnKind::Eq),
        TypeKind::Function,
        TypeKind::Any,
    ];
    for x in &samples {
        assert!(TypeKind::Unknown == *x);
        assert!(*x == TypeKind::Unknown);
        assert!(TypeKind::Any == *x);
        assert!(*x == TypeKind::Any);
    }
}

#[test]
fn scalar_kinds_compare_only_with_themselves() {
    let scalars = vec![
        TypeKind::Number,
        TypeKind::String,
        TypeKind::Boolean,
        TypeKind::Void,
        TypeKind::Function,
    ];
    for (i, a) in scalars.iter().enumerate() {
        for (j, b) in scalars.iter().enumerate() {
            if i == j {
                assert!(a == b);
            } else {
                assert!(a != b);
            }
        }
    }
}

#[test]
fn operator_kinds_are_mutually_compatible() {
    assert!(TypeKind::InBuilt(FnKind::Is) == TypeKind::InBuilt(FnKind::Mod));
    assert!(TypeKind::InBuilt(FnKind::Add) == TypeKind::Number);
    assert!(TypeKind::Number == TypeKind::InBuilt(FnKind::Add));
    assert!(TypeKind::Number != TypeKind::InBuilt(FnKind::Eq));
    assert!(TypeKind::InBuilt(FnKind::Eq) != TypeKind::Number);
}

#[test]
fn object_equality_ignores_field_order_and_repeats() {
    let a = TypeKind::Object(vec![
        (String::from("x"), TypeKind::Number),
        (String::from("y"), TypeKind::String),
    ]);
    let b = TypeKind::Object(vec![
        (String::from("y"), TypeKind::String),
        (String::from("x"), TypeKind::Number),
    ]);
    assert!(a == b);
    assert!(b == a);

    let c = TypeKind::Object(vec![
        (String::from("x"), TypeKind::String),
        (String::from("x"), TypeKind::Number),
    ]);
    let d = TypeKind::Object(vec![(String::from("x"), TypeKind::Number)]);
    // the later entry for a repeated name wins
    assert!(c == d);

    let e = TypeKind::Object(vec![(String::from("z"), TypeKind::Number)]);
    assert!(a != e);
}

#[test]
fn ordering_fallback_and_bounds_quirks() {
    // distinct concrete kinds fall back to "greater", kept as designed
    assert!(TypeKind::Number > TypeKind::String);
    // everything is below Any, even Any itself
    assert!(TypeKind::Any < TypeKind::Any);
    // Unknown compares equal to anything
    assert_eq!(
        TypeKind::Number.partial_cmp(&TypeKind::Unknown),
        Some(std::cmp::Ordering::Equal)
    );
    // incomparable objects
    let a = TypeKind::Object(vec![(String::from("x"), TypeKind::Number)]);
    let b = TypeKind::Object(vec![(String::from("y"), TypeKind::Number)]);
    assert_eq!(a.partial_cmp(&b), None);
}

#[test]
fn signature_prefix_comparison_quirk() {
    let short = Signature {
        arguments: vec![TypeKind::Number],
        return_t: TypeKind::Number,
    };
    let long = Signature {
        arguments: vec![TypeKind::Number, TypeKind::String],
        return_t: TypeKind::Number,
    };
    // extra trailing arguments are not compared, a kept edge case
    assert!(short == long);

    let other = Signature {
        arguments: vec![TypeKind::String],
        return_t: TypeKind::Number,
    };
    assert!(short != other);

    let bad_ret = Signature {
        arguments: vec![TypeKind::Number],
        return_t: TypeKind::String,
    };
    assert!(short != bad_ret);
}

#[test]
fn fnkind_renders_its_name() {
    assert_eq!(FnKind::Add.to_string(), String::from("Add"));
    assert_eq!(FnKind::Return.to_string(), String::from("Return"));
    assert_eq!(FnKind::Stub.to_string(), String::from("Stub"));
}
