use serde_tristate::Tristate;

fn nested(t: Tristate<i32>) -> Option<Option<i32>> {
    t.into()
}

#[test]
fn default_is_undefined() {
    let t: Tristate<i32> = Tristate::default();
    assert!(t.is_undefined());
    assert!(!t.is_none());
    assert!(!t.is_value());
}

#[test]
fn exactly_one_state_holds() {
    let cases: [Tristate<i32>; 3] = [Tristate::Value(1), Tristate::Null, Tristate::Undefined];
    for t in cases {
        let n = [t.is_value(), t.is_none(), t.is_undefined()]
            .iter()
            .filter(|b| **b)
            .count();
        assert_eq!(n, 1);
    }
}

#[test]
fn nested_roundtrip_from_tristate() {
    assert!(matches!(
        Tristate::<i32>::from(nested(Tristate::Value(3))),
        Tristate::Value(3)
    ));
    assert!(matches!(Tristate::<i32>::from(nested(Tristate::Null)), Tristate::Null));
    assert!(matches!(
        Tristate::<i32>::from(nested(Tristate::Undefined)),
        Tristate::Undefined
    ));
}

#[test]
fn nested_roundtrip_from_option() {
    let cases: [Option<Option<i32>>; 3] = [Some(Some(9)), Some(None), None];
    for o in cases {
        assert_eq!(nested(Tristate::<i32>::from(o)), o);
    }
}

#[test]
fn present_field_is_never_undefined() {
    let a: Tristate<i32> = Tristate::from(Some(5));
    let b: Tristate<i32> = Tristate::from(Option::<i32>::None);
    assert_eq!(nested(a), Some(Some(5)));
    assert_eq!(nested(b), Some(None));
}

#[test]
fn map_undefined_passthrough() {
    assert!(matches!(
        Tristate::<i32>::Undefined.map(|x| x + 1),
        Tristate::Undefined
    ));
}

#[test]
fn map_changes_type() {
    assert!(matches!(
        Tristate::Value(12).map(|x: i32| x.to_string()),
        Tristate::Value(s) if s == "12"
    ));
}

#[test]
fn and_then_can_clear() {
    let p = Tristate::Value(2).and_then(|x| {
        if x > 3 {
            Tristate::Value(x)
        } else {
            Tristate::Null
        }
    });
    assert!(matches!(p, Tristate::Null));
}

#[test]
fn and_then_passes_null_and_undefined() {
    assert!(matches!(
        Tristate::<i32>::Null.and_then(|x| Tristate::Value(x + 1)),
        Tristate::Null
    ));
    assert!(matches!(
        Tristate::<i32>::Undefined.and_then(|x| Tristate::Value(x + 1)),
        Tristate::Undefined
    ));
}

#[test]
fn unwrap_or_null() {
    assert_eq!(Tristate::<i32>::Null.unwrap_or(4), 4);
}

#[test]
fn unwrap_or_else_cases() {
    assert_eq!(Tristate::Value(1).unwrap_or_else(|| 8), 1);
    assert_eq!(Tristate::<i32>::Null.unwrap_or_else(|| 8), 8);
    assert_eq!(Tristate::<i32>::Undefined.unwrap_or_else(|| 8), 8);
}

#[test]
fn apply_to_required_null_noop() {
    let mut target = 10;
    Tristate::<i32>::Null.apply_to_tristate(&mut target);
    assert_eq!(target, 10);
}

#[test]
fn apply_to_option_twice_same_as_once() {
    let mut once: Option<i32> = Some(1);
    Tristate::Value(2).apply_to_option(&mut once);
    let mut twice: Option<i32> = Some(1);
    Tristate::Value(2).apply_to_option(&mut twice);
    Tristate::Value(2).apply_to_option(&mut twice);
    assert_eq!(once, twice);
    let mut cleared: Option<i32> = Some(1);
    Tristate::<i32>::Null.apply_to_option(&mut cleared);
    Tristate::<i32>::Null.apply_to_option(&mut cleared);
    assert_eq!(cleared, None);
}

#[test]
fn apply_to_option_matches_nested_form() {
    let cases: [Tristate<i32>; 3] = [Tristate::Value(6), Tristate::Null, Tristate::Undefined];
    let expected = [Some(6), None, Some(0)];
    for (t, e) in cases.into_iter().zip(expected) {
        let mut target = Some(0);
        t.apply_to_option(&mut target);
        assert_eq!(target, e);
    }
}

#[test]
fn serialized_value_cases() {
    assert_eq!(Tristate::Value(3).serialized_value(), Some(&3));
    assert_eq!(Tristate::<i32>::Null.serialized_value(), None);
    assert_eq!(Tristate::<i32>::Undefined.serialized_value(), None);
}

#[test]
fn map_identity_and_composition() {
    let cases: [Tristate<i32>; 3] = [Tristate::Value(4), Tristate::Null, Tristate::Undefined];
    for t in cases {
        let o = nested(t);
        let same = Tristate::<i32>::from(o).map(|x| x);
        assert_eq!(nested(same), o);
        let twice = Tristate::<i32>::from(o).map(|x| x + 1).map(|x| x * 2);
        let once = Tristate::<i32>::from(o).map(|x| (x + 1) * 2);
        assert_eq!(nested(twice), nested(once));
    }
}

#[test]
fn and_then_value_is_identity_and_map() {
    let cases: [Option<Option<i32>>; 3] = [Some(Some(4)), Some(None), None];
    for o in cases {
        let back = Tristate::<i32>::from(o).and_then(Tristate::Value);
        assert_eq!(nested(back), o);
        let chained = Tristate::<i32>::from(o).and_then(|x| Tristate::Value(x - 1));
        let mapped = Tristate::<i32>::from(o).map(|x| x - 1);
        assert_eq!(nested(chained), nested(mapped));
    }
}

#[test]
fn unwrap_or_else_constant_is_unwrap_or() {
    let cases: [Option<Option<i32>>; 3] = [Some(Some(4)), Some(None), None];
    for o in cases {
        assert_eq!(
            Tristate::<i32>::from(o).unwrap_or_else(|| 9),
            Tristate::<i32>::from(o).unwrap_or(9)
        );
    }
}
