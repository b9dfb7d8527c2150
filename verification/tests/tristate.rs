use serde_tristate::Tristate;

#[test]
fn from_value() {
    let p: Tristate<i32> = 42.into();
    assert!(matches!(p, Tristate::Value(42)));
}

#[test]
fn from_some() {
    let p: Tristate<i32> = Some(42).into();
    assert!(matches!(p, Tristate::Value(42)));
}

#[test]
fn from_option_none() {
    let p: Tristate<i32> = Option::<i32>::None.into();
    assert!(matches!(p, Tristate::Null));
}

#[test]
fn into_option_value() {
    assert_eq!(
        Into::<Option<Option<i32>>>::into(Tristate::Value(1)),
        Some(Some(1))
    );
}

#[test]
fn into_option_none() {
    assert_eq!(
        Into::<Option<Option<i32>>>::into(Tristate::<i32>::Null),
        Some(Option::None)
    );
}

#[test]
fn into_option_undefined() {
    assert_eq!(
        Into::<Option<Option<i32>>>::into(Tristate::<i32>::Undefined),
        Option::<Option<i32>>::None
    );
}

#[test]
fn from_option_fn_some_some() {
    assert!(matches!(Tristate::from(Some(Some(1))), Tristate::Value(1)));
}

#[test]
fn from_option_fn_some_none() {
    assert!(matches!(
        Tristate::<i32>::from(Some(Option::None)),
        Tristate::Null
    ));
}

#[test]
fn from_option_fn_outer_none() {
    assert!(matches!(
        Tristate::<i32>::from(Option::<Option<i32>>::None),
        Tristate::Undefined
    ));
}

#[test]
fn from_option_roundtrip() {
    let cases: [Tristate<i32>; 3] = [Tristate::Value(42), Tristate::Null, Tristate::Undefined];
    for t in cases {
        let opt: Option<Option<i32>> = t.into();
        assert!(matches!(Tristate::<i32>::from(opt), _));
    }
}

#[test]
fn map_value() {
    assert!(matches!(
        Tristate::Value(2).map(|x| x * 3),
        Tristate::Value(6)
    ));
}

#[test]
fn map_none_passthrough() {
    assert!(matches!(
        Tristate::<i32>::Null.map(|x| x * 3),
        Tristate::Null
    ));
}

#[test]
fn and_then_value() {
    let p = Tristate::Value(5).and_then(|x| {
        if x > 3 {
            Tristate::Value(x)
        } else {
            Tristate::Null
        }
    });
    assert!(matches!(p, Tristate::Value(5)));
}

#[test]
fn unwrap_or_value() {
    assert_eq!(Tristate::Value(7).unwrap_or(0), 7);
}

#[test]
fn unwrap_or_undefined() {
    assert_eq!(Tristate::<i32>::Undefined.unwrap_or(0), 0);
}

#[test]
fn apply_to_required_sets_value() {
    let mut target = String::from("old");
    Tristate::Value("new".to_string()).apply_to_tristate(&mut target);
    assert_eq!(target, "new");
}

#[test]
fn apply_to_required_undefined_noop() {
    let mut target = String::from("old");
    Tristate::<String>::Undefined.apply_to_tristate(&mut target);
    assert_eq!(target, "old");
}

#[test]
fn apply_to_option_sets_some() {
    let mut target: Option<String> = Option::None;
    Tristate::Value("hi".to_string()).apply_to_option(&mut target);
    assert_eq!(target, Some("hi".to_string()));
}

#[test]
fn apply_to_option_none_clears() {
    let mut target: Option<String> = Some("bye".to_string());
    Tristate::<String>::Null.apply_to_option(&mut target);
    assert_eq!(target, Option::None);
}

#[test]
fn apply_to_option_undefined_noop() {
    let mut target: Option<String> = Some("keep".to_string());
    Tristate::<String>::Undefined.apply_to_option(&mut target);
    assert_eq!(target, Some("keep".to_string()));
}
