//! The [`Tristate`] type, its conversions, combinators and patch helpers.
use vstd::prelude::*;
use vstd::std_specs::convert::FromSpecImpl;

verus! {

/// Three-state value for HTTP PATCH request bodies.
///
/// - `Value(T)`: the field is present with a value
/// - `Null`: the field is present as JSON `null`
/// - `Undefined`: the field is absent from the payload
///
/// On the wire a `Tristate<T>` is the same as an `Option<Option<T>>` read as
/// "absent / null / value": [`tristate_to_nested`] and [`nested_to_tristate`]
/// are the two directions, and they are inverse to each other.
pub enum Tristate<T> {
    Value(T),
    Null,
    Undefined,
}

/// `Undefined` becomes `None`, `Null` becomes `Some(None)`, `Value(v)` becomes
/// `Some(Some(v))`.
pub open spec fn tristate_to_nested<T>(t: Tristate<T>) -> Option<Option<T>> {
    match t {
        Tristate::Value(v) => Some(Some(v)),
        Tristate::Null => Some(Option::None),
        Tristate::Undefined => Option::None,
    }
}

/// `None` becomes `Undefined`, `Some(None)` becomes `Null`, `Some(Some(v))`
/// becomes `Value(v)`.
pub open spec fn nested_to_tristate<T>(o: Option<Option<T>>) -> Tristate<T> {
    match o {
        Option::None => Tristate::Undefined,
        Some(Option::None) => Tristate::Null,
        Some(Some(v)) => Tristate::Value(v),
    }
}

/// `Some(v)` becomes `Value(v)` and `None` becomes `Null`.
pub open spec fn option_to_tristate<T>(o: Option<T>) -> Tristate<T> {
    match o {
        Some(v) => Tristate::Value(v),
        Option::None => Tristate::Null,
    }
}

/// The optional field `current` after the patch value `patch` is applied to it.
pub open spec fn applied_to_option<T>(patch: Tristate<T>, current: Option<T>) -> Option<T> {
    match patch {
        Tristate::Value(v) => Some(v),
        Tristate::Null => Option::None,
        Tristate::Undefined => current,
    }
}

/// Whether `r` is a possible result of `t.map(f)`: `Value(v)` becomes
/// `Value(u)` for an output `u` of `f` on `v`; `Null` and `Undefined` stay.
pub open spec fn is_mapped<T, U, F: FnOnce(T) -> U>(t: Tristate<T>, f: F, r: Tristate<U>) -> bool {
    match t {
        Tristate::Value(v) => r matches Tristate::Value(u) && f.ensures((v,), u),
        Tristate::Null => r is Null,
        Tristate::Undefined => r is Undefined,
    }
}

/// Whether `r` is a possible result of `t.and_then(f)`: for `Value(v)` an
/// output of `f` on `v`; `Null` and `Undefined` stay.
pub open spec fn is_chained<T, U, F: FnOnce(T) -> Tristate<U>>(
    t: Tristate<T>,
    f: F,
    r: Tristate<U>,
) -> bool {
    match t {
        Tristate::Value(v) => f.ensures((v,), r),
        Tristate::Null => r is Null,
        Tristate::Undefined => r is Undefined,
    }
}

/// The contained value, or `default` for `Null` and `Undefined`.
pub open spec fn unwrapped_or<T>(t: Tristate<T>, default: T) -> T {
    match t {
        Tristate::Value(v) => v,
        _ => default,
    }
}

/// Whether `r` is a possible result of `t.unwrap_or_else(f)`: the contained
/// value, or an output of `f` for `Null` and `Undefined`.
pub open spec fn is_unwrapped_or_else<T, F: FnOnce() -> T>(t: Tristate<T>, f: F, r: T) -> bool {
    match t {
        Tristate::Value(v) => r == v,
        _ => f.ensures((), r),
    }
}

impl<T> Tristate<T> {
    /// Whether the field was absent.
    pub fn is_undefined(&self) -> (b: bool)
        ensures
            b == (*self is Undefined),
    {
        matches!(self, Tristate::Undefined)
    }

    /// Whether the field was present as `null`.
    pub fn is_none(&self) -> (b: bool)
        ensures
            b == (*self is Null),
    {
        matches!(self, Tristate::Null)
    }

    /// Whether the field carries a value.
    pub fn is_value(&self) -> (b: bool)
        ensures
            b == (*self is Value),
    {
        matches!(self, Tristate::Value(_))
    }
}


impl<T> Default for Tristate<T> {
    /// A field that was left out: `Undefined`.
    fn default() -> (r: Self)
        ensures
            r is Undefined,
    {
        Tristate::Undefined
    }
}

impl<T> From<T> for Tristate<T> {
    fn from(v: T) -> (r: Self) {
        Tristate::Value(v)
    }
}

impl<T> FromSpecImpl<T> for Tristate<T> {
    open spec fn obeys_from_spec() -> bool {
        true
    }

    open spec fn from_spec(v: T) -> Self {
        Tristate::Value(v)
    }
}

impl<T> From<Option<T>> for Tristate<T> {
    fn from(opt: Option<T>) -> (r: Self) {
        match opt {
            Some(v) => Tristate::Value(v),
            Option::None => Tristate::Null,
        }
    }
}

impl<T> FromSpecImpl<Option<T>> for Tristate<T> {
    open spec fn obeys_from_spec() -> bool {
        true
    }

    open spec fn from_spec(v: Option<T>) -> Self {
        option_to_tristate(v)
    }
}

impl<T> From<Option<Option<T>>> for Tristate<T> {
    fn from(opt: Option<Option<T>>) -> (r: Self) {
        match opt {
            Option::None => Tristate::Undefined,
            Some(Option::None) => Tristate::Null,
            Some(Some(v)) => Tristate::Value(v),
        }
    }
}

impl<T> FromSpecImpl<Option<Option<T>>> for Tristate<T> {
    open spec fn obeys_from_spec() -> bool {
        true
    }

    open spec fn from_spec(v: Option<Option<T>>) -> Self {
        nested_to_tristate(v)
    }
}

impl<T> From<Tristate<T>> for Option<Option<T>> {
    fn from(val: Tristate<T>) -> (r: Self) {
        match val {
            Tristate::Undefined => Option::None,
            Tristate::Null => Some(Option::None),
            Tristate::Value(v) => Some(Some(v)),
        }
    }
}

impl<T> FromSpecImpl<Tristate<T>> for Option<Option<T>> {
    open spec fn obeys_from_spec() -> bool {
        true
    }

    open spec fn from_spec(v: Tristate<T>) -> Self {
        tristate_to_nested(v)
    }
}

impl<T> Tristate<T> {
    /// Map `Value(v)` through `f`. `Null` and `Undefined` pass through unchanged.
    pub fn map<U, F: FnOnce(T) -> U>(self, f: F) -> (r: Tristate<U>)
        requires
            self matches Tristate::Value(v) ==> f.requires((v,)),
        ensures
            is_mapped(self, f, r),
    {
        match self {
            Tristate::Value(v) => Tristate::Value(f(v)),
            Tristate::Null => Tristate::Null,
            Tristate::Undefined => Tristate::Undefined,
        }
    }

    /// Chain on `Value(v)`. `Null` and `Undefined` pass through unchanged.
    pub fn and_then<U, F: FnOnce(T) -> Tristate<U>>(self, f: F) -> (r: Tristate<U>)
        requires
            self matches Tristate::Value(v) ==> f.requires((v,)),
        ensures
            is_chained(self, f, r),
    {
        match self {
            Tristate::Value(v) => f(v),
            Tristate::Null => Tristate::Null,
            Tristate::Undefined => Tristate::Undefined,
        }
    }

    /// Return the contained value or `default` if `Null` / `Undefined`.
    pub fn unwrap_or(self, default: T) -> (r: T)
        ensures
            r == unwrapped_or(self, default),
    {
        match self {
            Tristate::Value(v) => v,
            _ => default,
        }
    }

    /// Return the contained value or compute it from `f` if `Null` / `Undefined`.
    pub fn unwrap_or_else<F: FnOnce() -> T>(self, f: F) -> (r: T)
        requires
            !(self is Value) ==> f.requires(()),
        ensures
            is_unwrapped_or_else(self, f, r),
    {
        match self {
            Tristate::Value(v) => v,
            _ => f(),
        }
    }

    /// Apply to a required target field.
    /// `Value` overwrites; `Null` and `Undefined` are no-ops.
    pub fn apply_to_tristate(self, target: &mut T)
        ensures
            *final(target) == (match self {
                Tristate::Value(v) => v,
                _ => *old(target),
            }),
    {
        if let Tristate::Value(v) = self {
            *target = v;
        }
    }

    /// Apply to an optional target field.
    /// `Value(v)` sets `Some(v)`, `Null` sets `None`, `Undefined` is a no-op.
    pub fn apply_to_option(self, target: &mut Option<T>)
        ensures
            *final(target) == applied_to_option(self, *old(target)),
    {
        match self {
            Tristate::Value(v) => *target = Some(v),
            Tristate::Null => *target = Option::None,
            Tristate::Undefined => {},
        }
    }

    /// What a present field is written as: the value for `Value(v)`, `null`
    /// (`None`) for `Null` and for `Undefined`. A field that the
    /// `#[serde_tristate]` attribute marks is not written at all when it is
    /// `Undefined`.
    pub fn serialized_value(&self) -> (r: Option<&T>)
        ensures
            r is Some <==> *self is Value,
            self matches Tristate::Value(v) ==> r == Some(v),
    {
        match self {
            Tristate::Value(v) => Some(v),
            _ => Option::None,
        }
    }
}


/// Every `Tristate` is in exactly one of its three states.
pub proof fn lemma_exactly_one_state<T>(t: Tristate<T>)
    ensures
        t is Value || t is Null || t is Undefined,
        !(t is Value && t is Null),
        !(t is Value && t is Undefined),
        !(t is Null && t is Undefined),
{
}

/// Converting to `Option<Option<T>>` and back gives the same `Tristate`.
pub proof fn lemma_tristate_nested_roundtrip<T>(t: Tristate<T>)
    ensures
        nested_to_tristate(tristate_to_nested(t)) == t,
{
}

/// Converting an `Option<Option<T>>` to a `Tristate` and back gives the same
/// value: the two conversions are inverse to each other, so no state is lost
/// in either direction.
pub proof fn lemma_nested_tristate_roundtrip<T>(o: Option<Option<T>>)
    ensures
        tristate_to_nested(nested_to_tristate(o)) == o,
{
}

/// A present field, read from an `Option<T>` (`null` or a value), is the
/// nested form `Some(o)`: it never reads as `Undefined`.
pub proof fn lemma_present_field_is_defined<T>(o: Option<T>)
    ensures
        tristate_to_nested(option_to_tristate(o)) == Some(o),
        !(option_to_tristate(o) is Undefined),
{
}

/// Applying a patch to an optional field: an absent patch keeps the field,
/// a present one (`null` or a value) overwrites it with what it holds.
pub proof fn lemma_apply_to_option_nested<T>(patch: Tristate<T>, current: Option<T>)
    ensures
        applied_to_option(patch, current) == (match tristate_to_nested(patch) {
            Option::None => current,
            Some(o) => o,
        }),
{
}

/// Applying a patch twice has the same effect as applying it once.
pub proof fn lemma_apply_to_option_idempotent<T>(patch: Tristate<T>, current: Option<T>)
    ensures
        applied_to_option(patch, applied_to_option(patch, current)) == applied_to_option(
            patch,
            current,
        ),
{
}

/// Mapping with a function that gives back its argument gives back the
/// value: `t.map(|x| x)` is `t`.
pub proof fn lemma_map_identity<T, F: FnOnce(T) -> T>(t: Tristate<T>, f: F, r: Tristate<T>)
    requires
        forall|x: T, y: T| #[trigger] f.ensures((x,), y) ==> y == x,
        is_mapped(t, f, r),
    ensures
        r == t,
{
}

/// Mapping with `f` and then with `g` is mapping once with their
/// composition: for functions `f`, `g` and `h` that compute `sf`, `sg` and
/// `sg(sf(..))`, `t.map(f).map(g)` equals `t.map(h)`.
pub proof fn lemma_map_compose<T, U, W, F: FnOnce(T) -> U, G: FnOnce(U) -> W, H: FnOnce(T) -> W>(
    t: Tristate<T>,
    f: F,
    g: G,
    h: H,
    sf: spec_fn(T) -> U,
    sg: spec_fn(U) -> W,
    r1: Tristate<U>,
    r2: Tristate<W>,
    r3: Tristate<W>,
)
    requires
        forall|x: T, u: U| #[trigger] f.ensures((x,), u) ==> u == sf(x),
        forall|u: U, w: W| #[trigger] g.ensures((u,), w) ==> w == sg(u),
        forall|x: T, w: W| #[trigger] h.ensures((x,), w) ==> w == sg(sf(x)),
        is_mapped(t, f, r1),
        is_mapped(r1, g, r2),
        is_mapped(t, h, r3),
    ensures
        r2 == r3,
{
}

/// Chaining with the constructor `Value` gives back the value:
/// `t.and_then(Tristate::Value)` is `t`.
pub proof fn lemma_and_then_value_identity<T, F: FnOnce(T) -> Tristate<T>>(
    t: Tristate<T>,
    f: F,
    r: Tristate<T>,
)
    requires
        forall|x: T, y: Tristate<T>| #[trigger] f.ensures((x,), y) ==> y == Tristate::Value(x),
        is_chained(t, f, r),
    ensures
        r == t,
{
}

/// Chaining with a function that wraps its result in `Value` is mapping:
/// for `f` computing `Value(sf(..))` and `g` computing `sf`,
/// `t.and_then(f)` equals `t.map(g)`.
pub proof fn lemma_and_then_agrees_with_map<
    T,
    U,
    F: FnOnce(T) -> Tristate<U>,
    G: FnOnce(T) -> U,
>(t: Tristate<T>, f: F, g: G, sf: spec_fn(T) -> U, r1: Tristate<U>, r2: Tristate<U>)
    requires
        forall|x: T, y: Tristate<U>| #[trigger] f.ensures((x,), y) ==> y == Tristate::Value(sf(x)),
        forall|x: T, u: U| #[trigger] g.ensures((x,), u) ==> u == sf(x),
        is_chained(t, f, r1),
        is_mapped(t, g, r2),
    ensures
        r1 == r2,
{
}

/// Unwrapping with a function that returns `d` is unwrapping with `d`:
/// `t.unwrap_or_else(|| d)` equals `t.unwrap_or(d)`.
pub proof fn lemma_unwrap_or_else_constant<T, F: FnOnce() -> T>(t: Tristate<T>, f: F, d: T, r: T)
    requires
        forall|y: T| #[trigger] f.ensures((), y) ==> y == d,
        is_unwrapped_or_else(t, f, r),
    ensures
        r == unwrapped_or(t, d),
{
}

} // verus!
