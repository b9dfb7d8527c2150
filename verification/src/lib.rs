//! Three-state field values for HTTP PATCH request bodies.
//!
//! [`Tristate`] tells apart a field that carries a value, a field that is
//! present as `null`, and a field that is absent from the payload.
//! [`serde_tristate`] is the token rewrite behind the `#[serde_tristate]`
//! attribute: it marks every `Tristate<..>` field so that an absent field
//! reads as `Undefined` and an `Undefined` field is skipped when written.
pub mod attribute;
pub mod token;
pub mod tristate;

pub use attribute::serde_tristate;
pub use token::{Delimiter, Spacing, TokenTree};
pub use tristate::Tristate;
