pub mod digits;
pub mod division_laws;
pub mod error;
pub mod ext_laws;
pub mod ext_spec;
pub mod extension;
pub mod fermat;
pub mod generator_laws;
pub mod modular;
pub mod poly;
pub mod poly_laws;
pub mod prime_field;
pub mod render;
pub mod search;

pub use digits::{is_zero, positional_inc};
pub use error::FieldError;
pub use extension::{EGFElement, EGF};
pub use prime_field::GFElement;
