//! A verified codec between nested key/value data and the tab/quote-delimited,
//! line-oriented text format used for simple configuration documents.

pub mod error;
pub mod num;
pub mod de;
pub mod ser;
pub mod token;
pub mod text;
pub mod value;

pub use de::{from_str, Deserializer};
pub use error::Error;
pub use ser::{to_string, Serializer};
pub use value::{Shape, Value};
