pub use crate::store::error::Error;
pub use crate::store::error::Result;
