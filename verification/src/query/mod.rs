pub mod error;
pub mod plan;
pub mod query;
pub mod rank;
pub mod score;

pub use error::Error;
pub use error::Result;
pub use query::Config;
pub use query::Query;
