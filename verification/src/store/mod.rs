pub mod builder;
pub mod bytes;
pub mod constants;
pub mod document;
pub mod error;
pub mod term_index;
pub mod layout;
pub mod merge;
pub mod order;
pub mod path;
pub mod posting;
pub mod term;

pub use document::Document;
pub use error::Error;
pub use error::Result;
pub use builder::Builder;
pub use builder::Config;
