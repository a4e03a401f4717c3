pub mod ensemble;
pub mod jaccard;
pub mod jaro;
pub mod prelude;
pub mod shared;
pub mod soundex;

pub use prelude::Clean;
