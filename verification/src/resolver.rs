//! Type-name resolution.
pub mod driver;
pub mod name_resolver;
pub mod outcome;

pub use name_resolver::TypeNameResolver;
