pub mod atom;
pub mod bindings;
pub mod common;
pub mod das;
pub mod distributed;
pub mod node;
pub mod query;
pub mod space;
pub mod term;
pub mod translator;
pub mod unify;
