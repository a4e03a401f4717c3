pub mod compare;
pub mod encode;
