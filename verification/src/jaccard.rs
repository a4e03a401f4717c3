pub mod compare;
