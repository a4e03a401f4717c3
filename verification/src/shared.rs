pub mod compute;
