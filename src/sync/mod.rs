pub mod once;
pub mod oncelock;
