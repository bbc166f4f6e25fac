pub mod detector;
pub mod engine;
pub mod laws;
pub mod hash;
pub mod reconcile;
pub mod runloop;
pub mod tree;
