pub mod flatten;
pub mod report;
pub mod sort;
pub mod tree;
pub mod walk;
