//! One module for each tool.
pub mod test_gaps;
pub mod boundaries;
pub mod project;
pub mod tools_meta;
pub mod trend;
pub mod cochange;
pub mod unused;
pub mod clones;
pub mod calls;
