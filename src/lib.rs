//! A distributed tabular query executor: a columnar table with stable row
//! identities, a linear pipeline of relational operations and its interpreter,
//! and the byte-range partitioning that lets each worker of a fleet load its
//! own line-aligned share of an input file.
pub mod text;
pub mod dataframe;
pub mod partition;
pub mod execgraph;
pub mod table;
pub mod work_loader;
pub mod work_queue;
