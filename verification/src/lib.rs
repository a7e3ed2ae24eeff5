//! A YAML 1.2 parser using a greedy parsing algorithm with PEG atoms,
//! with the data model, the dumper and the anchor visitor, verified with Verus.
pub mod text;
pub mod indicator;
pub mod yaml;
pub mod number;
pub mod node;
pub mod anchors;
pub mod parser;
pub mod dumper;
pub mod serde;

pub use crate::indicator::{indicated_msg, indicated_msg_file};
pub use crate::parser::{parse, parse_cyclic};
pub use crate::dumper::dump;
pub use crate::anchors::{anchor_resolve, anchor_visit, Anchors};
pub use crate::node::Ind;
pub use crate::yaml::{Node, Yaml};
