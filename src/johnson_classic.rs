//! Johnson's rule under its classic name: the two-machine order, its
//! building blocks and its report.

pub use crate::common::AlgResult;
pub use crate::johnsons::{find_min_job, format_result, johnson_heuristic_multi_machine};
pub use crate::johnsons::johnson_two_machines as johnson_classic;
