pub use crate::part::{generate_partitions, get_partition_counts, get_partitions};
pub use crate::resp::compute_response_cache;
