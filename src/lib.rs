//! A codec for a small simulated disk written as a hex dump: each row of the
//! dump is one fixed-size cluster record, decoded into a typed cluster and
//! rendered back into the same textual layout.

pub mod cluster;
pub mod disk;
pub mod error;
pub mod round_trip;
pub mod shell;
pub mod strings;
pub mod text;

pub use cluster::{cluster_to_raw, raw_to_cluster, Cluster, NO_CLUSTER, RECORD_LEN};
pub use disk::{disk_to_clusters, list_files, render_disk};
pub use error::DiskError;
pub use shell::{execute, Args, Config, ShellAction};
pub use text::{format_disk, nibble};
