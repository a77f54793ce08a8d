//! Verified core of a copy-on-write sandbox: the decisions, formats and state
//! machines behind snapshots, branches, supervised system calls and launch.

pub mod bootstrap;
pub mod branch;
pub mod bubblewrap;
pub mod byte_map;
pub mod byte_order;
pub mod byte_set;
pub mod cow;
pub mod deferred_commit;
pub mod error;
pub mod execution_domain;
pub mod filesystem_backend;
pub mod ids;
pub mod netlink;
pub mod path;
pub mod path_map;
pub mod run;
pub mod seccomp;
pub mod snapshot;
pub mod sys;
pub mod task_stat;
pub mod text;
pub mod text_set;
