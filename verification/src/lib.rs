//! Listening-port inspection: which process listens on which port.
//!
//! The library does no input or output. It says which commands to run
//! (`lister_command`, `status_command`, `terminate_command`), and judges what
//! they left behind: `probe_targets` reads the socket listing and names the
//! processes to ask about, `list_ports` joins the listing with the status of
//! each process into a report of rows, one for each process name and command
//! line, and `kill_process` judges an attempt to end a process.
//!
//! Every function carries a contract over the texts involved, and the module
//! `laws` proves what holds of every report: each listed process stands in it
//! once, in the row of its name and command line; rows, processes and ports
//! are in a fixed order; malformed lines and failed status queries cost
//! nothing but themselves.

pub mod aggregate;
pub mod laws;
pub mod listing;
pub mod number;
pub mod order;
pub mod pipeline;
pub mod report;
pub mod text;
pub mod tool;

pub use aggregate::{AggregateTable, PidAggregate, ProcessDetails};
pub use listing::RawSocketRecord;
pub use pipeline::{list_ports, probe_targets, StatusProbe};
pub use report::{PidInfo, PortInfo};
pub use tool::{
    kill_process, lister_command, status_command, terminate_command, PortError, Tool, ToolCommand,
    ToolOutput, ToolRun,
};
