//! Wireless network control: the text protocol of the network manager's
//! command-line tool, the access-point records derived from it, and the
//! decisions taken on each reply of the tool.

pub mod signal;
pub mod text;
pub mod fields;
pub mod records;
pub mod controller;

pub use controller::{
    command_reply, radio_query_args, radio_switch_args, scan_access_points, scan_args,
    set_wifi_enabled, tool, wifi_enabled, CommandOutcome, NetError, ScanAttempt, ScanStep,
};
pub use fields::split_escaped;
pub use records::{parse_ap_list, parse_signal, precedes, ranks_before, AccessPoint};
pub use signal::{classify_signal, signal_icon, SignalBucket};
