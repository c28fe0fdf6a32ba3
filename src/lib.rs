//! Terminal clipboard access over the OSC 52 escape sequence.
//!
//! The library holds the parts of the protocol that are pure computation:
//! a base64 codec, the framing of requests and an incremental scanner for
//! the terminal's reply, the bookkeeping that restores the terminal's
//! original attributes, the reading of a DECRQM mode report, and the small
//! rules of the command line (text MIME types, the shown version).
pub mod base64;
pub mod osc52;
pub mod session;
pub mod mode_report;
pub mod mime;
pub mod version;
