//! A wireless-network discovery, credential-persistence, and activation
//! engine built around an external supplicant control process.
//!
//! The crate parses the line-oriented output of the control process,
//! reconciles scan results with a persisted credential library, extracts
//! derived pre-shared keys from the derivation tool's output, and renders
//! both the credential library file and the supplicant daemon's
//! configuration file.  All of that logic is verified; the surrounding
//! process plumbing lives outside this crate.

pub mod deriver;
pub mod err;
pub mod library;
pub mod libtext;
pub mod menu;
pub mod order;
pub mod parse;
pub mod reconcile;
pub mod record;
pub mod text;
pub mod workflow;
pub mod wpa;

pub use err::WifiError;
