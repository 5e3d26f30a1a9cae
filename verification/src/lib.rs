//! # scpify
//!
//! `scpify` is a library for sending and receiving SCPI (Standard Commands
//! for Programmable Instruments) protocol messages.  It is designed as an
//! importable crate that you can embed in your own instrument firmware,
//! simulation, or test-automation project to add complete SCPI support.
//! Every function states what it does in a contract, and Verus proves that
//! it does so, but for four functions of the standard library whose
//! contracts are believed as stated.
//!
//! ## Features
//!
//! * **Message parser**: tokenise and parse SCPI command strings into typed
//!   [`Command`] structures, including compound messages (`"*RST;*IDN?"`).
//! * **Mnemonic matching**: both the short form (`MEAS`) and long form
//!   (`MEASure`) of every mnemonic are accepted, case-insensitively.
//! * **Response types**: strongly-typed [`Response`] values that format
//!   themselves according to the SCPI standard.
//! * **IEEE 488.2 common commands**: built-in handlers for `*IDN?`, `*RST`,
//!   `*CLS`, `*ESE`, `*ESR?`, `*OPC`, `*SRE`, `*STB?`, `*TST?`, and
//!   `*WAI`.
//! * **Error queue**: SCPI-standard FIFO error queue with standard error
//!   codes.
//! * **`Device` struct**: a ready-to-use dispatcher that routes incoming
//!   messages to registered command handlers or the IEEE 488.2 built-ins.
//! * **Transport**: what links carry, as [`transport::block`] for raw
//!   responses and [`transport::hislip`] for HiSLIP.
//!
//! Floating-point numbers are carried as their bit pattern, a
//! [`binary64::Binary64`].  Callers hand in the functions that read one from
//! text and write one as text.

pub mod binary64;
pub mod command;
pub mod device;
pub mod error;
pub mod helpers;
pub mod ieee488;
pub mod laws;
pub mod message;
pub mod number;
pub mod parser;
pub mod text;
pub mod token;
pub mod transport;

pub use command::{header_matches, mnemonic_matches, Command, Param, Response};
pub use device::Device;
pub use error::{ErrorQueue, ScpiError};
pub use ieee488::{esr, stb, Identification, Ieee488State};
pub use parser::parse;
