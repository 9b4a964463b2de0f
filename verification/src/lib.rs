//! Core of a command-line note-taking tool with optional per-note encryption.
//!
//! The heart of the library is the credential-gated key-wrapping subsystem: a
//! random "boss key" encrypts protected note content, and the boss key itself
//! is stored only wrapped under the user's password and, separately, under a
//! one-time recovery code.  Passwords can therefore be rotated, or recovered,
//! without re-encrypting any note.
//!
//! Persistence (a local relational store), terminal prompting and argument
//! parsing are external collaborators; this crate holds the verified state
//! transitions and string transformations they drive.

pub mod errors;
pub mod security;
pub mod sql;
pub mod utils;
