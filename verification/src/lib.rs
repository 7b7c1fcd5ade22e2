//! A small framework that watches a property on the system message bus and
//! reacts to changes, parameterized by a persisted configuration.
//!
//! The verified core holds the configuration document codec (load a reactor's
//! section, persist it back while preserving every other section verbatim),
//! the reaction decision logic, and the event-stream processing model. The
//! bus connection, process spawning and file I/O live outside the library.

pub mod chars;
pub mod doc;
pub mod listener;
pub mod watch;
