//! Writable-permission frames for nested program invocations, a conflict-aware
//! transaction scheduler, and the message layout of a shared-memory protocol.
pub mod memory_contexts;
pub mod permission_log;
pub mod runtime_memory_contexts;
pub mod scheduler;
pub mod shared_memory_protocol;
