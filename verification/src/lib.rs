//! Verified core of a multi-stem audio player and of a file-watching task runner.
//!
//! - `stems`: the stem catalogue, stem discovery, the integer side of WAV loading and
//!   playback, the min/max waveform pyramid and the per-stem waveform registries.
//! - `tasks`: the task-file model and the task database, the scheduling tables built from
//!   it, dependency order, the tasks a change reaches, and the decisions of the scheduler.
//! - `watch`: the command-line selections of the watcher and which task file an event
//!   touches.
//! - `playground`: the function scanner of the playground project.
//! - `paths`, `json`, `text`, `seqs`: paths, JSON documents, strings and sequences as the
//!   other modules use them.
pub mod seqs;
pub mod stems;
pub mod text;
pub mod paths;
pub mod json;
pub mod watch;
pub mod tasks;
pub mod playground;
