//! A drill engine for multiple-choice quizzes: it merges a freshly fetched
//! question catalog with the learner's saved progress, records answers, and
//! turns the session's counters and latencies into display-ready figures.

pub mod catalog;
pub mod progress;
pub mod question;
pub mod session;
pub mod stats;
pub mod text;
