//! The saved record of a session.

use vstd::prelude::*;

verus! {

/// The durable record of a session: what was answered, what was answered
/// wrongly, the two counters (absent in older records) and the answer
/// latencies in milliseconds, in answer order.
pub struct PersistedProgress {
    pub already_answered_uuids: Vec<String>,
    pub wrong_answered_uuids: Vec<String>,
    pub correct_count: Option<u64>,
    pub total_count: Option<u64>,
    pub times: Vec<u64>,
}

/// The mathematical content of a persisted record.
pub struct ProgressView {
    pub answered: Seq<Seq<char>>,
    pub wrong: Seq<Seq<char>>,
    pub correct_count: Option<u64>,
    pub total_count: Option<u64>,
    pub times: Seq<u64>,
}

/// The character sequences of a sequence of strings.
pub open spec fn strs(v: Seq<String>) -> Seq<Seq<char>> {
    v.map_values(|s: String| s@)
}

impl View for PersistedProgress {
    type V = ProgressView;

    open spec fn view(&self) -> ProgressView {
        ProgressView {
            answered: strs(self.already_answered_uuids@),
            wrong: strs(self.wrong_answered_uuids@),
            correct_count: self.correct_count,
            total_count: self.total_count,
            times: self.times@,
        }
    }
}

} // verus!
