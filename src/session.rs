//! The session: merging a catalog with saved progress, the answer
//! protocol, and the laws that hold of both.

use vstd::prelude::*;
use crate::progress::{strs, PersistedProgress, ProgressView};
use crate::question::{has_id, ids, views, Question, QuestionView};

verus! {

/// The first question of `cat` that carries `id`.
pub open spec fn first_with(cat: Seq<QuestionView>, id: Seq<char>) -> QuestionView
    decreases cat.len(),
{
    if cat.len() == 0 {
        vstd::pervasive::arbitrary()
    } else if cat[0].uuid == id {
        cat[0]
    } else {
        first_with(cat.drop_first(), id)
    }
}

/// The answered part of the working queue: the saved identifiers in saved
/// order, each resolved to its first catalog entry, skipping identifiers
/// that the catalog lacks and identifiers already placed.
pub open spec fn answered_prefix(cat: Seq<QuestionView>, answered: Seq<Seq<char>>) -> Seq<QuestionView>
    decreases answered.len(),
{
    if answered.len() == 0 {
        Seq::empty()
    } else {
        let p = answered_prefix(cat, answered.drop_last());
        let id = answered.last();
        if has_id(cat, id) && !has_id(p, id) {
            p.push(first_with(cat, id))
        } else {
            p
        }
    }
}

/// The unanswered part of the working queue: the catalog in catalog order,
/// without what `prefix` holds and without repeated identifiers.
pub open spec fn unanswered_rest(cat: Seq<QuestionView>, prefix: Seq<QuestionView>) -> Seq<QuestionView>
    decreases cat.len(),
{
    if cat.len() == 0 {
        Seq::empty()
    } else {
        let r = unanswered_rest(cat.drop_last(), prefix);
        let q = cat.last();
        if has_id(prefix, q.uuid) || has_id(r, q.uuid) {
            r
        } else {
            r.push(q)
        }
    }
}

/// Index of the first question of `qs` with identifier `id`, if any.
pub fn position_of(qs: &Vec<Question>, id: &String) -> (r: Option<usize>)
    ensures
        match r {
            Some(k) => k < qs@.len() && qs@[k as int]@.uuid == id@
                && forall|j: int| 0 <= j < k ==> (#[trigger] qs@[j])@.uuid != id@,
            None => !has_id(views(qs@), id@),
        },
{
    let mut i: usize = 0;
    while i < qs.len()
        invariant
            i <= qs@.len(),
            forall|j: int| 0 <= j < i ==> (#[trigger] qs@[j])@.uuid != id@,
        decreases qs@.len() - i,
    {
        if qs[i].uuid == *id {
            return Some(i);
        }
        i = i + 1;
    }
    proof {
        assert forall|j: int| 0 <= j < views(qs@).len() implies (#[trigger] views(qs@)[j]).uuid != id@ by {
            assert(qs@[j]@.uuid != id@);
        }
    }
    None
}

/// The first match found at index `k` is what `first_with` names.
proof fn lemma_first_with(cat: Seq<QuestionView>, id: Seq<char>, k: int)
    requires
        0 <= k < cat.len(),
        cat[k].uuid == id,
        forall|j: int| 0 <= j < k ==> (#[trigger] cat[j]).uuid != id,
    ensures
        first_with(cat, id) == cat[k],
    decreases k,
{
    if k > 0 {
        assert(cat[0].uuid != id);
        assert forall|j: int| 0 <= j < k - 1 implies (#[trigger] cat.drop_first()[j]).uuid != id by {
            assert(cat[j + 1].uuid != id);
        }
        lemma_first_with(cat.drop_first(), id, k - 1);
    }
}

/// The answered prefix, built from a catalog and the saved identifiers.
fn build_prefix(catalog: &Vec<Question>, answered: &Vec<String>) -> (r: Vec<Question>)
    ensures
        views(r@) == answered_prefix(views(catalog@), strs(answered@)),
{
    let ghost cat = views(catalog@);
    let ghost a = strs(answered@);
    let mut out: Vec<Question> = Vec::new();
    let mut i: usize = 0;
    while i < answered.len()
        invariant
            i <= answered@.len(),
            cat == views(catalog@),
            a == strs(answered@),
            views(out@) == answered_prefix(cat, a.take(i as int)),
        decreases answered@.len() - i,
    {
        let id = &answered[i];
        proof {
            assert(a.take(i + 1).drop_last() =~= a.take(i as int));
            assert(a.take(i + 1).last() == id@);
        }
        match position_of(catalog, id) {
            Some(k) => {
                proof {
                    assert(cat[k as int].uuid == id@);
                    assert(has_id(cat, id@));
                    assert forall|j: int| 0 <= j < k implies (#[trigger] cat[j]).uuid != id@ by {
                        assert(catalog@[j]@.uuid != id@);
                    }
                    lemma_first_with(cat, id@, k as int);
                }
                if position_of(&out, id).is_none() {
                    let q = catalog[k].duplicate();
                    out.push(q);
                    proof {
                        assert(views(out@) =~= answered_prefix(cat, a.take(i as int)).push(cat[k as int]));
                    }
                } else {
                    proof {
                        let p = answered_prefix(cat, a.take(i as int));
                        let kk = choose|kk: int| 0 <= kk < out@.len() && out@[kk]@.uuid == id@;
                        assert(p[kk].uuid == id@);
                        assert(has_id(p, id@));
                    }
                }
            },
            None => {},
        }
        i = i + 1;
    }
    proof {
        assert(a.take(answered@.len() as int) =~= a);
    }
    out
}

/// The unanswered remainder, built from a catalog and the answered prefix.
fn build_rest(catalog: &Vec<Question>, prefix: &Vec<Question>) -> (r: Vec<Question>)
    ensures
        views(r@) == unanswered_rest(views(catalog@), views(prefix@)),
{
    let ghost cat = views(catalog@);
    let ghost pre = views(prefix@);
    let mut out: Vec<Question> = Vec::new();
    let mut j: usize = 0;
    while j < catalog.len()
        invariant
            j <= catalog@.len(),
            cat == views(catalog@),
            pre == views(prefix@),
            views(out@) == unanswered_rest(cat.take(j as int), pre),
        decreases catalog@.len() - j,
    {
        let q = &catalog[j];
        proof {
            assert(cat.take(j + 1).drop_last() =~= cat.take(j as int));
            assert(cat.take(j + 1).last() == q@);
        }
        let in_prefix = position_of(prefix, &q.uuid).is_some();
        let in_rest = position_of(&out, &q.uuid).is_some();
        proof {
            if in_prefix {
                let kk = choose|kk: int| 0 <= kk < prefix@.len() && prefix@[kk]@.uuid == q@.uuid;
                assert(pre[kk].uuid == q@.uuid);
            }
            if in_rest {
                let r = unanswered_rest(cat.take(j as int), pre);
                let kk = choose|kk: int| 0 <= kk < out@.len() && out@[kk]@.uuid == q@.uuid;
                assert(r[kk].uuid == q@.uuid);
            }
        }
        if !in_prefix && !in_rest {
            out.push(q.duplicate());
            proof {
                assert(views(out@) =~= unanswered_rest(cat.take(j as int), pre).push(q@));
            }
        }
        j = j + 1;
    }
    proof {
        assert(cat.take(catalog@.len() as int) =~= cat);
    }
    out
}

/// The saved wrong-answer identifiers that the answered prefix holds, in
/// saved order.
pub open spec fn known_wrong(prefix: Seq<QuestionView>, wrong: Seq<Seq<char>>) -> Seq<Seq<char>>
    decreases wrong.len(),
{
    if wrong.len() == 0 {
        Seq::empty()
    } else {
        let r = known_wrong(prefix, wrong.drop_last());
        if has_id(prefix, wrong.last()) {
            r.push(wrong.last())
        } else {
            r
        }
    }
}

/// The working queue for a catalog and a list of answered identifiers.
pub open spec fn merged_queue(cat: Seq<QuestionView>, answered: Seq<Seq<char>>) -> Seq<QuestionView> {
    answered_prefix(cat, answered) + unanswered_rest(cat, answered_prefix(cat, answered))
}

/// The mathematical state of a session.
pub struct SessionView {
    pub queue: Seq<QuestionView>,
    pub cursor: nat,
    pub wrong: Seq<Seq<char>>,
    pub times: Seq<u64>,
    pub correct_count: u64,
    pub total_count: u64,
    pub presented: bool,
}

/// A session with no history over a catalog.
pub open spec fn fresh_session(cat: Seq<QuestionView>) -> SessionView {
    SessionView {
        queue: merged_queue(cat, Seq::empty()),
        cursor: 0,
        wrong: Seq::empty(),
        times: Seq::empty(),
        correct_count: 0,
        total_count: 0,
        presented: false,
    }
}

/// The total counter a record restores: its own, or else the number of
/// answered questions that the catalog still holds.
pub open spec fn restored_total(p: ProgressView, prefix_len: nat) -> u64 {
    match p.total_count {
        Some(t) => t,
        None => prefix_len as u64,
    }
}

/// The correct counter a record restores: its own, or else the total less
/// the wrong answers (zero where they outnumber it).
pub open spec fn restored_correct(p: ProgressView, total: u64, wrong_len: nat) -> u64 {
    match p.correct_count {
        Some(c) => c,
        None => if wrong_len <= total {
            (total - wrong_len) as u64
        } else {
            0
        },
    }
}

/// The session that a catalog and an optional saved record give. A record
/// whose correct counter exceeds its total counter is invalid and counts as
/// no history at all. A record's own counters are kept as they stand, also
/// where the catalog has dropped answered questions: the counters then
/// disagree with the cursor, a known inconsistency left unreconciled.
pub open spec fn resumed_session(cat: Seq<QuestionView>, p: Option<ProgressView>) -> SessionView {
    match p {
        None => fresh_session(cat),
        Some(r) => {
            let pre = answered_prefix(cat, r.answered);
            let wrong = known_wrong(pre, r.wrong);
            let total = restored_total(r, pre.len());
            let correct = restored_correct(r, total, wrong.len());
            if correct <= total {
                SessionView {
                    queue: merged_queue(cat, r.answered),
                    cursor: pre.len(),
                    wrong,
                    times: r.times,
                    correct_count: correct,
                    total_count: total,
                    presented: false,
                }
            } else {
                fresh_session(cat)
            }
        },
    }
}

/// The view of an optional record.
pub open spec fn opt_view(p: Option<PersistedProgress>) -> Option<ProgressView> {
    match p {
        Some(r) => Some(r@),
        None => None,
    }
}

/// A quiz session: the working queue (answered questions first), the cursor
/// at the next unanswered one, the wrongly answered identifiers, the answer
/// latencies in milliseconds and the two counters.
pub struct SessionState {
    queue: Vec<Question>,
    cursor: usize,
    wrong: Vec<String>,
    times: Vec<u64>,
    correct_count: u64,
    total_count: u64,
    presented: bool,
}

impl View for SessionState {
    type V = SessionView;

    closed spec fn view(&self) -> SessionView {
        SessionView {
            queue: views(self.queue@),
            cursor: self.cursor as nat,
            wrong: strs(self.wrong@),
            times: self.times@,
            correct_count: self.correct_count,
            total_count: self.total_count,
            presented: self.presented,
        }
    }
}

/// Whether a session view is consistent: the cursor within the queue, no
/// more correct answers than answers, and a question on show only while one
/// is left.
pub open spec fn session_wf(s: SessionView) -> bool {
    &&& s.cursor <= s.queue.len()
    &&& s.correct_count <= s.total_count
    &&& s.presented ==> s.cursor < s.queue.len()
}

/// The saved wrong-answer identifiers that `prefix` holds.
fn keep_known(prefix: &Vec<Question>, wrong: &Vec<String>) -> (r: Vec<String>)
    ensures
        strs(r@) == known_wrong(views(prefix@), strs(wrong@)),
{
    let ghost pre = views(prefix@);
    let ghost w = strs(wrong@);
    let mut out: Vec<String> = Vec::new();
    let mut i: usize = 0;
    while i < wrong.len()
        invariant
            i <= wrong@.len(),
            pre == views(prefix@),
            w == strs(wrong@),
            strs(out@) == known_wrong(pre, w.take(i as int)),
        decreases wrong@.len() - i,
    {
        let id = &wrong[i];
        proof {
            assert(w.take(i + 1).drop_last() =~= w.take(i as int));
            assert(w.take(i + 1).last() == id@);
        }
        match position_of(prefix, id) {
            Some(k) => {
                proof {
                    assert(pre[k as int].uuid == id@);
                }
                out.push(id.clone());
                proof {
                    assert(strs(out@) =~= known_wrong(pre, w.take(i as int)).push(id@));
                }
            },
            None => {},
        }
        i = i + 1;
    }
    proof {
        assert(w.take(wrong@.len() as int) =~= w);
    }
    out
}

impl SessionState {
    /// The consistency of the session.
    pub open spec fn wf(&self) -> bool {
        session_wf(self@)
    }

    fn fresh(catalog: &Vec<Question>) -> (r: SessionState)
        ensures
            r@ == fresh_session(views(catalog@)),
            r.wf(),
    {
        let empty: Vec<Question> = Vec::new();
        let queue = build_rest(catalog, &empty);
        proof {
            assert(views(empty@) =~= Seq::<QuestionView>::empty());
            assert(answered_prefix(views(catalog@), Seq::empty()) =~= Seq::<QuestionView>::empty());
            assert(merged_queue(views(catalog@), Seq::empty()) =~= views(queue@));
        }
        let r = SessionState {
            queue,
            cursor: 0,
            wrong: Vec::new(),
            times: Vec::new(),
            correct_count: 0,
            total_count: 0,
            presented: false,
        };
        proof {
            assert(r@.wrong =~= Seq::<Seq<char>>::empty());
            assert(r@.times =~= Seq::<u64>::empty());
        }
        r
    }

    /// Builds the session from a freshly fetched catalog and the saved
    /// record, if one could be read: answered questions first in saved
    /// order, then the rest of the catalog in catalog order, each identifier
    /// once; saved identifiers that the catalog lacks are dropped.
    pub fn new(catalog: Vec<Question>, persisted: Option<PersistedProgress>) -> (r: SessionState)
        ensures
            r@ == resumed_session(views(catalog@), opt_view(persisted)),
            r.wf(),
    {
        match persisted {
            None => SessionState::fresh(&catalog),
            Some(p) => {
                let ghost pv = p@;
                let prefix = build_prefix(&catalog, &p.already_answered_uuids);
                let wrong = keep_known(&prefix, &p.wrong_answered_uuids);
                let total = match p.total_count {
                    Some(t) => t,
                    None => prefix.len() as u64,
                };
                let wrong_len = wrong.len() as u64;
                let correct = match p.correct_count {
                    Some(c) => c,
                    None => if wrong_len <= total {
                        total - wrong_len
                    } else {
                        0
                    },
                };
                if correct <= total {
                    let mut queue = prefix;
                    let cursor = queue.len();
                    let mut rest = build_rest(&catalog, &queue);
                    let ghost qv = views(queue@);
                    let ghost rv = views(rest@);
                    queue.append(&mut rest);
                    proof {
                        assert(views(queue@) =~= qv + rv);
                    }
                    SessionState {
                        queue,
                        cursor,
                        wrong,
                        times: p.times,
                        correct_count: correct,
                        total_count: total,
                        presented: false,
                    }
                } else {
                    SessionState::fresh(&catalog)
                }
            },
        }
    }
}

/// Whether a selection answers a question: the selected letters and the
/// correct letters form the same set.
pub open spec fn answer_is_correct(selection: Seq<char>, correct: Seq<char>) -> bool {
    selection.to_set() == correct.to_set()
}

/// The session after the question at the cursor is answered with
/// `selection` in `elapsed` milliseconds.
pub open spec fn after_answer(s: SessionView, selection: Seq<char>, elapsed: u64) -> SessionView {
    let q = s.queue[s.cursor as int];
    let ok = answer_is_correct(selection, q.correct_answers);
    SessionView {
        queue: s.queue,
        cursor: s.cursor + 1,
        wrong: if ok {
            s.wrong
        } else {
            s.wrong.push(q.uuid)
        },
        times: s.times.push(elapsed),
        correct_count: if ok {
            (s.correct_count + 1) as u64
        } else {
            s.correct_count
        },
        total_count: (s.total_count + 1) as u64,
        presented: false,
    }
}

/// The record that saving a session writes.
pub open spec fn persisted_of(s: SessionView) -> ProgressView {
    ProgressView {
        answered: ids(s.queue.take(s.cursor as int)),
        wrong: s.wrong,
        correct_count: Some(s.correct_count),
        total_count: Some(s.total_count),
        times: s.times,
    }
}

/// Misuse of the answer protocol.
#[derive(PartialEq, Eq, Structural, Debug, Clone, Copy)]
pub enum SessionError {
    /// Every question of the queue has been answered.
    Exhausted,
    /// An answer came without the question having been shown.
    NotPresented,
}

/// What recording an answer reports: whether it was right, and the correct
/// letters to show.
pub struct AnswerOutcome {
    pub correct: bool,
    pub correct_answers: Vec<char>,
}

/// A read-only summary of a session: the questions answered in this queue,
/// the pool size, the two counters and the latencies in milliseconds.
pub struct Snapshot {
    pub completed: usize,
    pub total_in_pool: usize,
    pub correct_count: u64,
    pub total_answered: u64,
    pub time_samples: Vec<u64>,
}

/// Whether every letter of `a` occurs in `b`.
fn all_within(a: &Vec<char>, b: &Vec<char>) -> (r: bool)
    ensures
        r == (forall|i: int| 0 <= i < a@.len() ==> b@.contains(#[trigger] a@[i])),
{
    let mut i: usize = 0;
    while i < a.len()
        invariant
            i <= a@.len(),
            forall|k: int| 0 <= k < i ==> b@.contains(#[trigger] a@[k]),
        decreases a@.len() - i,
    {
        let c = a[i];
        let mut found = false;
        let mut j: usize = 0;
        while j < b.len()
            invariant
                j <= b@.len(),
                found ==> b@.contains(c),
                !found ==> forall|k: int| 0 <= k < j ==> b@[k] != c,
            decreases b@.len() - j,
        {
            if b[j] == c {
                found = true;
            }
            j = j + 1;
        }
        if !found {
            return false;
        }
        i = i + 1;
    }
    true
}

/// Whether `selection` names exactly the letters of `correct`, in any order.
pub fn answer_matches(selection: &Vec<char>, correct: &Vec<char>) -> (r: bool)
    ensures
        r == answer_is_correct(selection@, correct@),
{
    let forward = all_within(selection, correct);
    let backward = all_within(correct, selection);
    proof {
        if forward && backward {
            assert forall|c: char| selection@.to_set().contains(c) == correct@.to_set().contains(c) by {
                if selection@.contains(c) {
                    let k = choose|k: int| 0 <= k < selection@.len() && selection@[k] == c;
                    assert(correct@.contains(selection@[k]));
                }
                if correct@.contains(c) {
                    let k = choose|k: int| 0 <= k < correct@.len() && correct@[k] == c;
                    assert(selection@.contains(correct@[k]));
                }
            }
            assert(selection@.to_set() =~= correct@.to_set());
        } else if !forward {
            let k = choose|k: int| 0 <= k < selection@.len() && !correct@.contains(#[trigger] selection@[k]);
            assert(selection@.to_set().contains(selection@[k]));
            assert(!correct@.to_set().contains(selection@[k]));
        } else {
            let k = choose|k: int| 0 <= k < correct@.len() && !selection@.contains(#[trigger] correct@[k]);
            assert(correct@.to_set().contains(correct@[k]));
            assert(!selection@.to_set().contains(correct@[k]));
        }
    }
    forward && backward
}

impl SessionState {
    /// Whether a question is left to answer.
    pub fn has_next(&self) -> (r: bool)
        ensures
            r == (self@.cursor < self@.queue.len()),
    {
        self.cursor < self.queue.len()
    }

    /// The question at the cursor, which is from then on the one on show;
    /// asking again gives the same question.
    pub fn next_question(&mut self) -> (r: Result<Question, SessionError>)
        requires
            old(self).wf(),
        ensures
            final(self).wf(),
            match r {
                Ok(q) => old(self)@.cursor < old(self)@.queue.len()
                    && q@ == old(self)@.queue[old(self)@.cursor as int]
                    && final(self)@ == (SessionView { presented: true, ..old(self)@ }),
                Err(e) => e == SessionError::Exhausted
                    && old(self)@.cursor == old(self)@.queue.len()
                    && final(self)@ == old(self)@,
            },
    {
        if self.cursor < self.queue.len() {
            let q = self.queue[self.cursor].duplicate();
            self.presented = true;
            Ok(q)
        } else {
            Err(SessionError::Exhausted)
        }
    }

    /// Records the answer to the question on show: the latency is appended,
    /// the counters move on, a wrong answer's identifier is kept, and the
    /// cursor advances.
    pub fn record_answer(&mut self, selection: &Vec<char>, elapsed_ms: u64) -> (r: Result<AnswerOutcome, SessionError>)
        requires
            old(self).wf(),
            old(self)@.total_count < u64::MAX,
        ensures
            final(self).wf(),
            match r {
                Ok(o) => old(self)@.presented
                    && final(self)@ == after_answer(old(self)@, selection@, elapsed_ms)
                    && o.correct == answer_is_correct(
                        selection@,
                        old(self)@.queue[old(self)@.cursor as int].correct_answers,
                    )
                    && o.correct_answers@ == old(self)@.queue[old(self)@.cursor as int].correct_answers,
                Err(e) => final(self)@ == old(self)@ && if old(self)@.cursor == old(self)@.queue.len() {
                    e == SessionError::Exhausted
                } else {
                    e == SessionError::NotPresented && !old(self)@.presented
                },
            },
    {
        if self.cursor >= self.queue.len() {
            return Err(SessionError::Exhausted);
        }
        if !self.presented {
            return Err(SessionError::NotPresented);
        }
        let ghost before = self@;
        let correct_answers = self.queue[self.cursor].correct_answers.clone();
        proof {
            assert(correct_answers@ =~= before.queue[before.cursor as int].correct_answers);
        }
        let ok = answer_matches(selection, &correct_answers);
        self.times.push(elapsed_ms);
        self.total_count = self.total_count + 1;
        if ok {
            self.correct_count = self.correct_count + 1;
        } else {
            let id = self.queue[self.cursor].uuid.clone();
            self.wrong.push(id);
        }
        self.cursor = self.cursor + 1;
        self.presented = false;
        proof {
            assert(self@.wrong =~= after_answer(before, selection@, elapsed_ms).wrong);
        }
        Ok(AnswerOutcome { correct: ok, correct_answers })
    }

    /// The counters and latencies, read without change.
    pub fn snapshot(&self) -> (r: Snapshot)
        ensures
            r.completed == self@.cursor,
            r.total_in_pool == self@.queue.len(),
            r.correct_count == self@.correct_count,
            r.total_answered == self@.total_count,
            r.time_samples@ == self@.times,
    {
        let time_samples = self.times.clone();
        proof {
            assert(time_samples@ =~= self.times@);
        }
        Snapshot {
            completed: self.cursor,
            total_in_pool: self.queue.len(),
            correct_count: self.correct_count,
            total_answered: self.total_count,
            time_samples,
        }
    }

    /// Starts over on a new catalog with no history; what was saved stays
    /// untouched until the next answer is saved.
    pub fn reset(&mut self, catalog: Vec<Question>)
        ensures
            final(self)@ == fresh_session(views(catalog@)),
            final(self).wf(),
    {
        *self = SessionState::fresh(&catalog);
    }

    /// The record to save for this session.
    pub fn to_persisted(&self) -> (r: PersistedProgress)
        requires
            self.wf(),
        ensures
            r@ == persisted_of(self@),
    {
        let mut answered: Vec<String> = Vec::new();
        let mut i: usize = 0;
        while i < self.cursor
            invariant
                self.wf(),
                i <= self.cursor,
                strs(answered@) == ids(views(self.queue@).take(i as int)),
            decreases self.cursor - i,
        {
            let id = self.queue[i].uuid.clone();
            let ghost before = strs(answered@);
            answered.push(id);
            proof {
                assert(strs(answered@) =~= before.push(id@));
                assert(views(self.queue@).take(i + 1) =~= views(self.queue@).take(i as int).push(
                    self.queue@[i as int]@,
                ));
                assert(strs(answered@) =~= ids(views(self.queue@).take(i + 1)));
            }
            i = i + 1;
        }
        let wrong = self.wrong.clone();
        let times = self.times.clone();
        proof {
            assert(strs(wrong@) =~= strs(self.wrong@));
            assert(times@ =~= self.times@);
        }
        PersistedProgress {
            already_answered_uuids: answered,
            wrong_answered_uuids: wrong,
            correct_count: Some(self.correct_count),
            total_count: Some(self.total_count),
            times,
        }
    }
}

proof fn lemma_prefix_ignores_unknown(cat: Seq<QuestionView>, a: Seq<Seq<char>>, i: int, x: Seq<char>)
    requires
        !has_id(cat, x),
        0 <= i <= a.len(),
    ensures
        answered_prefix(cat, a.insert(i, x)) == answered_prefix(cat, a),
    decreases a.len() - i,
{
    if i == a.len() {
        assert(a.insert(i, x).drop_last() =~= a);
        assert(a.insert(i, x).last() == x);
    } else {
        lemma_prefix_ignores_unknown(cat, a.drop_last(), i, x);
        assert(a.insert(i, x).drop_last() =~= a.drop_last().insert(i, x));
        assert(a.insert(i, x).last() == a.last());
    }
}

/// A saved identifier that the catalog lacks changes nothing: inserted
/// anywhere into a record's answered list, the resumed session (queue,
/// cursor, counters and all) is the same as without it.
pub proof fn lemma_unknown_answered_id_ignored(cat: Seq<QuestionView>, p: ProgressView, i: int, x: Seq<char>)
    requires
        !has_id(cat, x),
        0 <= i <= p.answered.len(),
    ensures
        resumed_session(cat, Some(ProgressView { answered: p.answered.insert(i, x), ..p })) == resumed_session(
            cat,
            Some(p),
        ),
{
    lemma_prefix_ignores_unknown(cat, p.answered, i, x);
}

/// The session after a series of answers, each a selection and a latency.
pub open spec fn replay(s: SessionView, answers: Seq<(Seq<char>, u64)>) -> SessionView
    decreases answers.len(),
{
    if answers.len() == 0 {
        s
    } else {
        after_answer(replay(s, answers.drop_last()), answers.last().0, answers.last().1)
    }
}

/// Recording answers only moves forward: after n answers the total counter,
/// the latencies and the cursor have grown by n each, the correct counter by
/// at most n, and the queue is unchanged.
pub proof fn lemma_answers_advance(s: SessionView, answers: Seq<(Seq<char>, u64)>)
    requires
        session_wf(s),
        s.cursor + answers.len() <= s.queue.len(),
        s.total_count + answers.len() <= u64::MAX,
    ensures
        replay(s, answers).total_count == s.total_count + answers.len(),
        replay(s, answers).correct_count <= s.correct_count + answers.len(),
        replay(s, answers).correct_count <= replay(s, answers).total_count,
        replay(s, answers).times.len() == s.times.len() + answers.len(),
        replay(s, answers).cursor == s.cursor + answers.len(),
        replay(s, answers).queue == s.queue,
    decreases answers.len(),
{
    if answers.len() > 0 {
        lemma_answers_advance(s, answers.drop_last());
    }
}

/// No two questions of `qs` share an identifier.
pub open spec fn distinct_ids(qs: Seq<QuestionView>) -> bool {
    forall|i: int, j: int| 0 <= i < qs.len() && 0 <= j < qs.len() && i != j ==> (#[trigger] qs[i]).uuid != (#[trigger] qs[j]).uuid
}

proof fn lemma_first_with_found(cat: Seq<QuestionView>, id: Seq<char>)
    requires
        has_id(cat, id),
    ensures
        first_with(cat, id).uuid == id,
        cat.contains(first_with(cat, id)),
    decreases cat.len(),
{
    if cat[0].uuid != id {
        let i = choose|i: int| 0 <= i < cat.len() && (#[trigger] cat[i]).uuid == id;
        assert(cat.drop_first()[i - 1].uuid == id);
        lemma_first_with_found(cat.drop_first(), id);
        let k = choose|k: int| 0 <= k < cat.drop_first().len() && cat.drop_first()[k] == first_with(cat, id);
        assert(cat[k + 1] == first_with(cat, id));
    } else {
        assert(cat[0] == first_with(cat, id));
    }
}

proof fn lemma_prefix_facts(cat: Seq<QuestionView>, a: Seq<Seq<char>>)
    ensures
        distinct_ids(answered_prefix(cat, a)),
        forall|k: int| 0 <= k < answered_prefix(cat, a).len() ==> cat.contains(#[trigger] answered_prefix(cat, a)[k]),
        forall|id: Seq<char>| has_id(answered_prefix(cat, a), id) <==> (a.contains(id) && has_id(cat, id)),
    decreases a.len(),
{
    if a.len() > 0 {
        let a0 = a.drop_last();
        let p = answered_prefix(cat, a0);
        let id = a.last();
        lemma_prefix_facts(cat, a0);
        let pre = answered_prefix(cat, a);
        assert forall|x: Seq<char>| a.contains(x) <==> (a0.contains(x) || x == id) by {
            if a.contains(x) {
                let k = choose|k: int| 0 <= k < a.len() && a[k] == x;
                if k < a.len() - 1 {
                    assert(a0[k] == x);
                }
            }
            if a0.contains(x) {
                let k = choose|k: int| 0 <= k < a0.len() && a0[k] == x;
                assert(a[k] == x);
            }
            if x == id {
                assert(a[a.len() - 1] == x);
            }
        }
        if has_id(cat, id) && !has_id(p, id) {
            lemma_first_with_found(cat, id);
            assert(pre == p.push(first_with(cat, id)));
            assert forall|x: Seq<char>| has_id(pre, x) <==> (has_id(p, x) || x == id) by {
                if has_id(pre, x) {
                    let k = choose|k: int| 0 <= k < pre.len() && (#[trigger] pre[k]).uuid == x;
                    if k < p.len() {
                        assert(p[k].uuid == x);
                    }
                }
                if has_id(p, x) {
                    let k = choose|k: int| 0 <= k < p.len() && (#[trigger] p[k]).uuid == x;
                    assert(pre[k].uuid == x);
                }
                if x == id {
                    assert(pre[p.len() as int].uuid == x);
                }
            }
            assert forall|i: int, j: int| 0 <= i < pre.len() && 0 <= j < pre.len() && i != j implies (#[trigger] pre[i]).uuid != (#[trigger] pre[j]).uuid by {
                if i < p.len() && j < p.len() {
                    assert(p[i] == pre[i] && p[j] == pre[j]);
                } else if i < p.len() {
                    assert(p[i] == pre[i]);
                } else {
                    assert(p[j] == pre[j]);
                }
            }
            assert forall|k: int| 0 <= k < pre.len() implies cat.contains(#[trigger] pre[k]) by {
                if k < p.len() {
                    assert(p[k] == pre[k]);
                }
            }
        } else {
            assert(pre == p);
        }
    }
}

proof fn lemma_rest_facts(cat: Seq<QuestionView>, pre: Seq<QuestionView>)
    ensures
        distinct_ids(unanswered_rest(cat, pre)),
        forall|k: int| 0 <= k < unanswered_rest(cat, pre).len() ==> !has_id(pre, (#[trigger] unanswered_rest(cat, pre)[k]).uuid)
            && cat.contains(unanswered_rest(cat, pre)[k]),
        forall|j: int| 0 <= j < cat.len() ==> has_id(pre, (#[trigger] cat[j]).uuid) || has_id(unanswered_rest(cat, pre), cat[j].uuid),
    decreases cat.len(),
{
    if cat.len() > 0 {
        let c0 = cat.drop_last();
        let r = unanswered_rest(c0, pre);
        let q = cat.last();
        lemma_rest_facts(c0, pre);
        let rest = unanswered_rest(cat, pre);
        if has_id(pre, q.uuid) || has_id(r, q.uuid) {
            assert(rest == r);
            assert forall|k: int| 0 <= k < rest.len() implies !has_id(pre, (#[trigger] rest[k]).uuid) && cat.contains(rest[k]) by {
                let m = choose|m: int| 0 <= m < c0.len() && c0[m] == rest[k];
                assert(cat[m] == rest[k]);
            }
            assert forall|j: int| 0 <= j < cat.len() implies has_id(pre, (#[trigger] cat[j]).uuid) || has_id(rest, cat[j].uuid) by {
                if j < c0.len() {
                    assert(c0[j] == cat[j]);
                }
            }
        } else {
            assert(rest == r.push(q));
            assert forall|i: int, j: int| 0 <= i < rest.len() && 0 <= j < rest.len() && i != j implies (#[trigger] rest[i]).uuid != (#[trigger] rest[j]).uuid by {
                if i < r.len() && j < r.len() {
                    assert(r[i] == rest[i] && r[j] == rest[j]);
                } else if i < r.len() {
                    assert(r[i] == rest[i]);
                } else {
                    assert(r[j] == rest[j]);
                }
            }
            assert forall|k: int| 0 <= k < rest.len() implies !has_id(pre, (#[trigger] rest[k]).uuid) && cat.contains(rest[k]) by {
                if k < r.len() {
                    assert(r[k] == rest[k]);
                    let m = choose|m: int| 0 <= m < c0.len() && c0[m] == rest[k];
                    assert(cat[m] == rest[k]);
                } else {
                    assert(cat[cat.len() - 1] == rest[k]);
                }
            }
            assert forall|j: int| 0 <= j < cat.len() implies has_id(pre, (#[trigger] cat[j]).uuid) || has_id(rest, cat[j].uuid) by {
                if j < c0.len() {
                    assert(c0[j] == cat[j]);
                    if has_id(r, cat[j].uuid) {
                        let k = choose|k: int| 0 <= k < r.len() && (#[trigger] r[k]).uuid == cat[j].uuid;
                        assert(rest[k] == r[k]);
                    }
                } else {
                    assert(rest[r.len() as int] == q);
                }
            }
        }
    }
}

/// Whatever the record, the working queue holds each identifier of the
/// catalog exactly once, and no other.
pub proof fn lemma_queue_covers_catalog(cat: Seq<QuestionView>, p: Option<ProgressView>)
    ensures
        ids(resumed_session(cat, p).queue).no_duplicates(),
        ids(resumed_session(cat, p).queue).to_set() == ids(cat).to_set(),
{
    // An invalid record resumes like no record: from an empty answered list.
    let a = match p {
        Some(r) if resumed_session(cat, p) != fresh_session(cat) => r.answered,
        _ => Seq::empty(),
    };
    assert(resumed_session(cat, p).queue == merged_queue(cat, a));
    let pre = answered_prefix(cat, a);
    let rest = unanswered_rest(cat, pre);
    let q = pre + rest;
    lemma_prefix_facts(cat, a);
    lemma_rest_facts(cat, pre);
    assert forall|i: int, j: int| 0 <= i < q.len() && 0 <= j < q.len() && i != j implies ids(q)[i] != ids(q)[j] by {
        if i < pre.len() && j < pre.len() {
            assert(pre[i] == q[i] && pre[j] == q[j]);
        } else if i >= pre.len() && j >= pre.len() {
            assert(rest[i - pre.len()] == q[i] && rest[j - pre.len()] == q[j]);
        } else if i < pre.len() {
            assert(pre[i] == q[i] && rest[j - pre.len()] == q[j]);
            assert(has_id(pre, q[i].uuid));
        } else {
            assert(pre[j] == q[j] && rest[i - pre.len()] == q[i]);
            assert(has_id(pre, q[j].uuid));
        }
    }
    assert forall|id: Seq<char>| ids(q).contains(id) <==> ids(cat).contains(id) by {
        if ids(q).contains(id) {
            let k = choose|k: int| 0 <= k < ids(q).len() && ids(q)[k] == id;
            let x = q[k];
            if k < pre.len() {
                assert(pre[k] == x);
                assert(cat.contains(pre[k]));
            } else {
                assert(rest[k - pre.len()] == x);
                assert(cat.contains(rest[k - pre.len()]));
            }
            let m = choose|m: int| 0 <= m < cat.len() && cat[m] == x;
            assert(ids(cat)[m] == id);
        }
        if ids(cat).contains(id) {
            let m = choose|m: int| 0 <= m < ids(cat).len() && ids(cat)[m] == id;
            assert(cat[m].uuid == id);
            if has_id(pre, id) {
                let k = choose|k: int| 0 <= k < pre.len() && (#[trigger] pre[k]).uuid == id;
                assert(q[k] == pre[k]);
                assert(ids(q)[k] == id);
            } else {
                assert(has_id(rest, cat[m].uuid));
                let k = choose|k: int| 0 <= k < rest.len() && (#[trigger] rest[k]).uuid == id;
                assert(q[k + pre.len()] == rest[k]);
                assert(ids(q)[k + pre.len()] == id);
            }
        }
    }
    assert(ids(q).to_set() =~= ids(cat).to_set());
}

/// Saving a session and resuming from the saved record on a catalog that
/// still holds every answered question gives back both counters and the
/// latencies unchanged, and the same set of answered identifiers.
pub proof fn lemma_save_resume_round_trip(s: SessionView, cat: Seq<QuestionView>)
    requires
        session_wf(s),
        forall|k: int| 0 <= k < s.cursor ==> has_id(cat, (#[trigger] s.queue[k]).uuid),
    ensures
        resumed_session(cat, Some(persisted_of(s))).total_count == s.total_count,
        resumed_session(cat, Some(persisted_of(s))).correct_count == s.correct_count,
        resumed_session(cat, Some(persisted_of(s))).times == s.times,
        ids(
            resumed_session(cat, Some(persisted_of(s))).queue.take(
                resumed_session(cat, Some(persisted_of(s))).cursor as int,
            ),
        ).to_set() == ids(s.queue.take(s.cursor as int)).to_set(),
{
    let a = ids(s.queue.take(s.cursor as int));
    let pre = answered_prefix(cat, a);
    lemma_prefix_facts(cat, a);
    let r = resumed_session(cat, Some(persisted_of(s)));
    assert(r.queue.take(r.cursor as int) =~= pre);
    assert forall|id: Seq<char>| ids(pre).contains(id) <==> a.contains(id) by {
        if ids(pre).contains(id) {
            let k = choose|k: int| 0 <= k < ids(pre).len() && ids(pre)[k] == id;
            assert(pre[k].uuid == id);
        }
        if a.contains(id) {
            let k = choose|k: int| 0 <= k < a.len() && a[k] == id;
            assert(s.queue[k].uuid == id);
            assert(has_id(cat, id));
            let m = choose|m: int| 0 <= m < pre.len() && (#[trigger] pre[m]).uuid == id;
            assert(ids(pre)[m] == id);
        }
    }
    assert(ids(pre).to_set() =~= a.to_set());
}

} // verus!
