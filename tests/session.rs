use cloud_quiz::catalog::load_questions;
use cloud_quiz::progress::PersistedProgress;
use cloud_quiz::question::Question;
use cloud_quiz::session::{answer_matches, SessionError, SessionState};

fn question(id: &str, correct: &[char]) -> Question {
    Question {
        question: format!("Question {}?", id),
        answers: vec!["A. one".to_string(), "B. two".to_string(), "C. three".to_string(), "D. four".to_string()],
        correct_answers: correct.to_vec(),
        source: "set".to_string(),
        part: 1,
        uuid: id.to_string(),
        question_number: 7,
    }
}

fn catalog(ids: &[&str]) -> Vec<Question> {
    ids.iter().map(|id| question(id, &['A'])).collect()
}

fn record(answered: &[&str], wrong: &[&str], correct: Option<u64>, total: Option<u64>, times: &[u64]) -> PersistedProgress {
    PersistedProgress {
        already_answered_uuids: answered.iter().map(|s| s.to_string()).collect(),
        wrong_answered_uuids: wrong.iter().map(|s| s.to_string()).collect(),
        correct_count: correct,
        total_count: total,
        times: times.to_vec(),
    }
}

fn answer_all(s: &mut SessionState) -> Vec<String> {
    let mut seen = Vec::new();
    while s.has_next() {
        let q = s.next_question().unwrap();
        seen.push(q.uuid.clone());
        s.record_answer(&vec!['A'], 1000).unwrap();
    }
    seen
}

#[test]
fn three_questions_two_answers() {
    let mut s = SessionState::new(catalog(&["q1", "q2", "q3"]), None);
    let q = s.next_question().unwrap();
    assert_eq!(q.uuid, "q1");
    let o = s.record_answer(&vec!['A'], 2000).unwrap();
    assert!(o.correct);
    let q = s.next_question().unwrap();
    assert_eq!(q.uuid, "q2");
    let o = s.record_answer(&vec!['B'], 3000).unwrap();
    assert!(!o.correct);
    assert_eq!(o.correct_answers, vec!['A']);
    let snap = s.snapshot();
    assert_eq!(snap.total_answered, 2);
    assert_eq!(snap.correct_count, 1);
    assert_eq!(snap.total_in_pool, 3);
    assert_eq!(snap.completed, 2);
    assert_eq!(snap.time_samples, vec![2000, 3000]);
    assert_eq!(s.next_question().unwrap().uuid, "q3");
    let saved = s.to_persisted();
    assert_eq!(saved.wrong_answered_uuids, vec!["q2".to_string()]);
}

#[test]
fn retired_question_keeps_counters() {
    let p = record(&["q1"], &[], Some(1), Some(1), &[1500]);
    let mut s = SessionState::new(catalog(&["q2", "q3"]), Some(p));
    let snap = s.snapshot();
    assert_eq!(snap.total_in_pool, 2);
    assert_eq!(snap.completed, 0);
    assert_eq!(snap.total_answered, 1);
    assert_eq!(snap.correct_count, 1);
    assert_eq!(snap.time_samples, vec![1500]);
    assert_eq!(answer_all(&mut s), vec!["q2".to_string(), "q3".to_string()]);
}

#[test]
fn queue_holds_each_catalog_id_once() {
    let p = record(&["q3", "q1", "q3", "gone"], &[], None, None, &[]);
    let mut s = SessionState::new(catalog(&["q1", "q2", "q3", "q2", "q4"]), Some(p));
    assert_eq!(s.snapshot().total_in_pool, 4);
    assert_eq!(s.snapshot().completed, 2);
    assert_eq!(s.to_persisted().already_answered_uuids, vec!["q3".to_string(), "q1".to_string()]);
    assert_eq!(answer_all(&mut s), vec!["q2".to_string(), "q4".to_string()]);
}

#[test]
fn unknown_answered_id_changes_nothing() {
    let with = record(&["q2", "zz", "q1"], &["zz"], None, None, &[10, 20]);
    let without = record(&["q2", "q1"], &[], None, None, &[10, 20]);
    let mut a = SessionState::new(catalog(&["q1", "q2", "q3"]), Some(with));
    let mut b = SessionState::new(catalog(&["q1", "q2", "q3"]), Some(without));
    assert_eq!(a.snapshot().completed, 2);
    assert_eq!(a.snapshot().completed, b.snapshot().completed);
    assert_eq!(a.snapshot().total_answered, b.snapshot().total_answered);
    assert_eq!(a.snapshot().correct_count, b.snapshot().correct_count);
    assert_eq!(a.to_persisted().already_answered_uuids, b.to_persisted().already_answered_uuids);
    assert_eq!(answer_all(&mut a), answer_all(&mut b));
}

#[test]
fn answers_advance_counters() {
    let mut s = SessionState::new(catalog(&["a", "b", "c", "d"]), None);
    for n in 1..=4u64 {
        s.next_question().unwrap();
        let pick = if n % 2 == 0 { vec!['A'] } else { vec!['C'] };
        s.record_answer(&pick, n * 100).unwrap();
        let snap = s.snapshot();
        assert_eq!(snap.total_answered, n);
        assert!(snap.correct_count <= n);
        assert_eq!(snap.time_samples.len() as u64, n);
        assert_eq!(snap.completed as u64, n);
    }
    assert_eq!(s.snapshot().correct_count, 2);
    assert!(!s.has_next());
}

#[test]
fn save_then_resume_round_trip() {
    let mut s = SessionState::new(catalog(&["q1", "q2", "q3", "q4"]), None);
    s.next_question().unwrap();
    s.record_answer(&vec!['A'], 1234).unwrap();
    s.next_question().unwrap();
    s.record_answer(&vec!['B'], 99).unwrap();
    let saved = s.to_persisted();
    let mut r = SessionState::new(catalog(&["q4", "q2", "q3", "q1"]), Some(saved));
    let a = s.snapshot();
    let b = r.snapshot();
    assert_eq!(b.total_answered, a.total_answered);
    assert_eq!(b.correct_count, a.correct_count);
    assert_eq!(b.time_samples, a.time_samples);
    assert_eq!(b.completed, 2);
    let mut left = answer_all(&mut r);
    left.sort();
    assert_eq!(left, vec!["q3".to_string(), "q4".to_string()]);
}

#[test]
fn legacy_record_derives_counters() {
    let p = record(&["q1", "q2", "q3"], &["q2", "gone"], None, None, &[1, 2, 3]);
    let s = SessionState::new(catalog(&["q1", "q2", "q3", "q4"]), Some(p));
    let snap = s.snapshot();
    assert_eq!(snap.total_answered, 3);
    assert_eq!(snap.correct_count, 2);
    assert_eq!(s.to_persisted().wrong_answered_uuids, vec!["q2".to_string()]);
}

#[test]
fn inconsistent_record_is_ignored() {
    let p = record(&["q1"], &[], Some(5), Some(2), &[7]);
    let s = SessionState::new(catalog(&["q1", "q2"]), Some(p));
    let snap = s.snapshot();
    assert_eq!(snap.completed, 0);
    assert_eq!(snap.total_answered, 0);
    assert_eq!(snap.correct_count, 0);
    assert!(snap.time_samples.is_empty());
}

#[test]
fn exhausted_session_refuses() {
    let mut s = SessionState::new(Vec::new(), None);
    assert!(!s.has_next());
    assert!(matches!(s.next_question(), Err(SessionError::Exhausted)));
    assert!(matches!(s.record_answer(&vec!['A'], 1), Err(SessionError::Exhausted)));
}

#[test]
fn answer_without_question_refused() {
    let mut s = SessionState::new(catalog(&["q1", "q2"]), None);
    assert!(matches!(s.record_answer(&vec!['A'], 1), Err(SessionError::NotPresented)));
    s.next_question().unwrap();
    s.record_answer(&vec!['A'], 1).unwrap();
    assert!(matches!(s.record_answer(&vec!['A'], 1), Err(SessionError::NotPresented)));
    assert_eq!(s.snapshot().total_answered, 1);
}

#[test]
fn next_question_is_idempotent() {
    let mut s = SessionState::new(catalog(&["q1", "q2"]), None);
    assert_eq!(s.next_question().unwrap().uuid, "q1");
    assert_eq!(s.next_question().unwrap().uuid, "q1");
    assert_eq!(s.snapshot().completed, 0);
}

#[test]
fn reset_starts_over() {
    let p = record(&["q1"], &[], Some(1), Some(1), &[5]);
    let mut s = SessionState::new(catalog(&["q1", "q2"]), Some(p));
    s.reset(catalog(&["q2", "q3", "q1"]));
    let snap = s.snapshot();
    assert_eq!(snap.completed, 0);
    assert_eq!(snap.total_answered, 0);
    assert_eq!(snap.total_in_pool, 3);
    assert_eq!(answer_all(&mut s), vec!["q2".to_string(), "q3".to_string(), "q1".to_string()]);
}

#[test]
fn selection_must_equal_correct_set() {
    assert!(answer_matches(&vec!['A', 'B'], &vec!['A', 'B']));
    assert!(answer_matches(&vec!['B', 'A'], &vec!['A', 'B']));
    assert!(!answer_matches(&vec!['A'], &vec!['A', 'B']));
    assert!(!answer_matches(&vec!['A', 'B', 'C'], &vec!['A', 'B']));
}

#[test]
fn wrong_answer_identifier_kept() {
    let mut s = SessionState::new(vec![question("m", &['A', 'C'])], None);
    s.next_question().unwrap();
    let o = s.record_answer(&vec!['A'], 10).unwrap();
    assert!(!o.correct);
    assert_eq!(o.correct_answers, vec!['A', 'C']);
    assert_eq!(s.to_persisted().wrong_answered_uuids, vec!["m".to_string()]);
    assert_eq!(s.snapshot().correct_count, 0);
}

#[test]
fn shuffled_catalog_keeps_questions() {
    let ids: Vec<String> = (0..60).map(|i| format!("id{:02}", i)).collect();
    let fetched: Vec<Question> = ids.iter().map(|i| question(i, &['A'])).collect();
    let shuffled = load_questions(fetched);
    let got: Vec<String> = shuffled.iter().map(|q| q.uuid.clone()).collect();
    assert_ne!(got, ids);
    let mut sorted = got.clone();
    sorted.sort();
    assert_eq!(sorted, ids);
}
