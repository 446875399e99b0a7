//! Questions and their identity.

use vstd::prelude::*;

verus! {

/// One multiple-choice question. Its identity is `uuid` alone: two values
/// with the same identifier are the same question, whatever their wording.
pub struct Question {
    pub question: String,
    pub answers: Vec<String>,
    pub correct_answers: Vec<char>,
    pub source: String,
    pub part: usize,
    pub uuid: String,
    pub question_number: usize,
}

/// The mathematical content of a question.
pub struct QuestionView {
    pub question: Seq<char>,
    pub answers: Seq<Seq<char>>,
    pub correct_answers: Seq<char>,
    pub source: Seq<char>,
    pub part: usize,
    pub uuid: Seq<char>,
    pub question_number: usize,
}

impl View for Question {
    type V = QuestionView;

    open spec fn view(&self) -> QuestionView {
        QuestionView {
            question: self.question@,
            answers: self.answers@.map_values(|s: String| s@),
            correct_answers: self.correct_answers@,
            source: self.source@,
            part: self.part,
            uuid: self.uuid@,
            question_number: self.question_number,
        }
    }
}

/// The views of a sequence of questions.
pub open spec fn views(qs: Seq<Question>) -> Seq<QuestionView> {
    qs.map_values(|q: Question| q@)
}

/// The identifiers of a sequence of questions, position by position.
pub open spec fn ids(qs: Seq<QuestionView>) -> Seq<Seq<char>> {
    qs.map_values(|q: QuestionView| q.uuid)
}

/// Whether some question of `qs` carries the identifier `id`.
pub open spec fn has_id(qs: Seq<QuestionView>, id: Seq<char>) -> bool {
    exists|i: int| 0 <= i < qs.len() && (#[trigger] qs[i]).uuid == id
}

impl Question {
    /// A field-for-field copy.
    pub fn duplicate(&self) -> (r: Question)
        ensures
            r@ == self@,
    {
        let answers = self.answers.clone();
        assert(answers@.map_values(|s: String| s@) =~= self.answers@.map_values(|s: String| s@));
        let correct_answers = self.correct_answers.clone();
        assert(correct_answers@ =~= self.correct_answers@);
        Question {
            question: self.question.clone(),
            answers,
            correct_answers,
            source: self.source.clone(),
            part: self.part,
            uuid: self.uuid.clone(),
            question_number: self.question_number,
        }
    }
}

impl PartialEq for Question {
    fn eq(&self, other: &Question) -> (r: bool) {
        self.uuid == other.uuid
    }
}

impl vstd::std_specs::cmp::PartialEqSpecImpl for Question {
    open spec fn obeys_eq_spec() -> bool {
        true
    }

    open spec fn eq_spec(&self, other: &Question) -> bool {
        self.uuid@ == other.uuid@
    }
}

} // verus!
