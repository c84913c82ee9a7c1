//! Fleeting quiz sessions: in-memory practice runs built from a batch of
//! cards, keyed by a process-local counter and discarded with the process.

use vstd::prelude::*;

verus! {

use crate::card::Card;

/// How far a question has been taken.
pub enum Completeness {
    Incomplete,
    Complete,
}

/// One question of a quiz, drawn from a card's faces.
pub struct Question {
    pub question: String,
    pub answer: String,
    pub status: Completeness,
}

/// A practice run over a batch of questions.
pub struct Quiz {
    pub id: u32,
    pub name: String,
    pub questions: Vec<Question>,
}

/// How a quiz is addressed.
pub enum QuizQuery {
    Fleeting(u32),
}

/// Listing row for a quiz.
pub struct QuizSummary {
    pub id: QuizQuery,
    pub name: String,
}

/// The live quiz sessions, in creation order under ascending ids.
pub struct Sessions {
    pub uid: u32,
    pub sessions: Vec<Quiz>,
}

impl Sessions {
    /// Ids ascend along the table — creation order — and stay below the
    /// counter.
    pub open spec fn wf(self) -> bool {
        &&& forall|i: int, j: int|
            0 <= i < j < self.sessions@.len() ==> self.sessions@[i].id < self.sessions@[j].id
        &&& forall|i: int| 0 <= i < self.sessions@.len() ==> self.sessions@[i].id < self.uid
    }

    /// No live sessions yet.
    pub fn new() -> (r: Sessions)
        ensures
            r.wf(),
            r.sessions@.len() == 0,
            r.uid == 0,
    {
        Sessions { uid: 0, sessions: Vec::new() }
    }

    /// Opens a session over the cards' faces, every question still
    /// incomplete, and returns its fresh id.
    pub fn create(&mut self, name: String, cards: &[Card]) -> (r: u32)
        requires
            old(self).wf(),
            old(self).uid < u32::MAX,
        ensures
            final(self).wf(),
            r == old(self).uid,
            final(self).uid == old(self).uid + 1,
            final(self).sessions@.len() == old(self).sessions@.len() + 1,
            forall|i: int|
                0 <= i < old(self).sessions@.len() ==> final(self).sessions@[i] == old(
                    self,
                ).sessions@[i],
            final(self).sessions@.last().id == r,
            final(self).sessions@.last().name == name,
            final(self).sessions@.last().questions@.len() == cards@.len(),
            forall|i: int|
                0 <= i < cards@.len()
                    ==> (#[trigger] final(self).sessions@.last().questions@[i]).question@
                    == cards@[i].front@ && final(self).sessions@.last().questions@[i].answer@
                    == cards@[i].back@ && final(self).sessions@.last().questions@[i].status
                    == Completeness::Incomplete,
    {
        let quiz_id = self.uid;

        let mut questions: Vec<Question> = Vec::new();
        let mut i: usize = 0;
        while i < cards.len()
            invariant
                0 <= i <= cards@.len(),
                questions@.len() == i,
                forall|j: int|
                    0 <= j < i ==> (#[trigger] questions@[j]).question@ == cards@[j].front@
                        && questions@[j].answer@ == cards@[j].back@ && questions@[j].status
                        == Completeness::Incomplete,
            decreases cards@.len() - i,
        {
            questions.push(
                Question {
                    question: cards[i].front.clone(),
                    answer: cards[i].back.clone(),
                    status: Completeness::Incomplete,
                },
            );
            i += 1;
        }

        let quiz = Quiz { id: quiz_id, name, questions };
        self.sessions.push(quiz);
        self.uid = quiz_id + 1;
        quiz_id
    }

    /// The position of the live quiz with the given id, for reading or
    /// editing it in place through `sessions`.
    pub fn get_mut(&mut self, id: u32) -> (r: Option<usize>)
        requires
            old(self).wf(),
        ensures
            *final(self) == *old(self),
            final(self).wf(),
            match r {
                Some(i) => i < final(self).sessions@.len() && final(self).sessions@[i as int].id
                    == id,
                None => forall|i: int|
                    0 <= i < final(self).sessions@.len()
                        ==> (#[trigger] final(self).sessions@[i]).id != id,
            },
    {
        let mut i: usize = 0;
        let n = self.sessions.len();
        while i < n
            invariant
                *self == *old(self),
                old(self).wf(),
                0 <= i <= n,
                n == self.sessions@.len(),
                forall|j: int| 0 <= j < i ==> (#[trigger] self.sessions@[j]).id != id,
            decreases n - i,
        {
            if self.sessions[i].id == id {
                return Some(i);
            }
            i += 1;
        }
        None
    }

    /// Summarises every live session, in creation order.
    pub fn summarize(&self) -> (r: Vec<QuizSummary>)
        ensures
            r@.len() == self.sessions@.len(),
            forall|i: int|
                0 <= i < r@.len() ==> (#[trigger] r@[i]).id == QuizQuery::Fleeting(
                    self.sessions@[i].id,
                ) && r@[i].name == self.sessions@[i].name,
    {
        let mut r: Vec<QuizSummary> = Vec::new();
        let mut i: usize = 0;
        while i < self.sessions.len()
            invariant
                0 <= i <= self.sessions@.len(),
                r@.len() == i,
                forall|j: int|
                    0 <= j < i ==> (#[trigger] r@[j]).id == QuizQuery::Fleeting(
                        self.sessions@[j].id,
                    ) && r@[j].name == self.sessions@[j].name,
            decreases self.sessions@.len() - i,
        {
            r.push(
                QuizSummary {
                    id: QuizQuery::Fleeting(self.sessions[i].id),
                    name: self.sessions[i].name.clone(),
                },
            );
            i += 1;
        }
        r
    }
}

} // verus!
