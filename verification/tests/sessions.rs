use flashdeal::card::Card;
use flashdeal::fleeting::{Completeness, QuizQuery, Sessions};

fn sample_card(id: i64, front: &str, back: &str) -> Card {
    Card {
        id,
        pack_id: 1,
        front: front.to_string(),
        back: back.to_string(),
        tags: Vec::new(),
    }
}

#[test]
fn create_builds_incomplete_questions() {
    let mut sessions = Sessions::new();
    let cards = vec![sample_card(1, "q1", "a1"), sample_card(2, "q2", "a2")];
    let id = sessions.create("warmup".to_string(), &cards);
    assert_eq!(id, 0);

    let pos = sessions.get_mut(id).expect("the session is live");
    let quiz = &sessions.sessions[pos];
    assert_eq!(quiz.name, "warmup");
    assert_eq!(quiz.questions.len(), 2);
    assert_eq!(quiz.questions[0].question, "q1");
    assert_eq!(quiz.questions[0].answer, "a1");
    assert!(matches!(quiz.questions[0].status, Completeness::Incomplete));
}

#[test]
fn ids_are_fresh_and_lookup_finds_them() {
    let mut sessions = Sessions::new();
    let a = sessions.create("a".to_string(), &[]);
    let b = sessions.create("b".to_string(), &[]);
    assert_ne!(a, b);
    assert!(sessions.get_mut(a).is_some());
    assert!(sessions.get_mut(b).is_some());
    assert!(sessions.get_mut(99).is_none());
}

#[test]
fn editing_through_the_position_sticks() {
    let mut sessions = Sessions::new();
    let cards = vec![sample_card(1, "q", "a")];
    let id = sessions.create("s".to_string(), &cards);
    let pos = sessions.get_mut(id).unwrap();
    sessions.sessions[pos].questions[0].status = Completeness::Complete;
    let pos2 = sessions.get_mut(id).unwrap();
    assert!(matches!(
        sessions.sessions[pos2].questions[0].status,
        Completeness::Complete
    ));
}

#[test]
fn summarize_lists_every_session_in_order() {
    let mut sessions = Sessions::new();
    let a = sessions.create("first".to_string(), &[]);
    let b = sessions.create("second".to_string(), &[]);
    let summaries = sessions.summarize();
    assert_eq!(summaries.len(), 2);
    assert_eq!(summaries[0].name, "first");
    assert!(matches!(summaries[0].id, QuizQuery::Fleeting(x) if x == a));
    assert_eq!(summaries[1].name, "second");
    assert!(matches!(summaries[1].id, QuizQuery::Fleeting(x) if x == b));
}
