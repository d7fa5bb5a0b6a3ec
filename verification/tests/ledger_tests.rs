use akshar::ledger::ToggleError;
use akshar::ledger::toggle_recommendation;
use akshar::problems::Problem;
use akshar::problems::ProblemContent;
use akshar::problems::Topic;
use akshar::user::User;

fn sample_problem(id: i32, recommendations: i32) -> Problem {
    Problem {
        id,
        owner_id: 1,
        recommendations,
        topic: Topic::Math,
        tags: vec!["algebra".to_string()],
        prompt: "What is 2 + 2?".to_string(),
        content: ProblemContent::MultipleChoice {
            options: vec!["3".to_string(), "4".to_string()],
            solution: 1,
        },
    }
}

fn sample_user(id: i32, recommended_ids: Vec<i32>) -> User {
    User {
        id,
        name: "ada".to_string(),
        pass: "letmein".to_string(),
        recommended_ids,
    }
}

#[test]
fn recommend_adds_and_counts() {
    let mut user = sample_user(1, vec![7]);
    let mut problem = sample_problem(9, 4);
    assert_eq!(toggle_recommendation(&mut user, &mut problem, true), Ok(5));
    assert_eq!(problem.recommendations, 5);
    assert_eq!(user.recommended_ids, vec![7, 9]);
}

#[test]
fn recommend_twice_is_rejected() {
    let mut user = sample_user(1, vec![]);
    let mut problem = sample_problem(9, 4);
    assert_eq!(toggle_recommendation(&mut user, &mut problem, true), Ok(5));
    assert_eq!(
        toggle_recommendation(&mut user, &mut problem, true),
        Err(ToggleError::AlreadyRecommended)
    );
    assert_eq!(problem.recommendations, 5);
    assert_eq!(user.recommended_ids, vec![9]);
}

#[test]
fn recommend_then_undo_round_trips() {
    let mut user = sample_user(1, vec![3, 11]);
    let mut problem = sample_problem(9, 4);
    assert_eq!(toggle_recommendation(&mut user, &mut problem, true), Ok(5));
    assert_eq!(toggle_recommendation(&mut user, &mut problem, false), Ok(4));
    assert_eq!(problem.recommendations, 4);
    assert_eq!(user.recommended_ids, vec![3, 11]);
}

#[test]
fn undo_without_recommendation_is_rejected() {
    let mut user = sample_user(1, vec![3]);
    let mut problem = sample_problem(9, 4);
    assert_eq!(
        toggle_recommendation(&mut user, &mut problem, false),
        Err(ToggleError::NotRecommended)
    );
    assert_eq!(problem.recommendations, 4);
    assert_eq!(user.recommended_ids, vec![3]);
}

#[test]
fn undo_removes_only_the_toggled_id() {
    let mut user = sample_user(1, vec![3, 9, 11]);
    let mut problem = sample_problem(9, 4);
    assert_eq!(toggle_recommendation(&mut user, &mut problem, false), Ok(3));
    assert_eq!(user.recommended_ids, vec![3, 11]);
}

#[test]
fn underflow_is_a_fault() {
    // inconsistent store: the user holds the id but the counter is zero
    let mut user = sample_user(1, vec![9]);
    let mut problem = sample_problem(9, 0);
    assert_eq!(
        toggle_recommendation(&mut user, &mut problem, false),
        Err(ToggleError::CounterUnderflow)
    );
    assert_eq!(problem.recommendations, 0);
    assert_eq!(user.recommended_ids, vec![9]);
}

#[test]
fn overflow_is_a_fault() {
    let mut user = sample_user(1, vec![]);
    let mut problem = sample_problem(9, i32::MAX);
    assert_eq!(
        toggle_recommendation(&mut user, &mut problem, true),
        Err(ToggleError::CounterOverflow)
    );
    assert_eq!(problem.recommendations, i32::MAX);
    assert!(user.recommended_ids.is_empty());
}

#[test]
fn counter_tracks_recommender_count_across_a_run() {
    let mut users = vec![
        sample_user(1, vec![]),
        sample_user(2, vec![7]),
        sample_user(3, vec![]),
    ];
    let mut problem = sample_problem(9, 0);
    let ops: Vec<(usize, bool)> = vec![
        (0, true),
        (1, true),
        (2, true),
        (1, false),
        (1, true),
        (0, false),
    ];
    for (who, want) in ops {
        let r = toggle_recommendation(&mut users[who], &mut problem, want);
        assert!(r.is_ok());
        let recommenders = users
            .iter()
            .filter(|u| u.recommended_ids.contains(&problem.id))
            .count();
        assert_eq!(problem.recommendations as usize, recommenders);
    }
    assert_eq!(problem.recommendations, 2);
}

#[test]
fn has_recommended_reports_membership() {
    let user = sample_user(1, vec![3, 9]);
    assert!(user.has_recommended(3));
    assert!(user.has_recommended(9));
    assert!(!user.has_recommended(4));
}
