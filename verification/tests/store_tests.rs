use psup::extract::{Problem, Sample};
use psup::store::Database;

fn problem(id: &str, title: &str) -> Problem {
    Problem {
        id: id.to_string(),
        title: title.to_string(),
        description: "desc".to_string(),
        input_description: "in".to_string(),
        output_description: "out".to_string(),
        samples: vec![Sample { input: "1 2".to_string(), output: "3".to_string() }],
        time_limit: "1 second".to_string(),
        memory_limit: "256 MB".to_string(),
    }
}

#[test]
fn save_problem_roundtrip() {
    let mut store = Database::new();
    let id = store.save_problem(&problem("1000", "A+B"), 100);
    assert!(id >= 1);
    let rec = store.get_problem("1000").unwrap();
    assert_eq!(rec.problem_id, "1000");
    assert_eq!(rec.title, "A+B");
    assert_eq!(rec.description, "desc");
    assert_eq!(rec.samples_json, "[{\"input\":\"1 2\",\"output\":\"3\"}]");
    assert_eq!(rec.created_at, 100);
}

#[test]
fn save_problem_twice_leaves_one_row() {
    let mut store = Database::new();
    store.save_problem(&problem("1000", "Old title"), 100);
    store.save_problem(&problem("1000", "New title"), 200);
    let all = store.get_all_problems();
    assert_eq!(all.len(), 1);
    assert_eq!(all[0].problem_id, "1000");
    assert_eq!(all[0].title, "New title");
    assert_eq!(all[0].created_at, 200);
}

#[test]
fn get_all_problems_newest_first() {
    let mut store = Database::new();
    store.save_problem(&problem("1", "first"), 100);
    store.save_problem(&problem("2", "second"), 300);
    store.save_problem(&problem("3", "third"), 200);
    let all = store.get_all_problems();
    assert_eq!(all.len(), 3);
    assert_eq!(all[0].problem_id, "2");
    assert_eq!(all[1].problem_id, "3");
    assert_eq!(all[2].problem_id, "1");
}

#[test]
fn get_absent_problem_is_none() {
    let store = Database::new();
    assert!(store.get_problem("404").is_none());
}

#[test]
fn save_chat_inserts_then_updates_in_place() {
    let mut store = Database::new();
    let id1 = store.save_chat("1000", "[\"hi\"]", 50);
    let chat = store.get_chat_by_problem("1000").unwrap();
    assert_eq!(chat.id, id1);
    assert_eq!(chat.messages_json, "[\"hi\"]");
    assert_eq!(chat.created_at, 50);
    assert_eq!(chat.updated_at, 50);

    let id2 = store.save_chat("1000", "[\"hi\",\"there\"]", 80);
    assert_eq!(id2, id1);
    let chat = store.get_chat_by_problem("1000").unwrap();
    assert_eq!(chat.messages_json, "[\"hi\",\"there\"]");
    assert_eq!(chat.created_at, 50);
    assert_eq!(chat.updated_at, 80);
}

#[test]
fn get_absent_chat_is_none() {
    let store = Database::new();
    assert!(store.get_chat_by_problem("1000").is_none());
}

#[test]
fn delete_problem_removes_cache_and_chat() {
    let mut store = Database::new();
    store.save_problem(&problem("1000", "A+B"), 100);
    store.save_chat("1000", "[]", 100);
    store.save_problem(&problem("2000", "Other"), 100);
    store.delete_problem("1000");
    assert!(store.get_problem("1000").is_none());
    assert!(store.get_chat_by_problem("1000").is_none());
    assert!(store.get_problem("2000").is_some());
}

#[test]
fn record_solve_twice_same_day_is_noop() {
    let mut store = Database::new();
    let first = store.record_solve("1000", 20000);
    assert!(first >= 1);
    let second = store.record_solve("1000", 20000);
    assert_eq!(second, 0);
    let activity = store.get_activity_data(7, 20000);
    assert_eq!(activity.len(), 1);
    assert_eq!(activity[0].count, 1);
}

#[test]
fn record_solve_next_day_inserts_again() {
    let mut store = Database::new();
    assert!(store.record_solve("1000", 20000) >= 1);
    assert!(store.record_solve("1000", 20001) >= 1);
    let activity = store.get_activity_data(7, 20001);
    assert_eq!(activity.len(), 2);
}

#[test]
fn unrecord_after_record_clears_today() {
    let mut store = Database::new();
    store.record_solve("1000", 20000);
    assert!(store.is_solved_today("1000", 20000));
    assert!(store.unrecord_solve("1000", 20000));
    assert!(!store.is_solved_today("1000", 20000));
}

#[test]
fn unrecord_without_record_is_false() {
    let mut store = Database::new();
    assert!(!store.unrecord_solve("1000", 20000));
}

#[test]
fn is_solved_today_is_day_specific() {
    let mut store = Database::new();
    store.record_solve("1000", 20000);
    assert!(store.is_solved_today("1000", 20000));
    assert!(!store.is_solved_today("1000", 20001));
    assert!(!store.is_solved_today("2000", 20000));
}

#[test]
fn activity_excludes_days_outside_window() {
    let mut store = Database::new();
    store.record_solve("old", 19990);
    store.record_solve("recent", 19999);
    store.record_solve("today", 20000);
    let activity = store.get_activity_data(3, 20000);
    assert_eq!(activity.len(), 2);
    assert_eq!(activity[0].date, 19999);
    assert_eq!(activity[1].date, 20000);
}

#[test]
fn activity_levels_follow_thresholds() {
    let mut store = Database::new();
    for i in 0..3 {
        store.record_solve(&format!("a{}", i), 20000);
    }
    for i in 0..11 {
        store.record_solve(&format!("b{}", i), 20001);
    }
    store.record_solve("c", 20002);
    let activity = store.get_activity_data(7, 20002);
    assert_eq!(activity.len(), 3);
    assert_eq!(activity[0].date, 20000);
    assert_eq!(activity[0].count, 3);
    assert_eq!(activity[0].level, 2);
    assert_eq!(activity[1].date, 20001);
    assert_eq!(activity[1].count, 11);
    assert_eq!(activity[1].level, 4);
    assert_eq!(activity[2].date, 20002);
    assert_eq!(activity[2].count, 1);
    assert_eq!(activity[2].level, 1);
}

#[test]
fn activity_is_sorted_ascending_even_when_recorded_out_of_order() {
    let mut store = Database::new();
    store.record_solve("x", 20002);
    store.record_solve("y", 20000);
    store.record_solve("z", 20001);
    let activity = store.get_activity_data(7, 20002);
    let dates: Vec<i64> = activity.iter().map(|a| a.date).collect();
    assert_eq!(dates, vec![20000, 20001, 20002]);
}
