use taskboard::board::{BoardError, Tasks};
use taskboard::bus::{Delivery, SessionState};
use taskboard::hub::TaskBoard;
use taskboard::router::{add_task, change_status, get_board_state, parse_mandays};
use taskboard::task::{Task, DONE, IN_PROGRESS, OPEN};

fn ids(board: &Tasks) -> Vec<u128> {
    (0..board.len()).map(|i| board.get(i).id).collect()
}

fn statuses(board: &Tasks) -> Vec<i32> {
    (0..board.len()).map(|i| board.get(i).status).collect()
}

fn next_snapshot(hub: &mut TaskBoard, sid: u64) -> Tasks {
    match hub.next_delivery(sid) {
        Delivery::Snapshot(t) => t,
        other => panic!("expected a snapshot, got {:?}", other),
    }
}

#[test]
fn demo_board_has_four_tasks() {
    let board = Tasks::new();
    assert_eq!(board.len(), 4);
    assert_eq!(statuses(&board), vec![1, 1, 2, 3]);
    assert_eq!(board.get(0).name, "Task 1");
    assert_eq!(board.get(0).assignee, "\u{1F431}");
    assert_eq!(board.get(1).assignee, "\u{1F436}");
    assert_eq!(board.get(3).assignee, "\u{1F439}");
    assert_eq!(board.get(2).mandays, 1);
    let mut seen = ids(&board);
    seen.sort();
    seen.dedup();
    assert_eq!(seen.len(), 4);
}

#[test]
fn creations_count_and_ids_are_unique() {
    let mut hub = TaskBoard::new(Tasks::empty(), 8);
    let n = 50;
    for k in 0..n {
        let t = hub.create_task(&format!("task {}", k), "a", k);
        assert_eq!(t.status, OPEN);
        assert_eq!(t.mandays, k);
    }
    let board = hub.get_board();
    assert_eq!(board.len(), n as usize);
    let mut seen = ids(&board);
    seen.sort();
    seen.dedup();
    assert_eq!(seen.len(), n as usize);
}

#[test]
fn created_ids_are_version_four_uuids() {
    let mut board = Tasks::empty();
    let t = board.add_task("x", "y", 1);
    assert_eq!((t.id >> 76) & 0xF, 4);
    assert_eq!((t.id >> 62) & 0x3, 0x2);
}

#[test]
fn drawn_id_in_use_falls_back_to_smallest_free() {
    let mut board = Tasks::empty();
    let a = board.add_task_with_id(0, "a", "x", 1);
    let b = board.add_task_with_id(1, "b", "x", 1);
    assert_eq!((a.id, b.id), (0, 1));
    let c = board.add_task_with_id(1, "c", "x", 1);
    assert_eq!(c.id, 2);
    let d = board.add_task_with_id(77, "d", "x", 1);
    assert_eq!(d.id, 77);
    assert_eq!(board.fresh_id(0), 3);
    assert_eq!(board.fresh_id(5), 5);
}

#[test]
fn moves_clamp_at_first_and_last_lane() {
    let mut board = Tasks::new();
    let first = board.get(0).id;
    let last = board.get(3).id;
    assert_eq!(board.change_status(first, -1), Ok(first));
    assert_eq!(board.get(0).status, OPEN);
    assert_eq!(board.change_status(last, 1), Ok(last));
    assert_eq!(board.get(3).status, DONE);
    assert_eq!(board.change_status(first, 1), Ok(first));
    assert_eq!(board.get(0).status, IN_PROGRESS);
    assert_eq!(board.change_status(first, 7), Ok(first));
    assert_eq!(board.get(0).status, IN_PROGRESS);
    assert_eq!(board.change_status(last, i32::MAX), Ok(last));
    assert_eq!(board.change_status(last, i32::MIN), Ok(last));
    assert_eq!(board.get(3).status, DONE);
}

#[test]
fn move_of_unknown_id_is_not_found_and_changes_nothing() {
    let mut hub = TaskBoard::new(Tasks::new(), 4);
    let before = hub.get_board();
    let unknown = (0..u128::MAX).find(|k| !ids(&before).contains(k)).unwrap();
    assert_eq!(change_status(&mut hub, unknown, 1), Err(BoardError::NotFound));
    assert_eq!(change_status(&mut hub, unknown, -1), Err(BoardError::NotFound));
    assert_eq!(hub.get_board(), before);
}

#[test]
fn created_task_reads_back() {
    let mut hub = TaskBoard::new(Tasks::empty(), 4);
    let t = add_task(&mut hub, "T", "\u{1F431}", "3").unwrap();
    let board = get_board_state(&hub);
    let matching: Vec<&Task> = (0..board.len())
        .map(|i| board.get(i))
        .filter(|t| t.name == "T" && t.assignee == "\u{1F431}" && t.mandays == 3 && t.status == 1)
        .collect();
    assert_eq!(matching.len(), 1);
    assert_eq!(matching[0], &t);
}

#[test]
fn two_reads_agree() {
    let mut hub = TaskBoard::new(Tasks::new(), 4);
    hub.create_task("x", "y", 2);
    assert_eq!(get_board_state(&hub), get_board_state(&hub));
}

#[test]
fn seeded_board_scenario() {
    let mut hub = TaskBoard::new(Tasks::new(), 4);
    let board = hub.get_board();
    assert_eq!(statuses(&board), vec![1, 1, 2, 3]);
    let first = board.get(0).id;
    let in_last_lane = board.get(3).id;
    assert_eq!(hub.move_task(first, 1), Ok(first));
    assert_eq!(hub.get_board().get(0).status, 2);
    assert_eq!(hub.move_task(in_last_lane, 1), Ok(in_last_lane));
    let board = hub.get_board();
    assert_eq!(board.get(3).status, 3);
    assert_eq!(board.filtered(OPEN).len(), 1);
    assert_eq!(board.filtered(IN_PROGRESS).len(), 2);
    assert_eq!(board.filtered(DONE).len(), 1);
}

#[test]
fn lanes_keep_board_order() {
    let board = Tasks::new();
    let open = board.filtered(OPEN);
    assert_eq!(open.len(), 2);
    assert_eq!(open[0].name, "Task 1");
    assert_eq!(open[1].name, "Task 2");
    assert_eq!(board.filtered(IN_PROGRESS)[0].name, "Task 3");
    assert!(board.filtered(0).is_empty());
}

#[test]
fn late_subscriber_gets_current_board_then_each_commit() {
    let mut hub = TaskBoard::new(Tasks::new(), 8);
    let id = hub.get_board().get(0).id;
    hub.create_task("a", "x", 1);
    hub.move_task(id, 1).unwrap();
    let sid = hub.subscribe().unwrap();
    assert_eq!(hub.session_state(sid), SessionState::Connecting);
    assert_eq!(next_snapshot(&mut hub, sid), hub.get_board());
    assert_eq!(hub.session_state(sid), SessionState::Streaming);
    assert!(matches!(hub.next_delivery(sid), Delivery::Pending));

    hub.create_task("b", "x", 2);
    let after_first = hub.get_board();
    hub.move_task(id, 1).unwrap();
    let after_second = hub.get_board();
    assert!(hub.move_task(u128::MAX, 1).is_err());
    assert_eq!(next_snapshot(&mut hub, sid), after_first);
    assert_eq!(next_snapshot(&mut hub, sid), after_second);
    assert!(matches!(hub.next_delivery(sid), Delivery::Pending));

    assert!(hub.unsubscribe(sid));
    assert_eq!(hub.session_state(sid), SessionState::Closed);
    hub.create_task("c", "x", 3);
    assert!(matches!(hub.next_delivery(sid), Delivery::Closed));
    assert!(!hub.unsubscribe(sid));
}

#[test]
fn sessions_are_independent() {
    let mut hub = TaskBoard::new(Tasks::empty(), 8);
    let a = hub.subscribe().unwrap();
    hub.create_task("one", "x", 1);
    let b = hub.subscribe().unwrap();
    assert_ne!(a, b);
    assert_eq!(next_snapshot(&mut hub, a).len(), 0);
    assert_eq!(next_snapshot(&mut hub, a).len(), 1);
    assert_eq!(next_snapshot(&mut hub, b).len(), 1);
    assert!(matches!(hub.next_delivery(b), Delivery::Pending));
}

#[test]
fn slow_subscriber_is_closed_not_waited_for() {
    let mut hub = TaskBoard::new(Tasks::empty(), 2);
    let slow = hub.subscribe().unwrap();
    let fast = hub.subscribe().unwrap();
    next_snapshot(&mut hub, fast);
    hub.create_task("a", "x", 1);
    assert_eq!(hub.session_state(slow), SessionState::Connecting);
    next_snapshot(&mut hub, fast);
    hub.create_task("b", "x", 1);
    assert_eq!(hub.session_state(slow), SessionState::Closed);
    assert!(matches!(hub.next_delivery(slow), Delivery::Closed));
    assert_eq!(next_snapshot(&mut hub, fast).len(), 2);
    assert_eq!(hub.session_state(fast), SessionState::Streaming);
}

#[test]
fn mandays_entries_are_validated() {
    assert_eq!(parse_mandays("3"), Ok(3));
    assert_eq!(parse_mandays("+7"), Ok(7));
    assert_eq!(parse_mandays("007"), Ok(7));
    assert_eq!(parse_mandays("4294967295"), Ok(u32::MAX));
    assert_eq!(parse_mandays("4294967296"), Err(BoardError::Validation));
    assert_eq!(parse_mandays("99999999999999999999x"), Err(BoardError::Validation));
    assert_eq!(parse_mandays(""), Err(BoardError::Validation));
    assert_eq!(parse_mandays("+"), Err(BoardError::Validation));
    assert_eq!(parse_mandays("-1"), Err(BoardError::Validation));
    assert_eq!(parse_mandays("1a"), Err(BoardError::Validation));
    assert_eq!(parse_mandays(" 1"), Err(BoardError::Validation));
    assert_eq!(parse_mandays("\u{0663}"), Err(BoardError::Validation));
}

#[test]
fn invalid_mandays_leave_board_untouched() {
    let mut hub = TaskBoard::new(Tasks::new(), 4);
    let sid = hub.subscribe().unwrap();
    next_snapshot(&mut hub, sid);
    let before = hub.get_board();
    assert_eq!(add_task(&mut hub, "x", "y", "many"), Err(BoardError::Validation));
    assert_eq!(hub.get_board(), before);
    assert!(matches!(hub.next_delivery(sid), Delivery::Pending));
    let t = add_task(&mut hub, "x", "y", "12").unwrap();
    assert_eq!(t.mandays, 12);
    assert_eq!(hub.get_board().len(), 5);
}

#[test]
fn snapshot_and_clone_keep_every_field() {
    let board = Tasks::new();
    assert_eq!(board.snapshot(), board);
    assert_eq!(board.clone(), board);
    let t = board.get(2).clone();
    assert_eq!(&t, board.get(2));
}
