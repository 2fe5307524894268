use matchmaker::engine::Bot;
use matchmaker::engine::JoinOutcome;
use matchmaker::engine::LeaveOutcome;
use matchmaker::queues::CombinedQueues;
use matchmaker::queues::FormedGroup;
use matchmaker::queues::Mode;
use matchmaker::queues::Role;

const SESSION: u64 = 1000;

#[test]
fn symmetric_formation_on_third_join() {
    let mut bot = Bot::new();
    assert_eq!(bot.join(SESSION, Role::A, 1), JoinOutcome::Joined);
    assert_eq!(bot.join(SESSION, Role::A, 2), JoinOutcome::Joined);
    assert_eq!(
        bot.join(SESSION, Role::A, 3),
        JoinOutcome::GroupFormed(FormedGroup {
            first: 1,
            second: 2,
            third: 3,
            mode: Mode::Symmetric,
        })
    );
}

#[test]
fn symmetric_two_participants_never_form() {
    let mut bot = Bot::new();
    assert_eq!(bot.join(SESSION, Role::A, 1), JoinOutcome::Joined);
    assert_eq!(bot.join(SESSION, Role::A, 2), JoinOutcome::Joined);
    // Neither is drafted: both are still queued.
    assert_eq!(bot.join(SESSION, Role::A, 1), JoinOutcome::AlreadyQueued);
    assert_eq!(bot.join(SESSION, Role::A, 2), JoinOutcome::AlreadyQueued);
}

#[test]
fn asymmetric_formation_on_c_join() {
    let mut bot = Bot::new();
    assert_eq!(bot.join(SESSION, Role::B, 11), JoinOutcome::Joined);
    assert_eq!(bot.join(SESSION, Role::B, 12), JoinOutcome::Joined);
    assert_eq!(
        bot.join(SESSION, Role::C, 13),
        JoinOutcome::GroupFormed(FormedGroup {
            first: 11,
            second: 12,
            third: 13,
            mode: Mode::Asymmetric,
        })
    );
}

#[test]
fn asymmetric_formation_on_b_join() {
    // The draft also fires when the B queue is completed second.
    let mut bot = Bot::new();
    assert_eq!(bot.join(SESSION, Role::C, 13), JoinOutcome::Joined);
    assert_eq!(bot.join(SESSION, Role::B, 11), JoinOutcome::Joined);
    assert_eq!(
        bot.join(SESSION, Role::B, 12),
        JoinOutcome::GroupFormed(FormedGroup {
            first: 11,
            second: 12,
            third: 13,
            mode: Mode::Asymmetric,
        })
    );
}

#[test]
fn asymmetric_one_b_one_c_no_formation() {
    let mut bot = Bot::new();
    assert_eq!(bot.join(SESSION, Role::B, 11), JoinOutcome::Joined);
    assert_eq!(bot.join(SESSION, Role::C, 13), JoinOutcome::Joined);
    assert_eq!(bot.join(SESSION, Role::B, 11), JoinOutcome::AlreadyQueued);
    assert_eq!(bot.join(SESSION, Role::C, 13), JoinOutcome::AlreadyQueued);
}

#[test]
fn asymmetric_draft_takes_longest_waiting() {
    let mut bot = Bot::new();
    assert_eq!(bot.join(SESSION, Role::B, 21), JoinOutcome::Joined);
    assert_eq!(bot.join(SESSION, Role::B, 22), JoinOutcome::Joined);
    assert_eq!(bot.join(SESSION, Role::B, 23), JoinOutcome::Joined);
    // The two longest-waiting B entries are drafted; the third B stays.
    assert_eq!(
        bot.join(SESSION, Role::C, 24),
        JoinOutcome::GroupFormed(FormedGroup {
            first: 21,
            second: 22,
            third: 24,
            mode: Mode::Asymmetric,
        })
    );
    assert_eq!(bot.join(SESSION, Role::B, 23), JoinOutcome::AlreadyQueued);
}

#[test]
fn drafted_participants_leave_the_queues() {
    let mut bot = Bot::new();
    bot.join(SESSION, Role::A, 1);
    bot.join(SESSION, Role::A, 2);
    bot.join(SESSION, Role::A, 3);
    // The group was never committed to the store, so all three may queue
    // again from scratch.
    assert_eq!(bot.join(SESSION, Role::A, 1), JoinOutcome::Joined);
    assert_eq!(bot.join(SESSION, Role::A, 2), JoinOutcome::Joined);
}

#[test]
fn already_queued_answers_before_active_check() {
    let mut bot = Bot::new();
    assert_eq!(bot.join(SESSION, Role::A, 7), JoinOutcome::Joined);
    bot.insert_thread(500, 7, 8, 9, Mode::Symmetric).unwrap();
    assert_eq!(bot.join(SESSION, Role::B, 7), JoinOutcome::AlreadyQueued);
}

#[test]
fn leave_is_idempotent() {
    let mut bot = Bot::new();
    assert_eq!(bot.leave(SESSION, 5), LeaveOutcome::NotQueued);
    assert_eq!(bot.leave(SESSION, 5), LeaveOutcome::NotQueued);
    assert_eq!(bot.join(SESSION, Role::C, 5), JoinOutcome::Joined);
    assert_eq!(bot.leave(SESSION, 5), LeaveOutcome::Removed);
    assert_eq!(bot.leave(SESSION, 5), LeaveOutcome::NotQueued);
    assert_eq!(bot.join(SESSION, Role::C, 5), JoinOutcome::Joined);
}

#[test]
fn leave_touches_only_the_named_session() {
    let mut bot = Bot::new();
    assert_eq!(bot.join(SESSION, Role::A, 5), JoinOutcome::Joined);
    assert_eq!(bot.leave(SESSION + 1, 5), LeaveOutcome::NotQueued);
    assert_eq!(bot.join(SESSION, Role::A, 5), JoinOutcome::AlreadyQueued);
}

#[test]
fn leave_reopens_the_slot() {
    let mut bot = Bot::new();
    bot.join(SESSION, Role::A, 1);
    bot.join(SESSION, Role::A, 2);
    assert_eq!(bot.leave(SESSION, 1), LeaveOutcome::Removed);
    assert_eq!(bot.join(SESSION, Role::A, 3), JoinOutcome::Joined);
    assert_eq!(
        bot.join(SESSION, Role::A, 4),
        JoinOutcome::GroupFormed(FormedGroup {
            first: 2,
            second: 3,
            third: 4,
            mode: Mode::Symmetric,
        })
    );
}

#[test]
fn sessions_are_independent() {
    let mut bot = Bot::new();
    assert_eq!(bot.join(1, Role::A, 1), JoinOutcome::Joined);
    assert_eq!(bot.join(2, Role::A, 2), JoinOutcome::Joined);
    assert_eq!(bot.join(1, Role::A, 3), JoinOutcome::Joined);
    assert_eq!(bot.join(2, Role::A, 4), JoinOutcome::Joined);
    assert_eq!(
        bot.join(1, Role::A, 5),
        JoinOutcome::GroupFormed(FormedGroup {
            first: 1,
            second: 3,
            third: 5,
            mode: Mode::Symmetric,
        })
    );
    assert_eq!(bot.join(2, Role::A, 4), JoinOutcome::AlreadyQueued);
}

#[test]
fn register_session_resets_the_queues() {
    let mut bot = Bot::new();
    assert_eq!(bot.join(SESSION, Role::A, 1), JoinOutcome::Joined);
    bot.register_session(SESSION);
    assert_eq!(bot.join(SESSION, Role::A, 1), JoinOutcome::Joined);
}

#[test]
fn combined_queues_contains_and_pop() {
    let mut q = CombinedQueues::new();
    assert!(!q.contains(5));
    q.pop(5);
    assert!(!q.contains(5));
    assert_eq!(q.join_role(Role::A, 5), None);
    assert!(q.contains(5));
    q.pop(5);
    assert!(!q.contains(5));
}

#[test]
fn combined_queues_forms_symmetric_group() {
    let mut q = CombinedQueues::new();
    assert_eq!(q.join_role(Role::A, 1), None);
    assert_eq!(q.join_role(Role::A, 2), None);
    assert_eq!(
        q.join_role(Role::A, 3),
        Some(FormedGroup { first: 1, second: 2, third: 3, mode: Mode::Symmetric })
    );
    assert!(!q.contains(1) && !q.contains(2) && !q.contains(3));
}

#[test]
fn queue_buttons_map_to_roles_in_order() {
    assert_eq!(matchmaker::commands::Queue::role_of_button(0), Some(Role::A));
    assert_eq!(matchmaker::commands::Queue::role_of_button(1), Some(Role::B));
    assert_eq!(matchmaker::commands::Queue::role_of_button(2), Some(Role::C));
    assert_eq!(matchmaker::commands::Queue::role_of_button(3), None);
}

#[test]
fn cross_session_join_rejected() {
    // A participant waits in at most one session system-wide: a second
    // join, whatever the session or role, is turned away.
    let mut bot = Bot::new();
    assert_eq!(bot.join(1, Role::A, 7), JoinOutcome::Joined);
    assert_eq!(bot.join(2, Role::B, 7), JoinOutcome::AlreadyQueued);
    assert_eq!(bot.join(2, Role::C, 7), JoinOutcome::AlreadyQueued);
    assert_eq!(bot.join(1, Role::B, 7), JoinOutcome::AlreadyQueued);
    assert_eq!(bot.leave(1, 7), LeaveOutcome::Removed);
    assert_eq!(bot.join(2, Role::B, 7), JoinOutcome::Joined);
}
