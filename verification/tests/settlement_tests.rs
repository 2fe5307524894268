use matchmaker::engine::Bot;
use matchmaker::engine::Conflict;
use matchmaker::engine::JoinOutcome;
use matchmaker::engine::SettlementOutcome;
use matchmaker::queues::Mode;
use matchmaker::queues::Role;

const CHANNEL: u64 = 900;

#[test]
fn committed_match_blocks_every_member() {
    let mut bot = Bot::new();
    bot.insert_thread(CHANNEL, 1, 2, 3, Mode::Symmetric).unwrap();
    for user in [1, 2, 3] {
        for role in [Role::A, Role::B, Role::C] {
            assert_eq!(bot.join(77, role, user), JoinOutcome::AlreadyInActiveMatch);
        }
        assert_eq!(bot.join(78, Role::A, user), JoinOutcome::AlreadyInActiveMatch);
    }
    assert!(bot.is_thread(CHANNEL));
    assert!(bot.is_thread(2));
    assert!(!bot.is_thread(4));
}

#[test]
fn settlement_frees_the_participants() {
    let mut bot = Bot::new();
    bot.insert_thread(CHANNEL, 1, 2, 3, Mode::Symmetric).unwrap();
    assert_eq!(bot.join(77, Role::A, 1), JoinOutcome::AlreadyInActiveMatch);
    assert_eq!(bot.conclude(CHANNEL, None), SettlementOutcome::Settled(Mode::Symmetric));
    assert_eq!(bot.join(77, Role::A, 1), JoinOutcome::Joined);
    assert_eq!(bot.join(77, Role::B, 2), JoinOutcome::Joined);
    assert_eq!(bot.join(77, Role::C, 3), JoinOutcome::Joined);
}

#[test]
fn symmetric_settlement_grants_one_to_each() {
    let mut bot = Bot::new();
    bot.insert_thread(CHANNEL, 1, 2, 3, Mode::Symmetric).unwrap();
    assert_eq!(bot.conclude(CHANNEL, Some(2)), SettlementOutcome::Settled(Mode::Symmetric));
    assert_eq!(bot.get_rep(1), Some(1));
    assert_eq!(bot.get_rep(2), Some(1));
    assert_eq!(bot.get_rep(3), Some(1));
}

#[test]
fn asymmetric_settlement_grants_two_to_third_slot_only() {
    let mut bot = Bot::new();
    bot.insert_thread(CHANNEL, 1, 2, 3, Mode::Asymmetric).unwrap();
    assert_eq!(bot.conclude(CHANNEL, Some(1)), SettlementOutcome::Settled(Mode::Asymmetric));
    assert_eq!(bot.get_rep(1), None);
    assert_eq!(bot.get_rep(2), None);
    assert_eq!(bot.get_rep(3), Some(2));
}

#[test]
fn settlement_is_idempotent() {
    let mut bot = Bot::new();
    bot.insert_thread(CHANNEL, 1, 2, 3, Mode::Symmetric).unwrap();
    assert_eq!(bot.conclude(CHANNEL, None), SettlementOutcome::Settled(Mode::Symmetric));
    assert_eq!(bot.conclude(CHANNEL, None), SettlementOutcome::NoSuchMatch);
    assert_eq!(bot.conclude(CHANNEL, Some(1)), SettlementOutcome::NoSuchMatch);
    // The deltas were applied exactly once.
    assert_eq!(bot.get_rep(1), Some(1));
    assert_eq!(bot.get_rep(2), Some(1));
    assert_eq!(bot.get_rep(3), Some(1));
}

#[test]
fn conclude_unknown_match_is_a_no_op() {
    let mut bot = Bot::new();
    assert_eq!(bot.conclude(CHANNEL, None), SettlementOutcome::NoSuchMatch);
    assert_eq!(bot.get_rep(1), None);
}

#[test]
fn conclude_by_non_member_is_rejected() {
    let mut bot = Bot::new();
    bot.insert_thread(CHANNEL, 1, 2, 3, Mode::Symmetric).unwrap();
    assert_eq!(bot.conclude(CHANNEL, Some(4)), SettlementOutcome::Unauthorized);
    // Nothing was settled.
    assert!(bot.get_thread(CHANNEL).is_some());
    assert_eq!(bot.get_rep(1), None);
    assert_eq!(bot.conclude(CHANNEL, Some(3)), SettlementOutcome::Settled(Mode::Symmetric));
}

#[test]
fn insert_thread_refuses_a_duplicate_channel() {
    let mut bot = Bot::new();
    assert_eq!(bot.insert_thread(CHANNEL, 1, 2, 3, Mode::Symmetric), Ok(()));
    assert_eq!(bot.insert_thread(CHANNEL, 4, 5, 6, Mode::Asymmetric), Err(Conflict));
    // The first record stands.
    let rec = bot.get_thread(CHANNEL).unwrap();
    assert_eq!((rec.user1, rec.user2, rec.user3), (1, 2, 3));
    assert_eq!(rec.mode, Mode::Symmetric);
}

#[test]
fn remove_thread_is_idempotent() {
    let mut bot = Bot::new();
    bot.insert_thread(CHANNEL, 1, 2, 3, Mode::Symmetric).unwrap();
    bot.remove_thread(CHANNEL);
    assert!(!bot.is_thread(CHANNEL));
    assert!(!bot.is_thread(1));
    bot.remove_thread(CHANNEL);
    assert!(bot.get_thread(CHANNEL).is_none());
}

#[test]
fn get_thread_returns_the_record() {
    let mut bot = Bot::new();
    assert!(bot.get_thread(CHANNEL).is_none());
    bot.insert_thread(CHANNEL, 7, 8, 9, Mode::Asymmetric).unwrap();
    let rec = bot.get_thread(CHANNEL).unwrap();
    assert_eq!(rec.channel_id, CHANNEL);
    assert_eq!((rec.user1, rec.user2, rec.user3), (7, 8, 9));
    assert_eq!(rec.mode, Mode::Asymmetric);
}

#[test]
fn update_user_accumulates_signed_deltas() {
    let mut bot = Bot::new();
    assert_eq!(bot.get_rep(42), None);
    bot.update_user(42, -1);
    assert_eq!(bot.get_rep(42), Some(-1));
    bot.update_user(42, 2);
    assert_eq!(bot.get_rep(42), Some(1));
    bot.update_user(42, 5);
    assert_eq!(bot.get_rep(42), Some(6));
    assert_eq!(bot.get_rep(43), None);
}

#[test]
fn update_user_saturates_at_the_score_bounds() {
    let mut bot = Bot::new();
    bot.update_user(42, i32::MAX);
    bot.update_user(42, 1);
    assert_eq!(bot.get_rep(42), Some(i32::MAX));
    bot.update_user(7, i32::MIN);
    bot.update_user(7, -1);
    assert_eq!(bot.get_rep(7), Some(i32::MIN));
}

#[test]
fn full_lifecycle_round_trip() {
    let mut bot = Bot::new();
    assert_eq!(bot.join(10, Role::B, 1), JoinOutcome::Joined);
    assert_eq!(bot.join(10, Role::B, 2), JoinOutcome::Joined);
    let formed = bot.join(10, Role::C, 3);
    let group = match formed {
        JoinOutcome::GroupFormed(g) => g,
        other => panic!("expected a formed group, got {:?}", other),
    };
    assert_eq!((group.first, group.second, group.third), (1, 2, 3));
    assert_eq!(group.mode, Mode::Asymmetric);
    bot.insert_thread(CHANNEL, group.first, group.second, group.third, group.mode).unwrap();
    assert_eq!(bot.join(10, Role::B, 1), JoinOutcome::AlreadyInActiveMatch);
    assert_eq!(bot.conclude(CHANNEL, Some(1)), SettlementOutcome::Settled(Mode::Asymmetric));
    assert_eq!(bot.get_rep(3), Some(2));
    assert_eq!(bot.join(10, Role::B, 1), JoinOutcome::Joined);
}

#[test]
fn match_record_membership_helpers() {
    let mut bot = Bot::new();
    bot.insert_thread(CHANNEL, 1, 2, 3, Mode::Symmetric).unwrap();
    let rec = bot.get_thread(CHANNEL).unwrap();
    assert!(rec.is_member(1) && rec.is_member(2) && rec.is_member(3));
    assert!(!rec.is_member(4));
    assert_eq!(rec.others_of(2), vec![1, 3]);
    assert_eq!(rec.others_of(4), vec![1, 2, 3]);
}
