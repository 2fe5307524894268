//! The engine's laws: properties that hold across whole call sequences,
//! proved once and for all from the contracts of `join`, `leave`,
//! `insert_thread` and `conclude`.

use vstd::prelude::*;

use crate::engine::Bot;
use crate::engine::JoinOutcome;
use crate::engine::LeaveOutcome;
use crate::engine::MatchRecord;
use crate::engine::SettlementOutcome;
use crate::engine::clamp_i32;
use crate::engine::conclude_post;
use crate::engine::join_post;
use crate::engine::leave_post;
use crate::engine::lemma_lookup_match_props;
use crate::engine::lemma_lookup_session_at;
use crate::engine::lemma_lookup_session_props;
use crate::engine::lemma_remove_match_lookup;
use crate::engine::lookup_match;
use crate::engine::lookup_rep;
use crate::engine::lookup_session;
use crate::engine::queued_somewhere;
use crate::engine::rep_or_zero;
use crate::engine::session_or_empty;
use crate::queues::FormedGroup;
use crate::queues::Mode;
use crate::queues::QueuesView;
use crate::queues::Role;
use crate::queues::lemma_after_join_drafted_out;
use crate::queues::lemma_after_join_members;

verus! {

/// No participant is ever in two of a session's three role queues at once.
/// Every constructor and every operation of the engine keeps each session's
/// queue set well-formed (their contracts say so), so this holds after any
/// sequence of join and leave calls.
pub proof fn lemma_no_double_queueing(bot: Bot, session_id: u64, user: u64)
    requires
        bot.wf(),
    ensures
        ({
            let qv = session_or_empty(bot.queues@, session_id);
            &&& !(qv.a.contains(user) && qv.b.contains(user))
            &&& !(qv.a.contains(user) && qv.c.contains(user))
            &&& !(qv.b.contains(user) && qv.c.contains(user))
        }),
{
    lemma_lookup_session_wf(bot, session_id);
    let qv = session_or_empty(bot.queues@, session_id);
    if qv.a.contains(user) && qv.b.contains(user) {
        let i = choose|i: int| 0 <= i < qv.a.len() && qv.a[i] == user;
        let j = choose|j: int| 0 <= j < qv.b.len() && qv.b[j] == user;
        assert(qv.a[i] != qv.b[j]);
    }
    if qv.a.contains(user) && qv.c.contains(user) {
        let i = choose|i: int| 0 <= i < qv.a.len() && qv.a[i] == user;
        let j = choose|j: int| 0 <= j < qv.c.len() && qv.c[j] == user;
        assert(qv.a[i] != qv.c[j]);
    }
    if qv.b.contains(user) && qv.c.contains(user) {
        let i = choose|i: int| 0 <= i < qv.b.len() && qv.b[i] == user;
        let j = choose|j: int| 0 <= j < qv.c.len() && qv.c[j] == user;
        assert(qv.b[i] != qv.c[j]);
    }
}

/// No participant waits in two sessions at once, system-wide: in a
/// well-formed engine the queue sets of distinct sessions never share a
/// participant, and every operation preserves well-formedness.
pub proof fn lemma_no_cross_session_queueing(bot: Bot, s1: u64, s2: u64, user: u64)
    requires
        bot.wf(),
        s1 != s2,
    ensures
        !(session_or_empty(bot.queues@, s1).has(user) && session_or_empty(bot.queues@, s2).has(
            user,
        )),
{
    lemma_lookup_session_props(bot.queues@, s1);
    lemma_lookup_session_props(bot.queues@, s2);
    if session_or_empty(bot.queues@, s1).has(user) && session_or_empty(bot.queues@, s2).has(user) {
        let i = choose|i: int|
            0 <= i < bot.queues@.len() && (#[trigger] bot.queues@[i]).id == s1
                && bot.queues@[i].queues@ == session_or_empty(bot.queues@, s1);
        let j = choose|j: int|
            0 <= j < bot.queues@.len() && (#[trigger] bot.queues@[j]).id == s2
                && bot.queues@[j].queues@ == session_or_empty(bot.queues@, s2);
        assert(bot.queues@[i].queues@.has(user));
        assert(bot.queues@[j].queues@.has(user));
    }
}

/// In a well-formed engine, every session's queue set — including the empty
/// one a fresh session would get — is well-formed.
pub proof fn lemma_lookup_session_wf(bot: Bot, session_id: u64)
    requires
        bot.wf(),
    ensures
        session_or_empty(bot.queues@, session_id).wf(),
{
    lemma_lookup_session_props(bot.queues@, session_id);
    if lookup_session(bot.queues@, session_id) is Some {
        let q = lookup_session(bot.queues@, session_id)->0;
        let i = choose|i: int|
            0 <= i < bot.queues@.len() && (#[trigger] bot.queues@[i]).id == session_id
                && bot.queues@[i].queues@ == q;
        assert(bot.queues@[i].queues@.wf());
    }
}

/// A participant who is active in a match is rejected by `join` with
/// `AlreadyInActiveMatch`, whatever the session and whatever the role, and
/// nothing changes — provided they are not also still queued somewhere, in
/// which case the queue check answers first.
pub proof fn lemma_join_rejects_active(
    pre: Bot,
    post: Bot,
    session_id: u64,
    role: Role,
    user: u64,
    r: JoinOutcome,
)
    requires
        pre.wf(),
        pre.spec_is_active(user),
        !queued_somewhere(pre.queues@, user),
        join_post(pre, post, session_id, role, user, r),
    ensures
        r == JoinOutcome::AlreadyInActiveMatch,
        post == pre,
{
}

/// While a committed match holds a participant, every join request for that
/// participant — any session, any role — is turned away without effect; once
/// the draft has cleared them from the queues, the answer is exactly
/// `AlreadyInActiveMatch`. The participant is freed only when settlement
/// removes the record.
pub proof fn lemma_drafted_blocked_until_settlement(
    pre: Bot,
    post: Bot,
    channel_id: u64,
    session_id: u64,
    role: Role,
    user: u64,
    r: JoinOutcome,
)
    requires
        pre.wf(),
        match lookup_match(pre.threads@, channel_id) {
            Some(rec) => rec.has_member(user),
            None => false,
        },
        join_post(pre, post, session_id, role, user, r),
    ensures
        r == JoinOutcome::AlreadyQueued || r == JoinOutcome::AlreadyInActiveMatch,
        post == pre,
        !queued_somewhere(pre.queues@, user) ==> r == JoinOutcome::AlreadyInActiveMatch,
{
    lemma_lookup_match_props(pre.threads@, channel_id);
    let rec = lookup_match(pre.threads@, channel_id)->0;
    let w = choose|w: int| 0 <= w < pre.threads@.len() && pre.threads@[w] == rec;
    assert(pre.threads@[w].involves(user));
    assert(pre.spec_is_active(user));
}

/// A join leaves every other participant's queue membership as it was: one
/// who waited in no session still waits in none.
pub proof fn lemma_join_keeps_unqueued(
    pre: Bot,
    post: Bot,
    session_id: u64,
    role: Role,
    user: u64,
    r: JoinOutcome,
    other: u64,
)
    requires
        pre.wf(),
        post.wf(),
        join_post(pre, post, session_id, role, user, r),
        !queued_somewhere(pre.queues@, other),
        other != user,
    ensures
        !queued_somewhere(post.queues@, other),
{
    if queued_somewhere(pre.queues@, user) || pre.spec_is_active(user) {
        assert(post == pre);
    } else {
        let qv = session_or_empty(pre.queues@, session_id);
        lemma_after_join_members(qv, role, user);
        lemma_lookup_session_props(pre.queues@, session_id);
        assert forall|k: int|
            0 <= k < post.queues@.len() implies !(#[trigger] post.queues@[k].queues@.has(
            other,
        )) by {
            let entry = post.queues@[k];
            assert(lookup_session(post.queues@, entry.id) == Some(entry.queues@)) by {
                lemma_lookup_session_at(post.queues@, k);
            }
            if entry.queues@.has(other) {
                if entry.id == session_id {
                    assert(entry.queues@ == qv.after_join(role, user));
                    assert(qv.has(other));
                    let w = choose|w: int|
                        0 <= w < pre.queues@.len() && (#[trigger] pre.queues@[w]).id == session_id
                            && pre.queues@[w].queues@ == qv;
                    assert(pre.queues@[w].queues@.has(other));
                } else {
                    assert(lookup_session(pre.queues@, entry.id) == Some(entry.queues@));
                    lemma_lookup_session_props(pre.queues@, entry.id);
                    let w = choose|w: int|
                        0 <= w < pre.queues@.len() && (#[trigger] pre.queues@[w]).id == entry.id
                            && pre.queues@[w].queues@ == entry.queues@;
                    assert(pre.queues@[w].queues@.has(other));
                }
            }
        }
        if queued_somewhere(post.queues@, other) {
            let k = choose|k: int|
                0 <= k < post.queues@.len() && (#[trigger] post.queues@[k].queues@.has(other));
            assert(!post.queues@[k].queues@.has(other));
        }
    }
}

/// A drafted group leaves the queues system-wide: after a join that formed
/// a group, no session of the engine holds any of the three drafted members.
pub proof fn lemma_formation_clears_participants(
    pre: Bot,
    post: Bot,
    session_id: u64,
    role: Role,
    user: u64,
    g: FormedGroup,
)
    requires
        pre.wf(),
        post.wf(),
        join_post(pre, post, session_id, role, user, JoinOutcome::GroupFormed(g)),
    ensures
        !queued_somewhere(post.queues@, g.first),
        !queued_somewhere(post.queues@, g.second),
        !queued_somewhere(post.queues@, g.third),
{
    let qv = session_or_empty(pre.queues@, session_id);
    assert(qv.join_forms(role) && g == qv.drafted(role, user));
    assert(qv.wf() && !qv.has(user)) by {
        lemma_lookup_session_wf(pre, session_id);
        lemma_lookup_session_props(pre.queues@, session_id);
        if lookup_session(pre.queues@, session_id) is Some {
            let w = choose|w: int|
                0 <= w < pre.queues@.len() && (#[trigger] pre.queues@[w]).id == session_id
                    && pre.queues@[w].queues@ == qv;
            assert(!pre.queues@[w].queues@.has(user));
        }
    }
    lemma_after_join_drafted_out(qv, role, user);
    assert(qv.has(g.first) || g.first == user) by {
        lemma_drafted_member_witness(qv, role, user);
    }
    assert(qv.has(g.second) || g.second == user) by {
        lemma_drafted_member_witness(qv, role, user);
    }
    assert(qv.has(g.third) || g.third == user) by {
        lemma_drafted_member_witness(qv, role, user);
    }
    lemma_lookup_session_props(pre.queues@, session_id);
    assert forall|m: u64|
        m == g.first || m == g.second || m == g.third implies !queued_somewhere(
        post.queues@,
        m,
    ) by {
        assert forall|k: int|
            0 <= k < post.queues@.len() implies !(#[trigger] post.queues@[k].queues@.has(m)) by {
            let entry = post.queues@[k];
            assert(lookup_session(post.queues@, entry.id) == Some(entry.queues@)) by {
                lemma_lookup_session_at(post.queues@, k);
            }
            if entry.queues@.has(m) {
                if entry.id == session_id {
                    assert(entry.queues@ == qv.after_join(role, user));
                } else {
                    assert(lookup_session(pre.queues@, entry.id) == Some(entry.queues@));
                    lemma_lookup_session_props(pre.queues@, entry.id);
                    let w = choose|w: int|
                        0 <= w < pre.queues@.len() && (#[trigger] pre.queues@[w]).id == entry.id
                            && pre.queues@[w].queues@ == entry.queues@;
                    assert(pre.queues@[w].queues@.has(m));
                    if m == user {
                        assert(!queued_somewhere(pre.queues@, user));
                    } else {
                        // m waits in the drafting session too; two sessions
                        // never share a participant.
                        let ws = choose|ws: int|
                            0 <= ws < pre.queues@.len() && (#[trigger] pre.queues@[ws]).id
                                == session_id && pre.queues@[ws].queues@ == qv;
                        assert(pre.queues@[ws].queues@.has(m));
                        assert(pre.queues@[ws].id != pre.queues@[w].id);
                    }
                }
            }
        }
        if queued_somewhere(post.queues@, m) {
            let k = choose|k: int|
                0 <= k < post.queues@.len() && (#[trigger] post.queues@[k].queues@.has(m));
            assert(!post.queues@[k].queues@.has(m));
        }
    }
}

/// Each slot of a drafted group is the joining participant or waited in the
/// drafting session's queues.
proof fn lemma_drafted_member_witness(qv: QueuesView, role: Role, user: u64)
    requires
        qv.join_forms(role),
    ensures
        ({
            let g = qv.drafted(role, user);
            &&& (qv.has(g.first) || g.first == user)
            &&& (qv.has(g.second) || g.second == user)
            &&& (qv.has(g.third) || g.third == user)
        }),
{
    match role {
        Role::A => {
            assert(qv.a.contains(qv.a[0])) by {
                assert(qv.a[0] == qv.a[0]);
            }
            assert(qv.a.contains(qv.a[1])) by {
                assert(qv.a[1] == qv.a[1]);
            }
        },
        Role::B => {
            assert(qv.b.contains(qv.b[0])) by {
                assert(qv.b[0] == qv.b[0]);
            }
            assert(qv.c.contains(qv.c[0])) by {
                assert(qv.c[0] == qv.c[0]);
            }
        },
        Role::C => {
            assert(qv.b.contains(qv.b[0])) by {
                assert(qv.b[0] == qv.b[0]);
            }
            assert(qv.b.contains(qv.b[1])) by {
                assert(qv.b[1] == qv.b[1]);
            }
        },
    }
}

/// Symmetric formation: three arrivals into role A of a fresh session are
/// answered `Joined`, `Joined`, and — exactly on the third — the group
/// `[p1, p2, p3]` in arrival order, leaving the session empty again.
pub proof fn lemma_symmetric_formation(
    b0: Bot,
    b1: Bot,
    b2: Bot,
    b3: Bot,
    session_id: u64,
    p1: u64,
    p2: u64,
    p3: u64,
    r1: JoinOutcome,
    r2: JoinOutcome,
    r3: JoinOutcome,
)
    requires
        b0.wf(),
        b1.wf(),
        b2.wf(),
        session_or_empty(b0.queues@, session_id) == QueuesView::empty(),
        p1 != p2,
        p1 != p3,
        p2 != p3,
        !queued_somewhere(b0.queues@, p1),
        !queued_somewhere(b0.queues@, p2),
        !queued_somewhere(b0.queues@, p3),
        !b0.spec_is_active(p1),
        !b0.spec_is_active(p2),
        !b0.spec_is_active(p3),
        join_post(b0, b1, session_id, Role::A, p1, r1),
        join_post(b1, b2, session_id, Role::A, p2, r2),
        join_post(b2, b3, session_id, Role::A, p3, r3),
    ensures
        r1 == JoinOutcome::Joined,
        r2 == JoinOutcome::Joined,
        r3 == JoinOutcome::GroupFormed(
            FormedGroup { first: p1, second: p2, third: p3, mode: Mode::Symmetric },
        ),
        session_or_empty(b3.queues@, session_id) == QueuesView::empty(),
{
    let q0 = session_or_empty(b0.queues@, session_id);
    let q1 = session_or_empty(b1.queues@, session_id);
    let q2 = session_or_empty(b2.queues@, session_id);
    assert(q1 == q0.after_join(Role::A, p1));
    assert(q1.a =~= seq![p1]);
    lemma_join_keeps_unqueued(b0, b1, session_id, Role::A, p1, r1, p2);
    lemma_join_keeps_unqueued(b0, b1, session_id, Role::A, p1, r1, p3);
    assert(q2 == q1.after_join(Role::A, p2));
    assert(q2.a =~= seq![p1, p2]);
    lemma_join_keeps_unqueued(b1, b2, session_id, Role::A, p2, r2, p3);
    assert(q2.join_forms(Role::A));
    assert(q2.drafted(Role::A, p3) == FormedGroup {
        first: p1,
        second: p2,
        third: p3,
        mode: Mode::Symmetric,
    });
    assert(session_or_empty(b3.queues@, session_id) =~= QueuesView::empty());
}

/// Asymmetric formation: two arrivals into role B and then one into role C
/// of a fresh session are answered `Joined`, `Joined`, and — exactly on the
/// C arrival — the group `[b1, b2, c1]`, leaving the session empty again.
pub proof fn lemma_asymmetric_formation(
    b0: Bot,
    b1: Bot,
    b2: Bot,
    b3: Bot,
    session_id: u64,
    u1: u64,
    u2: u64,
    u3: u64,
    r1: JoinOutcome,
    r2: JoinOutcome,
    r3: JoinOutcome,
)
    requires
        b0.wf(),
        b1.wf(),
        b2.wf(),
        session_or_empty(b0.queues@, session_id) == QueuesView::empty(),
        u1 != u2,
        u1 != u3,
        u2 != u3,
        !queued_somewhere(b0.queues@, u1),
        !queued_somewhere(b0.queues@, u2),
        !queued_somewhere(b0.queues@, u3),
        !b0.spec_is_active(u1),
        !b0.spec_is_active(u2),
        !b0.spec_is_active(u3),
        join_post(b0, b1, session_id, Role::B, u1, r1),
        join_post(b1, b2, session_id, Role::B, u2, r2),
        join_post(b2, b3, session_id, Role::C, u3, r3),
    ensures
        r1 == JoinOutcome::Joined,
        r2 == JoinOutcome::Joined,
        r3 == JoinOutcome::GroupFormed(
            FormedGroup { first: u1, second: u2, third: u3, mode: Mode::Asymmetric },
        ),
        session_or_empty(b3.queues@, session_id) == QueuesView::empty(),
{
    let q0 = session_or_empty(b0.queues@, session_id);
    let q1 = session_or_empty(b1.queues@, session_id);
    let q2 = session_or_empty(b2.queues@, session_id);
    assert(q1 == q0.after_join(Role::B, u1));
    assert(q1.b =~= seq![u1]);
    lemma_join_keeps_unqueued(b0, b1, session_id, Role::B, u1, r1, u2);
    lemma_join_keeps_unqueued(b0, b1, session_id, Role::B, u1, r1, u3);
    assert(q2 == q1.after_join(Role::B, u2));
    assert(q2.b =~= seq![u1, u2]);
    lemma_join_keeps_unqueued(b1, b2, session_id, Role::B, u2, r2, u3);
    assert(q2.join_forms(Role::C));
    assert(q2.drafted(Role::C, u3) == FormedGroup {
        first: u1,
        second: u2,
        third: u3,
        mode: Mode::Asymmetric,
    });
    assert(session_or_empty(b3.queues@, session_id) =~= QueuesView::empty());
}

/// One B entry and one C entry are not enough: an asymmetric draft needs
/// two B entries, so both arrivals are answered `Joined` and no group forms.
pub proof fn lemma_asymmetric_needs_two_b(
    b0: Bot,
    b1: Bot,
    b2: Bot,
    session_id: u64,
    u1: u64,
    u2: u64,
    r1: JoinOutcome,
    r2: JoinOutcome,
)
    requires
        b0.wf(),
        b1.wf(),
        session_or_empty(b0.queues@, session_id) == QueuesView::empty(),
        u1 != u2,
        !queued_somewhere(b0.queues@, u1),
        !queued_somewhere(b0.queues@, u2),
        !b0.spec_is_active(u1),
        !b0.spec_is_active(u2),
        join_post(b0, b1, session_id, Role::B, u1, r1),
        join_post(b1, b2, session_id, Role::C, u2, r2),
    ensures
        r1 == JoinOutcome::Joined,
        r2 == JoinOutcome::Joined,
{
    let q0 = session_or_empty(b0.queues@, session_id);
    let q1 = session_or_empty(b1.queues@, session_id);
    assert(q1 == q0.after_join(Role::B, u1));
    assert(q1.b =~= seq![u1]);
    lemma_join_keeps_unqueued(b0, b1, session_id, Role::B, u1, r1, u2);
    assert(!q1.join_forms(Role::C));
}

/// `leave` is idempotent: for a participant who is not queued in the named
/// session, it answers `NotQueued`, mutates nothing, and a second call does
/// the same.
pub proof fn lemma_leave_idempotent(
    pre: Bot,
    mid: Bot,
    post: Bot,
    session_id: u64,
    user: u64,
    r1: LeaveOutcome,
    r2: LeaveOutcome,
)
    requires
        pre.wf(),
        !session_or_empty(pre.queues@, session_id).has(user),
        leave_post(pre, mid, session_id, user, r1),
        leave_post(mid, post, session_id, user, r2),
    ensures
        r1 == LeaveOutcome::NotQueued,
        r2 == LeaveOutcome::NotQueued,
        mid == pre,
        post == pre,
{
}

/// Settlement is idempotent: once `conclude` has settled a match, a second
/// signal for the same identifier finds no record, applies no delta, and
/// changes nothing.
pub proof fn lemma_conclude_idempotent(
    pre: Bot,
    mid: Bot,
    post: Bot,
    channel_id: u64,
    acting1: Option<u64>,
    acting2: Option<u64>,
    r1: SettlementOutcome,
    r2: SettlementOutcome,
)
    requires
        pre.wf(),
        conclude_post(pre, mid, channel_id, acting1, r1),
        r1 is Settled,
        conclude_post(mid, post, channel_id, acting2, r2),
    ensures
        r2 == SettlementOutcome::NoSuchMatch,
        post == mid,
{
    lemma_remove_match_lookup(pre.threads@, channel_id, channel_id);
}

/// Settlement deltas: a symmetric match grants one point to each of its
/// three participants; an asymmetric match grants two points to the third
/// slot and leaves the other two ledger entries untouched.
pub proof fn lemma_settlement_deltas(
    pre: Bot,
    post: Bot,
    channel_id: u64,
    acting: Option<u64>,
    r: SettlementOutcome,
    rec: MatchRecord,
)
    requires
        pre.wf(),
        lookup_match(pre.threads@, channel_id) == Some(rec),
        conclude_post(pre, post, channel_id, acting, r),
        r is Settled,
    ensures
        rec.mode == Mode::Symmetric ==> {
            &&& rep_or_zero(post.users@, rec.user1) == clamp_i32(
                rep_or_zero(pre.users@, rec.user1) + 1,
            )
            &&& rep_or_zero(post.users@, rec.user2) == clamp_i32(
                rep_or_zero(pre.users@, rec.user2) + 1,
            )
            &&& rep_or_zero(post.users@, rec.user3) == clamp_i32(
                rep_or_zero(pre.users@, rec.user3) + 1,
            )
        },
        rec.mode == Mode::Asymmetric ==> {
            &&& rep_or_zero(post.users@, rec.user3) == clamp_i32(
                rep_or_zero(pre.users@, rec.user3) + 2,
            )
            &&& lookup_rep(post.users@, rec.user1) == lookup_rep(pre.users@, rec.user1)
            &&& lookup_rep(post.users@, rec.user2) == lookup_rep(pre.users@, rec.user2)
        },
{
    lemma_lookup_match_props(pre.threads@, channel_id);
    let w = choose|w: int| 0 <= w < pre.threads@.len() && pre.threads@[w] == rec;
    assert(pre.threads@[w].wf());
}

} // verus!
