//! The matchmaking engine: session registry, membership store and
//! reputation ledger, with the join / leave / conclude lifecycle.
//!
//! A [`Bot`] owns the per-session queue sets, the records of the matches
//! that are currently active, and the reputation ledger. `join` and `leave`
//! mutate one session's queues; a formed group is committed by
//! `insert_thread` and stays active until `conclude` settles it, applies the
//! reputation deltas for its mode, and removes the record.

use vstd::prelude::*;

use crate::queues::CombinedQueues;
use crate::queues::FormedGroup;
use crate::queues::Mode;
use crate::queues::QueuesView;
use crate::queues::Role;

verus! {

/// One deployed queue instance: the identifier of the message hosting its
/// controls, and its three role queues.
pub struct Session {
    pub id: u64,
    pub queues: CombinedQueues,
}

/// An active match: the communication channel backing it, its three
/// participants in draft order, and the mode it was formed under.
#[derive(Clone, Copy, PartialEq, Eq, Structural, Debug)]
pub struct MatchRecord {
    pub channel_id: u64,
    pub user1: u64,
    pub user2: u64,
    pub user3: u64,
    pub mode: Mode,
}

impl MatchRecord {
    /// The participant is one of the three members of this match.
    pub open spec fn has_member(self, id: u64) -> bool {
        self.user1 == id || self.user2 == id || self.user3 == id
    }

    /// The identifier names this match or one of its members.
    pub open spec fn involves(self, id: u64) -> bool {
        self.channel_id == id || self.has_member(id)
    }

    /// A match holds three distinct participants.
    pub open spec fn wf(self) -> bool {
        self.user1 != self.user2 && self.user1 != self.user3 && self.user2 != self.user3
    }

    /// Whether the participant is one of this match's three members.
    pub fn is_member(&self, id: u64) -> (r: bool)
        ensures
            r == self.has_member(id),
    {
        self.user1 == id || self.user2 == id || self.user3 == id
    }

    /// The members other than the given participant, in slot order: the
    /// set a conclusion request pings and accepts a confirmation from.
    pub fn others_of(&self, id: u64) -> (r: Vec<u64>)
        ensures
            r@ == crate::queues::remove_user_seq(
                seq![self.user1, self.user2, self.user3],
                id,
            ),
    {
        let mut r: Vec<u64> = Vec::new();
        if self.user1 != id {
            r.push(self.user1);
        }
        if self.user2 != id {
            r.push(self.user2);
        }
        if self.user3 != id {
            r.push(self.user3);
        }
        proof {
            let s0 = seq![self.user1, self.user2, self.user3];
            let s1 = seq![self.user2, self.user3];
            let s2 = seq![self.user3];
            let s3 = Seq::<u64>::empty();
            assert(s0.skip(1) =~= s1);
            assert(s1.skip(1) =~= s2);
            assert(s2.skip(1) =~= s3);
            assert(crate::queues::remove_user_seq(s3, id) =~= Seq::<u64>::empty());
            assert(crate::queues::remove_user_seq(s2, id) =~= (if self.user3 == id {
                Seq::<u64>::empty()
            } else {
                seq![self.user3]
            }));
            assert(crate::queues::remove_user_seq(s1, id) =~= (if self.user2 == id {
                crate::queues::remove_user_seq(s2, id)
            } else {
                seq![self.user2] + crate::queues::remove_user_seq(s2, id)
            }));
            assert(r@ =~= crate::queues::remove_user_seq(s0, id));
        }
        r
    }
}

/// One reputation ledger entry: a participant and their score.
#[derive(Clone, Copy, PartialEq, Eq, Structural, Debug)]
pub struct UserRep {
    pub user_id: u64,
    pub rep: i32,
}

/// Error of `insert_thread`: the store already holds a match under the
/// same channel identifier.
#[derive(Clone, Copy, PartialEq, Eq, Structural, Debug)]
pub struct Conflict;

/// Outcome of a join request.
#[derive(Clone, Copy, PartialEq, Eq, Structural, Debug)]
pub enum JoinOutcome {
    /// The participant was appended to the requested role queue.
    Joined,
    /// The participant already waits in one of this session's queues; the
    /// request is ignored.
    AlreadyQueued,
    /// The participant belongs to an active match; the request is ignored.
    AlreadyInActiveMatch,
    /// The arrival completed a group, which was drafted out of the queues.
    GroupFormed(FormedGroup),
}

/// Outcome of a leave request.
#[derive(Clone, Copy, PartialEq, Eq, Structural, Debug)]
pub enum LeaveOutcome {
    Removed,
    NotQueued,
}

/// Outcome of a conclusion signal.
#[derive(Clone, Copy, PartialEq, Eq, Structural, Debug)]
pub enum SettlementOutcome {
    /// The match was settled under the given mode and its record removed.
    Settled(Mode),
    /// No active match has this identifier: already settled or never
    /// committed. The signal is a no-op.
    NoSuchMatch,
    /// The confirming participant is not a member of the match; nothing
    /// changes.
    Unauthorized,
}

/// No two sessions share an identifier.
pub open spec fn session_ids_unique(s: Seq<Session>) -> bool {
    forall|i: int, j: int| 0 <= i < j < s.len() ==> s[i].id != s[j].id
}

/// No two match records share a channel identifier.
pub open spec fn match_ids_unique(s: Seq<MatchRecord>) -> bool {
    forall|i: int, j: int| 0 <= i < j < s.len() ==> s[i].channel_id != s[j].channel_id
}

/// No two ledger entries belong to the same participant.
pub open spec fn user_ids_unique(s: Seq<UserRep>) -> bool {
    forall|i: int, j: int| 0 <= i < j < s.len() ==> s[i].user_id != s[j].user_id
}

/// The participant waits in some registered session's queues.
pub open spec fn queued_somewhere(s: Seq<Session>, user: u64) -> bool {
    exists|i: int| 0 <= i < s.len() && (#[trigger] s[i].queues@.has(user))
}

/// No participant waits in two registered sessions at once: the queues of
/// distinct sessions never share a participant.
pub open spec fn sessions_disjoint(s: Seq<Session>) -> bool {
    forall|i: int, j: int, u: u64|
        0 <= i < s.len() && 0 <= j < s.len() && i != j && (#[trigger] s[i].queues@.has(u))
            ==> !(#[trigger] s[j].queues@.has(u))
}

/// The queues of the first session with this identifier, if any.
pub open spec fn lookup_session(s: Seq<Session>, sid: u64) -> Option<QueuesView>
    decreases s.len(),
{
    if s.len() == 0 {
        None
    } else if s[0].id == sid {
        Some(s[0].queues@)
    } else {
        lookup_session(s.skip(1), sid)
    }
}

/// The queues of this session, or an empty queue set where the session has
/// not been created yet: a session is born lazily on first join.
pub open spec fn session_or_empty(s: Seq<Session>, sid: u64) -> QueuesView {
    match lookup_session(s, sid) {
        Some(q) => q,
        None => QueuesView::empty(),
    }
}

/// The first match record under this channel identifier, if any.
pub open spec fn lookup_match(s: Seq<MatchRecord>, channel_id: u64) -> Option<MatchRecord>
    decreases s.len(),
{
    if s.len() == 0 {
        None
    } else if s[0].channel_id == channel_id {
        Some(s[0])
    } else {
        lookup_match(s.skip(1), channel_id)
    }
}

/// The store with every record under this channel identifier removed.
pub open spec fn remove_match_seq(s: Seq<MatchRecord>, channel_id: u64) -> Seq<MatchRecord>
    decreases s.len(),
{
    if s.len() == 0 {
        Seq::empty()
    } else if s[0].channel_id == channel_id {
        remove_match_seq(s.skip(1), channel_id)
    } else {
        seq![s[0]] + remove_match_seq(s.skip(1), channel_id)
    }
}

/// The ledger score of this participant, if one was ever written.
pub open spec fn lookup_rep(s: Seq<UserRep>, user_id: u64) -> Option<i32>
    decreases s.len(),
{
    if s.len() == 0 {
        None
    } else if s[0].user_id == user_id {
        Some(s[0].rep)
    } else {
        lookup_rep(s.skip(1), user_id)
    }
}

/// The ledger score of this participant, defaulting to zero before the
/// first write.
pub open spec fn rep_or_zero(s: Seq<UserRep>, user_id: u64) -> int {
    match lookup_rep(s, user_id) {
        Some(r) => r as int,
        None => 0,
    }
}

/// A session lookup lands on the first entry carrying the identifier.
pub(crate) proof fn lemma_lookup_session_at(s: Seq<Session>, i: int)
    requires
        0 <= i < s.len(),
        forall|j: int| 0 <= j < i ==> s[j].id != s[i].id,
    ensures
        lookup_session(s, s[i].id) == Some(s[i].queues@),
    decreases i,
{
    if i > 0 {
        let t = s.skip(1);
        assert(t[i - 1] == s[i]);
        assert forall|j: int| 0 <= j < i - 1 implies (#[trigger] t[j]).id != t[i - 1].id by {
            assert(t[j] == s[j + 1]);
        }
        lemma_lookup_session_at(t, i - 1);
    }
}

/// A session lookup misses when no entry carries the identifier.
pub(crate) proof fn lemma_lookup_session_absent(s: Seq<Session>, sid: u64)
    requires
        forall|j: int| 0 <= j < s.len() ==> s[j].id != sid,
    ensures
        lookup_session(s, sid) == None::<QueuesView>,
    decreases s.len(),
{
    if s.len() > 0 {
        let t = s.skip(1);
        assert forall|j: int| 0 <= j < t.len() implies t[j].id != sid by {
            assert(t[j] == s[j + 1]);
        }
        lemma_lookup_session_absent(t, sid);
    }
}

/// Replacing one session's queues moves only that session's lookup.
pub(crate) proof fn lemma_lookup_session_update(s: Seq<Session>, i: int, e: Session, v: u64)
    requires
        0 <= i < s.len(),
        session_ids_unique(s),
        e.id == s[i].id,
    ensures
        lookup_session(s.update(i, e), v) == (if v == e.id {
            Some(e.queues@)
        } else {
            lookup_session(s, v)
        }),
    decreases s.len(),
{
    let s2 = s.update(i, e);
    if i == 0 {
        assert(s2[0] == e);
        if v != e.id {
            assert(s2.skip(1) =~= s.skip(1));
        }
    } else {
        assert(s2[0] == s[0]);
        if v == s[0].id {
            assert(s[0].id != s[i].id);
        } else {
            let t = s.skip(1);
            assert(session_ids_unique(t)) by {
                assert forall|x: int, y: int| 0 <= x < y < t.len() implies t[x].id != t[y].id by {
                    assert(t[x] == s[x + 1] && t[y] == s[y + 1]);
                }
            }
            assert(t[i - 1] == s[i]);
            assert(s2.skip(1) =~= t.update(i - 1, e));
            lemma_lookup_session_update(t, i - 1, e, v);
        }
    }
}

/// Appending a session with a fresh identifier adds exactly its lookup.
pub(crate) proof fn lemma_lookup_session_push(s: Seq<Session>, e: Session, v: u64)
    ensures
        lookup_session(s.push(e), v) == (match lookup_session(s, v) {
            Some(q) => Some(q),
            None => if e.id == v {
                Some(e.queues@)
            } else {
                None
            },
        }),
    decreases s.len(),
{
    let s2 = s.push(e);
    if s.len() == 0 {
        assert(s2[0] == e);
        assert(s2.skip(1) =~= Seq::<Session>::empty());
        assert(lookup_session(s2.skip(1), v) == None::<QueuesView>);
        assert(lookup_session(s, v) == None::<QueuesView>);
    } else {
        assert(s2[0] == s[0]);
        assert(s2.skip(1) =~= s.skip(1).push(e));
        lemma_lookup_session_push(s.skip(1), e, v);
    }
}

/// A ledger lookup lands on the first entry carrying the identifier.
pub(crate) proof fn lemma_lookup_rep_at(s: Seq<UserRep>, i: int)
    requires
        0 <= i < s.len(),
        forall|j: int| 0 <= j < i ==> s[j].user_id != s[i].user_id,
    ensures
        lookup_rep(s, s[i].user_id) == Some(s[i].rep),
    decreases i,
{
    if i > 0 {
        let t = s.skip(1);
        assert(t[i - 1] == s[i]);
        assert forall|j: int| 0 <= j < i - 1 implies (#[trigger] t[j]).user_id != t[i - 1].user_id by {
            assert(t[j] == s[j + 1]);
        }
        lemma_lookup_rep_at(t, i - 1);
    }
}

/// A ledger lookup misses when no entry carries the identifier.
pub(crate) proof fn lemma_lookup_rep_absent(s: Seq<UserRep>, user_id: u64)
    requires
        forall|j: int| 0 <= j < s.len() ==> s[j].user_id != user_id,
    ensures
        lookup_rep(s, user_id) == None::<i32>,
    decreases s.len(),
{
    if s.len() > 0 {
        let t = s.skip(1);
        assert forall|j: int| 0 <= j < t.len() implies t[j].user_id != user_id by {
            assert(t[j] == s[j + 1]);
        }
        lemma_lookup_rep_absent(t, user_id);
    }
}

/// Rewriting one ledger entry's score moves only that participant's lookup.
pub(crate) proof fn lemma_lookup_rep_update(s: Seq<UserRep>, i: int, e: UserRep, v: u64)
    requires
        0 <= i < s.len(),
        user_ids_unique(s),
        e.user_id == s[i].user_id,
    ensures
        lookup_rep(s.update(i, e), v) == (if v == e.user_id {
            Some(e.rep)
        } else {
            lookup_rep(s, v)
        }),
    decreases s.len(),
{
    let s2 = s.update(i, e);
    if i == 0 {
        assert(s2[0] == e);
        if v != e.user_id {
            assert(s2.skip(1) =~= s.skip(1));
        }
    } else {
        assert(s2[0] == s[0]);
        if v == s[0].user_id {
            assert(s[0].user_id != s[i].user_id);
        } else {
            let t = s.skip(1);
            assert(user_ids_unique(t)) by {
                assert forall|x: int, y: int|
                    0 <= x < y < t.len() implies t[x].user_id != t[y].user_id by {
                    assert(t[x] == s[x + 1] && t[y] == s[y + 1]);
                }
            }
            assert(t[i - 1] == s[i]);
            assert(s2.skip(1) =~= t.update(i - 1, e));
            lemma_lookup_rep_update(t, i - 1, e, v);
        }
    }
}

/// Appending a ledger entry for a fresh participant adds exactly its lookup.
pub(crate) proof fn lemma_lookup_rep_push(s: Seq<UserRep>, e: UserRep, v: u64)
    ensures
        lookup_rep(s.push(e), v) == (match lookup_rep(s, v) {
            Some(r) => Some(r),
            None => if e.user_id == v {
                Some(e.rep)
            } else {
                None
            },
        }),
    decreases s.len(),
{
    let s2 = s.push(e);
    if s.len() == 0 {
        assert(s2[0] == e);
        assert(s2.skip(1) =~= Seq::<UserRep>::empty());
        assert(lookup_rep(s2.skip(1), v) == None::<i32>);
        assert(lookup_rep(s, v) == None::<i32>);
    } else {
        assert(s2[0] == s[0]);
        assert(s2.skip(1) =~= s.skip(1).push(e));
        lemma_lookup_rep_push(s.skip(1), e, v);
    }
}

/// A match lookup lands on the first record carrying the identifier.
pub(crate) proof fn lemma_lookup_match_at(s: Seq<MatchRecord>, i: int)
    requires
        0 <= i < s.len(),
        forall|j: int| 0 <= j < i ==> s[j].channel_id != s[i].channel_id,
    ensures
        lookup_match(s, s[i].channel_id) == Some(s[i]),
    decreases i,
{
    if i > 0 {
        let t = s.skip(1);
        assert(t[i - 1] == s[i]);
        assert forall|j: int| 0 <= j < i - 1 implies (#[trigger] t[j]).channel_id != t[i - 1].channel_id by {
            assert(t[j] == s[j + 1]);
        }
        lemma_lookup_match_at(t, i - 1);
    }
}

/// A match lookup misses when no record carries the identifier.
pub(crate) proof fn lemma_lookup_match_absent(s: Seq<MatchRecord>, channel_id: u64)
    requires
        forall|j: int| 0 <= j < s.len() ==> s[j].channel_id != channel_id,
    ensures
        lookup_match(s, channel_id) == None::<MatchRecord>,
    decreases s.len(),
{
    if s.len() > 0 {
        let t = s.skip(1);
        assert forall|j: int| 0 <= j < t.len() implies t[j].channel_id != channel_id by {
            assert(t[j] == s[j + 1]);
        }
        lemma_lookup_match_absent(t, channel_id);
    }
}

/// Removing a match erases its lookup and leaves every other lookup as it
/// was.
pub(crate) proof fn lemma_remove_match_lookup(s: Seq<MatchRecord>, channel_id: u64, v: u64)
    ensures
        lookup_match(remove_match_seq(s, channel_id), v) == (if v == channel_id {
            None
        } else {
            lookup_match(s, v)
        }),
    decreases s.len(),
{
    if s.len() > 0 {
        let t = s.skip(1);
        lemma_remove_match_lookup(t, channel_id, v);
        if s[0].channel_id != channel_id {
            let r = seq![s[0]] + remove_match_seq(t, channel_id);
            assert(r[0] == s[0]);
            assert(r.skip(1) =~= remove_match_seq(t, channel_id));
        }
    }
}

/// Removal keeps exactly the other records, in order, without duplicating
/// any channel identifier.
pub(crate) proof fn lemma_remove_match_keeps(s: Seq<MatchRecord>, channel_id: u64)
    ensures
        forall|x: MatchRecord|
            #![trigger remove_match_seq(s, channel_id).contains(x)]
            remove_match_seq(s, channel_id).contains(x) == (s.contains(x) && x.channel_id
                != channel_id),
        match_ids_unique(s) ==> match_ids_unique(remove_match_seq(s, channel_id)),
        remove_match_seq(s, channel_id).len() <= s.len(),
    decreases s.len(),
{
    if s.len() == 0 {
        assert forall|x: MatchRecord|
            #![trigger remove_match_seq(s, channel_id).contains(x)]
            remove_match_seq(s, channel_id).contains(x) == (s.contains(x) && x.channel_id
                != channel_id) by {
            assert(!s.contains(x));
        }
    } else {
        let t = s.skip(1);
        lemma_remove_match_keeps(t, channel_id);
        assert forall|x: MatchRecord| s.contains(x) == (s[0] == x || t.contains(x)) by {
            if s.contains(x) {
                let k = choose|k: int| 0 <= k < s.len() && s[k] == x;
                if k > 0 {
                    assert(t[k - 1] == x);
                }
            }
            if t.contains(x) {
                let k = choose|k: int| 0 <= k < t.len() && t[k] == x;
                assert(s[k + 1] == x);
            }
        }
        if match_ids_unique(s) {
            assert(match_ids_unique(t)) by {
                assert forall|x: int, y: int|
                    0 <= x < y < t.len() implies t[x].channel_id != t[y].channel_id by {
                    assert(t[x] == s[x + 1] && t[y] == s[y + 1]);
                }
            }
        }
        if s[0].channel_id == channel_id {
            assert(s.contains(s[0])) by {
                assert(s[0] == s[0]);
            }
            assert(remove_match_seq(s, channel_id) == remove_match_seq(t, channel_id));
        } else {
            let r = seq![s[0]] + remove_match_seq(t, channel_id);
            assert(remove_match_seq(s, channel_id) == r);
            let rt = remove_match_seq(t, channel_id);
            assert forall|x: MatchRecord|
                #![trigger remove_match_seq(s, channel_id).contains(x)]
                r.contains(x) == (s.contains(x) && x.channel_id != channel_id) by {
                if r.contains(x) {
                    let k = choose|k: int| 0 <= k < r.len() && r[k] == x;
                    if k == 0 {
                        assert(x == s[0]);
                        assert(s.contains(x)) by {
                            assert(s[0] == x);
                        }
                    } else {
                        assert(rt[k - 1] == x);
                        assert(remove_match_seq(t, channel_id).contains(x));
                        assert(t.contains(x) && x.channel_id != channel_id);
                        assert(s.contains(x));
                    }
                }
                if s.contains(x) && x.channel_id != channel_id {
                    if s[0] == x {
                        assert(r[0] == x);
                        assert(r.contains(x));
                    } else {
                        assert(t.contains(x));
                        assert(remove_match_seq(t, channel_id).contains(x));
                        let k = choose|k: int| 0 <= k < rt.len() && rt[k] == x;
                        assert(r[k + 1] == x);
                        assert(r.contains(x));
                    }
                }
            }
            if match_ids_unique(s) {
                assert(match_ids_unique(r)) by {
                    assert forall|x: int, y: int|
                        0 <= x < y < r.len() implies r[x].channel_id != r[y].channel_id by {
                        let rt = remove_match_seq(t, channel_id);
                        if x == 0 {
                            assert(rt.contains(r[y])) by {
                                assert(rt[y - 1] == r[y]);
                            }
                            assert(t.contains(r[y]));
                            let k = choose|k: int| 0 <= k < t.len() && t[k] == r[y];
                            assert(s[k + 1] == t[k]);
                        } else {
                            assert(rt[x - 1].channel_id != rt[y - 1].channel_id);
                        }
                    }
                }
            }
        }
    }
}

/// A hit of the session lookup is the queue set of one of the registered
/// sessions, under the looked-up identifier.
pub(crate) proof fn lemma_lookup_session_props(s: Seq<Session>, sid: u64)
    ensures
        match lookup_session(s, sid) {
            Some(q) => exists|i: int|
                0 <= i < s.len() && (#[trigger] s[i]).id == sid && s[i].queues@ == q,
            None => true,
        },
    decreases s.len(),
{
    if s.len() > 0 {
        if s[0].id == sid {
            assert(s[0].id == sid && s[0].queues@ == s[0].queues@);
        } else {
            let t = s.skip(1);
            lemma_lookup_session_props(t, sid);
            if lookup_session(t, sid) is Some {
                let q = lookup_session(t, sid)->0;
                let k = choose|k: int|
                    0 <= k < t.len() && (#[trigger] t[k]).id == sid && t[k].queues@ == q;
                assert(s[k + 1].id == sid && s[k + 1].queues@ == q);
            }
        }
    }
}

/// A hit of the match lookup is a record of the store, under the looked-up
/// identifier.
pub(crate) proof fn lemma_lookup_match_props(s: Seq<MatchRecord>, channel_id: u64)
    ensures
        match lookup_match(s, channel_id) {
            Some(rec) => s.contains(rec) && rec.channel_id == channel_id,
            None => true,
        },
    decreases s.len(),
{
    if s.len() > 0 {
        if s[0].channel_id == channel_id {
            assert(s.contains(s[0])) by {
                assert(s[0] == s[0]);
            }
        } else {
            let t = s.skip(1);
            lemma_lookup_match_props(t, channel_id);
            if lookup_match(t, channel_id) is Some {
                let rec = lookup_match(t, channel_id)->0;
                let k = choose|k: int| 0 <= k < t.len() && t[k] == rec;
                assert(s[k + 1] == rec);
                assert(s.contains(rec));
            }
        }
    }
}

/// Exact effect of a join request. The participant is rejected if already
/// waiting in any session's queues — a participant belongs to at most one
/// session system-wide — or active in a match; otherwise the arrival is
/// appended to the requested role queue and the completed group, if any, is
/// drafted out. Only the named session moves; the store and the ledger
/// never move.
pub open spec fn join_post(
    pre: Bot,
    post: Bot,
    session_id: u64,
    role: Role,
    user: u64,
    r: JoinOutcome,
) -> bool {
    let qv = session_or_empty(pre.queues@, session_id);
    if queued_somewhere(pre.queues@, user) {
        r == JoinOutcome::AlreadyQueued && post == pre
    } else if pre.spec_is_active(user) {
        r == JoinOutcome::AlreadyInActiveMatch && post == pre
    } else {
        &&& r == (if qv.join_forms(role) {
            JoinOutcome::GroupFormed(qv.drafted(role, user))
        } else {
            JoinOutcome::Joined
        })
        &&& lookup_session(post.queues@, session_id) == Some(qv.after_join(role, user))
        &&& (forall|v: u64|
            v != session_id ==> lookup_session(post.queues@, v) == lookup_session(pre.queues@, v))
        &&& post.threads@ == pre.threads@
        &&& post.users@ == pre.users@
    }
}

/// Exact effect of a leave request: the participant's entry leaves the
/// named session's queues if present; a participant who was not queued is
/// answered `NotQueued` and nothing moves.
pub open spec fn leave_post(pre: Bot, post: Bot, session_id: u64, user: u64, r: LeaveOutcome) -> bool {
    match lookup_session(pre.queues@, session_id) {
        None => r == LeaveOutcome::NotQueued && post == pre,
        Some(qv) => if qv.has(user) {
            &&& r == LeaveOutcome::Removed
            &&& lookup_session(post.queues@, session_id) == Some(qv.remove_user(user))
            &&& (forall|v: u64|
                v != session_id ==> lookup_session(post.queues@, v) == lookup_session(
                    pre.queues@,
                    v,
                ))
            &&& post.threads@ == pre.threads@
            &&& post.users@ == pre.users@
        } else {
            r == LeaveOutcome::NotQueued && post == pre
        },
    }
}

/// Whether settlement writes this participant's ledger entry: every member
/// of a symmetric match, only the distinguished third slot of an asymmetric
/// one.
pub open spec fn settle_touches(rec: MatchRecord, v: u64) -> bool {
    match rec.mode {
        Mode::Symmetric => rec.has_member(v),
        Mode::Asymmetric => v == rec.user3,
    }
}

/// The reputation delta settlement grants a touched participant: one in a
/// symmetric match, two for the third slot of an asymmetric one.
pub open spec fn settle_delta(rec: MatchRecord) -> int {
    match rec.mode {
        Mode::Symmetric => 1,
        Mode::Asymmetric => 2,
    }
}

/// Exact effect of a conclusion signal. A missing record makes the signal a
/// no-op; a confirmation by a non-member is rejected; otherwise the deltas
/// of the match's mode are applied to the ledger and the record is removed.
pub open spec fn conclude_post(
    pre: Bot,
    post: Bot,
    channel_id: u64,
    acting: Option<u64>,
    r: SettlementOutcome,
) -> bool {
    match lookup_match(pre.threads@, channel_id) {
        None => r == SettlementOutcome::NoSuchMatch && post == pre,
        Some(rec) => {
            let authorized = match acting {
                Some(u) => rec.has_member(u),
                None => true,
            };
            if authorized {
                &&& r == SettlementOutcome::Settled(rec.mode)
                &&& post.queues@ == pre.queues@
                &&& post.threads@ == remove_match_seq(pre.threads@, channel_id)
                &&& (forall|v: u64|
                    lookup_rep(post.users@, v) == (if settle_touches(rec, v) {
                        Some(clamp_i32(rep_or_zero(pre.users@, v) + settle_delta(rec)) as i32)
                    } else {
                        lookup_rep(pre.users@, v)
                    }))
            } else {
                r == SettlementOutcome::Unauthorized && post == pre
            }
        },
    }
}

/// Signed addition held to the `i32` range.
pub open spec fn clamp_i32(x: int) -> int {
    if x > i32::MAX as int {
        i32::MAX as int
    } else if x < i32::MIN as int {
        i32::MIN as int
    } else {
        x
    }
}

/// Add a signed delta to a score, held to the `i32` range.
fn clamped_add(cur: i32, change: i32) -> (r: i32)
    ensures
        r as int == clamp_i32(cur as int + change as int),
{
    let s: i64 = cur as i64 + change as i64;
    if s > i32::MAX as i64 {
        i32::MAX
    } else if s < i32::MIN as i64 {
        i32::MIN
    } else {
        s as i32
    }
}

/// Index of the first session with this identifier, if any.
fn find_session(sessions: &Vec<Session>, sid: u64) -> (r: Option<usize>)
    ensures
        match r {
            Some(i) => i < sessions@.len() && sessions@[i as int].id == sid && (forall|j: int|
                0 <= j < i ==> (#[trigger] sessions@[j]).id != sid),
            None => forall|j: int|
                0 <= j < sessions@.len() ==> (#[trigger] sessions@[j]).id != sid,
        },
{
    let mut i: usize = 0;
    while i < sessions.len()
        invariant
            i <= sessions@.len(),
            forall|j: int| 0 <= j < i ==> (#[trigger] sessions@[j]).id != sid,
        decreases sessions@.len() - i,
    {
        if sessions[i].id == sid {
            return Some(i);
        }
        i = i + 1;
    }
    None
}

/// Whether any registered session's queues hold this participant.
fn find_queued(sessions: &Vec<Session>, user: u64) -> (r: bool)
    ensures
        r == queued_somewhere(sessions@, user),
{
    let mut i: usize = 0;
    while i < sessions.len()
        invariant
            i <= sessions@.len(),
            forall|j: int| 0 <= j < i ==> !(#[trigger] sessions@[j].queues@.has(user)),
        decreases sessions@.len() - i,
    {
        if sessions[i].queues.contains(user) {
            proof {
                assert(sessions@[i as int].queues@.has(user));
            }
            return true;
        }
        i = i + 1;
    }
    false
}

/// Index of the first match record under this channel identifier, if any.
fn find_match(threads: &Vec<MatchRecord>, channel_id: u64) -> (r: Option<usize>)
    ensures
        match r {
            Some(i) => i < threads@.len() && threads@[i as int].channel_id == channel_id && (
            forall|j: int| 0 <= j < i ==> (#[trigger] threads@[j]).channel_id != channel_id),
            None => forall|j: int|
                0 <= j < threads@.len() ==> (#[trigger] threads@[j]).channel_id != channel_id,
        },
{
    let mut i: usize = 0;
    while i < threads.len()
        invariant
            i <= threads@.len(),
            forall|j: int| 0 <= j < i ==> (#[trigger] threads@[j]).channel_id != channel_id,
        decreases threads@.len() - i,
    {
        if threads[i].channel_id == channel_id {
            return Some(i);
        }
        i = i + 1;
    }
    None
}

/// Index of this participant's ledger entry, if any.
fn find_user(users: &Vec<UserRep>, user_id: u64) -> (r: Option<usize>)
    ensures
        match r {
            Some(i) => i < users@.len() && users@[i as int].user_id == user_id && (forall|j: int|
                0 <= j < i ==> (#[trigger] users@[j]).user_id != user_id),
            None => forall|j: int|
                0 <= j < users@.len() ==> (#[trigger] users@[j]).user_id != user_id,
        },
{
    let mut i: usize = 0;
    while i < users.len()
        invariant
            i <= users@.len(),
            forall|j: int| 0 <= j < i ==> (#[trigger] users@[j]).user_id != user_id,
        decreases users@.len() - i,
    {
        if users[i].user_id == user_id {
            return Some(i);
        }
        i = i + 1;
    }
    None
}

/// The matchmaking core: the session registry, the membership store of
/// active matches, and the reputation ledger.
pub struct Bot {
    pub queues: Vec<Session>,
    pub threads: Vec<MatchRecord>,
    pub users: Vec<UserRep>,
}

impl Bot {
    /// Engine invariant: identifiers are unique in each collection, every
    /// session's queues satisfy the queue-set invariant, no participant
    /// waits in two sessions at once, and every active match holds three
    /// distinct participants.
    pub open spec fn wf(&self) -> bool {
        &&& session_ids_unique(self.queues@)
        &&& (forall|i: int|
            0 <= i < self.queues@.len() ==> (#[trigger] self.queues@[i]).queues@.wf())
        &&& sessions_disjoint(self.queues@)
        &&& match_ids_unique(self.threads@)
        &&& (forall|i: int| 0 <= i < self.threads@.len() ==> (#[trigger] self.threads@[i]).wf())
        &&& user_ids_unique(self.users@)
    }

    /// The identifier names an active match or one of its members, so any
    /// join attempt for it must be rejected.
    pub open spec fn spec_is_active(&self, id: u64) -> bool {
        exists|i: int| 0 <= i < self.threads@.len() && (#[trigger] self.threads@[i]).involves(id)
    }

    /// A core with no sessions, no active matches and an empty ledger.
    pub fn new() -> (bot: Bot)
        ensures
            bot.wf(),
            bot.queues@.len() == 0,
            bot.threads@.len() == 0,
            bot.users@.len() == 0,
    {
        Bot { queues: Vec::new(), threads: Vec::new(), users: Vec::new() }
    }

    /// Whether the identifier is currently bound to an active match, either
    /// as the match's channel or as one of its members.
    pub fn is_thread(&self, id: u64) -> (r: bool)
        ensures
            r == self.spec_is_active(id),
    {
        let mut i: usize = 0;
        while i < self.threads.len()
            invariant
                i <= self.threads@.len(),
                forall|j: int| 0 <= j < i ==> !(#[trigger] self.threads@[j]).involves(id),
            decreases self.threads@.len() - i,
        {
            let t = self.threads[i];
            if t.channel_id == id || t.user1 == id || t.user2 == id || t.user3 == id {
                proof {
                    assert(self.threads@[i as int].involves(id));
                }
                return true;
            }
            i = i + 1;
        }
        false
    }

    /// This participant's ledger score, if one was ever written.
    pub fn get_rep(&self, user_id: u64) -> (r: Option<i32>)
        ensures
            r == lookup_rep(self.users@, user_id),
    {
        match find_user(&self.users, user_id) {
            Some(i) => {
                proof {
                    lemma_lookup_rep_at(self.users@, i as int);
                }
                Some(self.users[i].rep)
            },
            None => {
                proof {
                    lemma_lookup_rep_absent(self.users@, user_id);
                }
                None
            },
        }
    }

    /// Apply a signed reputation delta: the participant's score starts at
    /// zero on first write and moves by `change`, held to the `i32` range.
    /// No other ledger entry moves, and nothing else of the core changes.
    pub fn update_user(&mut self, user_id: u64, change: i32)
        requires
            old(self).wf(),
        ensures
            final(self).wf(),
            final(self).queues@ == old(self).queues@,
            final(self).threads@ == old(self).threads@,
            forall|v: u64|
                lookup_rep(final(self).users@, v) == (if v == user_id {
                    Some(clamp_i32(rep_or_zero(old(self).users@, user_id) + change as int) as i32)
                } else {
                    lookup_rep(old(self).users@, v)
                }),
    {
        match find_user(&self.users, user_id) {
            Some(i) => {
                proof {
                    lemma_lookup_rep_at(self.users@, i as int);
                }
                let cur = self.users[i].rep;
                let nr = clamped_add(cur, change);
                let e = UserRep { user_id, rep: nr };
                self.users[i] = e;
                proof {
                    assert(self.users@ == old(self).users@.update(i as int, e));
                    assert forall|v: u64|
                        lookup_rep(self.users@, v) == (if v == user_id {
                            Some(
                                clamp_i32(
                                    rep_or_zero(old(self).users@, user_id) + change as int,
                                ) as i32,
                            )
                        } else {
                            lookup_rep(old(self).users@, v)
                        }) by {
                        lemma_lookup_rep_update(old(self).users@, i as int, e, v);
                    }
                    assert(user_ids_unique(self.users@)) by {
                        assert forall|x: int, y: int|
                            0 <= x < y < self.users@.len() implies (#[trigger] self.users@[x]).user_id
                            != (#[trigger] self.users@[y]).user_id by {
                            assert(old(self).users@[x].user_id != old(self).users@[y].user_id);
                        }
                    }
                }
            },
            None => {
                proof {
                    lemma_lookup_rep_absent(self.users@, user_id);
                }
                let nr = clamped_add(0, change);
                let e = UserRep { user_id, rep: nr };
                self.users.push(e);
                proof {
                    assert forall|v: u64|
                        lookup_rep(self.users@, v) == (if v == user_id {
                            Some(
                                clamp_i32(
                                    rep_or_zero(old(self).users@, user_id) + change as int,
                                ) as i32,
                            )
                        } else {
                            lookup_rep(old(self).users@, v)
                        }) by {
                        lemma_lookup_rep_push(old(self).users@, e, v);
                    }
                    assert(user_ids_unique(self.users@)) by {
                        assert forall|x: int, y: int|
                            0 <= x < y < self.users@.len() implies (#[trigger] self.users@[x]).user_id
                            != (#[trigger] self.users@[y]).user_id by {
                            if y < self.users@.len() - 1 {
                                assert(old(self).users@[x].user_id != old(self).users@[y].user_id);
                            } else {
                                assert(old(self).users@[x].user_id != user_id);
                            }
                        }
                    }
                }
            },
        }
    }

    /// Commit a formed group as an active match. The caller supplies the
    /// communication channel's identifier; the store refuses a second match
    /// under the same identifier and otherwise appends the record, making
    /// the three participants active.
    pub fn insert_thread(
        &mut self,
        channel_id: u64,
        user1: u64,
        user2: u64,
        user3: u64,
        mode: Mode,
    ) -> (r: Result<(), Conflict>)
        requires
            old(self).wf(),
            user1 != user2,
            user1 != user3,
            user2 != user3,
        ensures
            final(self).wf(),
            final(self).queues@ == old(self).queues@,
            final(self).users@ == old(self).users@,
            match lookup_match(old(self).threads@, channel_id) {
                Some(_) => r == Err::<(), Conflict>(Conflict) && final(self).threads@ == old(
                    self,
                ).threads@,
                None => r == Ok::<(), Conflict>(()) && final(self).threads@ == old(
                    self,
                ).threads@.push(MatchRecord { channel_id, user1, user2, user3, mode }),
            },
    {
        match find_match(&self.threads, channel_id) {
            Some(i) => {
                proof {
                    lemma_lookup_match_at(self.threads@, i as int);
                }
                Err(Conflict)
            },
            None => {
                proof {
                    lemma_lookup_match_absent(self.threads@, channel_id);
                }
                let rec = MatchRecord { channel_id, user1, user2, user3, mode };
                self.threads.push(rec);
                proof {
                    assert(match_ids_unique(self.threads@)) by {
                        assert forall|x: int, y: int|
                            0 <= x < y < self.threads@.len() implies (#[trigger] self.threads@[x]).channel_id
                            != (#[trigger] self.threads@[y]).channel_id by {
                            if y < self.threads@.len() - 1 {
                                assert(old(self).threads@[x].channel_id != old(
                                    self,
                                ).threads@[y].channel_id);
                            } else {
                                assert(old(self).threads@[x].channel_id != channel_id);
                            }
                        }
                    }
                    assert forall|i: int|
                        0 <= i < self.threads@.len() implies (#[trigger] self.threads@[i]).wf() by {
                        if i < self.threads@.len() - 1 {
                            assert(old(self).threads@[i].wf());
                        }
                    }
                }
                Ok(())
            },
        }
    }

    /// Drop the match record behind this channel identifier, freeing its
    /// participants to queue again. A second call for the same identifier,
    /// or one for an identifier that was never committed, changes nothing.
    pub fn remove_thread(&mut self, channel_id: u64)
        requires
            old(self).wf(),
        ensures
            final(self).wf(),
            final(self).queues@ == old(self).queues@,
            final(self).users@ == old(self).users@,
            final(self).threads@ == remove_match_seq(old(self).threads@, channel_id),
    {
        let ghost orig = self.threads@;
        let mut kept: Vec<MatchRecord> = Vec::new();
        let mut i: usize = 0;
        proof {
            assert(orig.skip(0) =~= orig);
        }
        while i < self.threads.len()
            invariant
                i <= orig.len(),
                self.threads@ == orig,
                kept@ + remove_match_seq(orig.skip(i as int), channel_id) == remove_match_seq(
                    orig,
                    channel_id,
                ),
            decreases orig.len() - i,
        {
            let ghost prev = kept@;
            let t = self.threads[i];
            if t.channel_id != channel_id {
                kept.push(t);
            }
            proof {
                let rest = orig.skip(i as int);
                assert(rest[0] == orig[i as int]);
                assert(rest.skip(1) =~= orig.skip(i + 1));
                if orig[i as int].channel_id != channel_id {
                    assert(kept@ =~= prev + seq![rest[0]]);
                    assert(prev + (seq![rest[0]] + remove_match_seq(rest.skip(1), channel_id))
                        =~= (prev + seq![rest[0]]) + remove_match_seq(rest.skip(1), channel_id));
                }
            }
            i = i + 1;
        }
        proof {
            assert(orig.skip(i as int) =~= Seq::empty());
            assert(kept@ + remove_match_seq(orig.skip(i as int), channel_id) =~= kept@);
        }
        self.threads = kept;
        proof {
            lemma_remove_match_keeps(orig, channel_id);
            assert forall|k: int|
                0 <= k < self.threads@.len() implies (#[trigger] self.threads@[k]).wf() by {
                let x = self.threads@[k];
                assert(remove_match_seq(orig, channel_id).contains(x)) by {
                    assert(remove_match_seq(orig, channel_id)[k] == x);
                }
                assert(orig.contains(x));
                let w = choose|w: int| 0 <= w < orig.len() && orig[w] == x;
                assert(old(self).threads@[w].wf());
            }
        }
    }

    /// Create (or reset to empty) the queue set of a session, keyed by the
    /// identifier of the message that hosts its controls.
    pub fn register_session(&mut self, session_id: u64)
        requires
            old(self).wf(),
        ensures
            final(self).wf(),
            final(self).threads@ == old(self).threads@,
            final(self).users@ == old(self).users@,
            lookup_session(final(self).queues@, session_id) == Some(QueuesView::empty()),
            forall|v: u64|
                v != session_id ==> lookup_session(final(self).queues@, v) == lookup_session(
                    old(self).queues@,
                    v,
                ),
    {
        let e = Session { id: session_id, queues: CombinedQueues::new() };
        match find_session(&self.queues, session_id) {
            Some(i) => {
                self.queues[i] = e;
                proof {
                    assert(self.queues@ == old(self).queues@.update(i as int, e));
                    assert forall|v: u64|
                        lookup_session(self.queues@, v) == (if v == session_id {
                            Some(QueuesView::empty())
                        } else {
                            lookup_session(old(self).queues@, v)
                        }) by {
                        lemma_lookup_session_update(old(self).queues@, i as int, e, v);
                    }
                    assert(session_ids_unique(self.queues@)) by {
                        assert forall|x: int, y: int|
                            0 <= x < y < self.queues@.len() implies (#[trigger] self.queues@[x]).id
                            != (#[trigger] self.queues@[y]).id by {
                            assert(old(self).queues@[x].id != old(self).queues@[y].id);
                        }
                    }
                    assert forall|k: int|
                        0 <= k < self.queues@.len() implies (#[trigger] self.queues@[k]).queues@.wf() by {
                        if k != i as int {
                            assert(old(self).queues@[k].queues@.wf());
                        }
                    }
                    assert(sessions_disjoint(self.queues@)) by {
                        let fin = self.queues@;
                        assert forall|x: int, y: int, u2: u64|
                            0 <= x < fin.len() && 0 <= y < fin.len() && x != y && (
                            #[trigger] fin[x].queues@.has(u2)) implies !(
                        #[trigger] fin[y].queues@.has(u2)) by {
                            if x == i as int {
                                assert(fin[x].queues@ == QueuesView::empty());
                            } else {
                                assert(fin[x] == old(self).queues@[x]);
                                if y == i as int {
                                    assert(fin[y].queues@ == QueuesView::empty());
                                } else {
                                    assert(fin[y] == old(self).queues@[y]);
                                    assert(old(self).queues@[x].queues@.has(u2));
                                }
                            }
                        }
                    }
                }
            },
            None => {
                self.queues.push(e);
                proof {
                    lemma_lookup_session_absent(old(self).queues@, session_id);
                    assert forall|v: u64|
                        lookup_session(self.queues@, v) == (if v == session_id {
                            Some(QueuesView::empty())
                        } else {
                            lookup_session(old(self).queues@, v)
                        }) by {
                        lemma_lookup_session_push(old(self).queues@, e, v);
                    }
                    assert(session_ids_unique(self.queues@)) by {
                        assert forall|x: int, y: int|
                            0 <= x < y < self.queues@.len() implies (#[trigger] self.queues@[x]).id
                            != (#[trigger] self.queues@[y]).id by {
                            if y < self.queues@.len() - 1 {
                                assert(old(self).queues@[x].id != old(self).queues@[y].id);
                            } else {
                                assert(old(self).queues@[x].id != session_id);
                            }
                        }
                    }
                    assert forall|k: int|
                        0 <= k < self.queues@.len() implies (#[trigger] self.queues@[k]).queues@.wf() by {
                        if k < self.queues@.len() - 1 {
                            assert(old(self).queues@[k].queues@.wf());
                        }
                    }
                    assert(sessions_disjoint(self.queues@)) by {
                        let fin = self.queues@;
                        assert forall|x: int, y: int, u2: u64|
                            0 <= x < fin.len() && 0 <= y < fin.len() && x != y && (
                            #[trigger] fin[x].queues@.has(u2)) implies !(
                        #[trigger] fin[y].queues@.has(u2)) by {
                            if x == fin.len() - 1 {
                                assert(fin[x].queues@ == QueuesView::empty());
                            } else {
                                assert(fin[x] == old(self).queues@[x]);
                                if y == fin.len() - 1 {
                                    assert(fin[y].queues@ == QueuesView::empty());
                                } else {
                                    assert(fin[y] == old(self).queues@[y]);
                                    assert(old(self).queues@[x].queues@.has(u2));
                                }
                            }
                        }
                    }
                }
            },
        }
    }

    /// The active match behind this channel identifier, if any.
    pub fn get_thread(&self, channel_id: u64) -> (r: Option<MatchRecord>)
        ensures
            r == lookup_match(self.threads@, channel_id),
    {
        match find_match(&self.threads, channel_id) {
            Some(i) => {
                proof {
                    lemma_lookup_match_at(self.threads@, i as int);
                }
                Some(self.threads[i])
            },
            None => {
                proof {
                    lemma_lookup_match_absent(self.threads@, channel_id);
                }
                None
            },
        }
    }

    /// The lengths of the named session's three role queues, in role order;
    /// a session that was never created reads as empty.
    pub fn queue_lengths(&self, session_id: u64) -> (r: (usize, usize, usize))
        ensures
            ({
                let qv = session_or_empty(self.queues@, session_id);
                r.0 == qv.a.len() && r.1 == qv.b.len() && r.2 == qv.c.len()
            }),
    {
        match find_session(&self.queues, session_id) {
            Some(i) => {
                proof {
                    lemma_lookup_session_at(self.queues@, i as int);
                }
                self.queues[i].queues.lengths()
            },
            None => {
                proof {
                    lemma_lookup_session_absent(self.queues@, session_id);
                }
                (0, 0, 0)
            },
        }
    }

    /// Serve a join request end-to-end: create the session lazily, reject a
    /// participant who is already waiting here or active in a match, and
    /// otherwise enqueue the arrival and draft the completed group, if any.
    /// A rejected request changes nothing.
    pub fn join(&mut self, session_id: u64, role: Role, user: u64) -> (r: JoinOutcome)
        requires
            old(self).wf(),
        ensures
            final(self).wf(),
            join_post(*old(self), *final(self), session_id, role, user, r),
    {
        if find_queued(&self.queues, user) {
            return JoinOutcome::AlreadyQueued;
        }
        if self.is_thread(user) {
            return JoinOutcome::AlreadyInActiveMatch;
        }
        let idx = find_session(&self.queues, session_id);
        proof {
            match idx {
                Some(i) => lemma_lookup_session_at(self.queues@, i as int),
                None => lemma_lookup_session_absent(self.queues@, session_id),
            }
        }
        let ghost qv = session_or_empty(old(self).queues@, session_id);
        let i: usize = match idx {
            Some(i) => i,
            None => {
                let n = self.queues.len();
                self.queues.push(Session { id: session_id, queues: CombinedQueues::new() });
                proof {
                    assert(session_ids_unique(self.queues@)) by {
                        assert forall|x: int, y: int|
                            0 <= x < y < self.queues@.len() implies (#[trigger] self.queues@[x]).id
                            != (#[trigger] self.queues@[y]).id by {
                            if y < self.queues@.len() - 1 {
                                assert(old(self).queues@[x].id != old(self).queues@[y].id);
                            } else {
                                assert(old(self).queues@[x].id != session_id);
                            }
                        }
                    }
                    assert forall|v: u64|
                        v != session_id implies lookup_session(self.queues@, v) == lookup_session(
                        old(self).queues@,
                        v,
                    ) by {
                        lemma_lookup_session_push(
                            old(self).queues@,
                            self.queues@[n as int],
                            v,
                        );
                    }
                }
                n
            },
        };
        let ghost mid = self.queues@;
        proof {
            assert(mid[i as int].id == session_id);
            assert(mid[i as int].queues@ == qv);
            assert(session_ids_unique(mid)) by {
                if idx is Some {
                    assert(self.queues@ == old(self).queues@);
                }
            }
            assert(qv.wf()) by {
                if idx is None {
                    assert(QueuesView::empty().wf());
                }
            }
            assert(forall|v: u64|
                v != session_id ==> lookup_session(mid, v) == lookup_session(
                    old(self).queues@,
                    v,
                ));
            assert forall|j: int| 0 <= j < mid.len() implies !(#[trigger] mid[j].queues@.has(
                user,
            )) by {
                if idx is None && j == mid.len() - 1 {
                    assert(mid[j].queues@ == QueuesView::empty());
                } else {
                    assert(mid[j] == old(self).queues@[j]);
                    assert(!old(self).queues@[j].queues@.has(user));
                }
            }
            assert(!qv.has(user));
            assert(sessions_disjoint(mid)) by {
                assert forall|x: int, y: int, u2: u64|
                    0 <= x < mid.len() && 0 <= y < mid.len() && x != y && (
                    #[trigger] mid[x].queues@.has(u2)) implies !(#[trigger] mid[y].queues@.has(
                    u2,
                )) by {
                    if idx is None && x == mid.len() - 1 {
                        assert(mid[x].queues@ == QueuesView::empty());
                    } else {
                        assert(mid[x] == old(self).queues@[x]);
                        if idx is None && y == mid.len() - 1 {
                            assert(mid[y].queues@ == QueuesView::empty());
                        } else {
                            assert(mid[y] == old(self).queues@[y]);
                            assert(old(self).queues@[x].queues@.has(u2));
                        }
                    }
                }
            }
        }
        let sref = vstd::std_specs::vec::vec_index_mut(&mut self.queues, i);
        let out = sref.queues.join_role(role, user);
        proof {
            let e = self.queues@[i as int];
            assert(self.queues@ == mid.update(i as int, e));
            assert(e.id == session_id);
            assert(e.queues@ == qv.after_join(role, user));
            assert forall|v: u64|
                v != session_id implies lookup_session(self.queues@, v) == lookup_session(
                old(self).queues@,
                v,
            ) by {
                lemma_lookup_session_update(mid, i as int, e, v);
            }
            assert(lookup_session(self.queues@, session_id) == Some(qv.after_join(role, user)))
                by {
                lemma_lookup_session_update(mid, i as int, e, session_id);
            }
            assert(session_ids_unique(self.queues@)) by {
                assert forall|x: int, y: int|
                    0 <= x < y < self.queues@.len() implies (#[trigger] self.queues@[x]).id != (
                    #[trigger] self.queues@[y]).id by {
                    assert(mid[x].id != mid[y].id);
                }
            }
            assert forall|k: int|
                0 <= k < self.queues@.len() implies (#[trigger] self.queues@[k]).queues@.wf() by {
                if k != i as int {
                    assert(mid[k] == self.queues@[k]);
                    if idx is Some {
                        assert(old(self).queues@[k].queues@.wf());
                    } else {
                        if k < mid.len() - 1 {
                            assert(old(self).queues@[k].queues@.wf());
                        }
                    }
                }
            }
            crate::queues::lemma_after_join_members(qv, role, user);
            assert(sessions_disjoint(self.queues@)) by {
                let fin = self.queues@;
                assert forall|x: int, y: int, u2: u64|
                    0 <= x < fin.len() && 0 <= y < fin.len() && x != y && (
                    #[trigger] fin[x].queues@.has(u2)) implies !(#[trigger] fin[y].queues@.has(
                    u2,
                )) by {
                    if x == i as int {
                        assert(fin[x].queues@ == qv.after_join(role, user));
                        assert(fin[y] == mid[y]);
                        if u2 == user {
                            assert(!mid[y].queues@.has(user));
                        } else {
                            assert(qv.has(u2));
                            assert(mid[i as int].queues@.has(u2));
                            assert(!mid[y].queues@.has(u2));
                        }
                    } else if y == i as int {
                        assert(fin[x] == mid[x]);
                        assert(mid[x].queues@.has(u2));
                        assert(!qv.after_join(role, user).has(u2)) by {
                            if qv.after_join(role, user).has(u2) {
                                if u2 == user {
                                    assert(!mid[x].queues@.has(user));
                                } else {
                                    assert(qv.has(u2));
                                    assert(mid[i as int].queues@.has(u2));
                                    assert(!mid[x].queues@.has(u2));
                                }
                            }
                        }
                    } else {
                        assert(fin[x] == mid[x] && fin[y] == mid[y]);
                        assert(mid[x].queues@.has(u2));
                        assert(!mid[y].queues@.has(u2));
                    }
                }
            }
        }
        match out {
            Some(g) => JoinOutcome::GroupFormed(g),
            None => JoinOutcome::Joined,
        }
    }

    /// Serve a leave request: remove the participant from whichever role
    /// queue of the named session holds them. Leaving when not queued is a
    /// no-op answered `NotQueued`, never an error.
    pub fn leave(&mut self, session_id: u64, user: u64) -> (r: LeaveOutcome)
        requires
            old(self).wf(),
        ensures
            final(self).wf(),
            leave_post(*old(self), *final(self), session_id, user, r),
    {
        let idx = match find_session(&self.queues, session_id) {
            None => {
                proof {
                    lemma_lookup_session_absent(self.queues@, session_id);
                }
                return LeaveOutcome::NotQueued;
            },
            Some(i) => i,
        };
        proof {
            lemma_lookup_session_at(self.queues@, idx as int);
        }
        let ghost pre_q = self.queues@;
        let ghost qv = pre_q[idx as int].queues@;
        if !self.queues[idx].queues.contains(user) {
            return LeaveOutcome::NotQueued;
        }
        let sref = vstd::std_specs::vec::vec_index_mut(&mut self.queues, idx);
        sref.queues.pop(user);
        proof {
            let e = self.queues@[idx as int];
            assert(self.queues@ == pre_q.update(idx as int, e));
            assert(e.id == session_id);
            assert(e.queues@ == qv.remove_user(user));
            assert(e.queues@.wf());
            assert forall|v: u64|
                v != session_id implies lookup_session(self.queues@, v) == lookup_session(
                pre_q,
                v,
            ) by {
                lemma_lookup_session_update(pre_q, idx as int, e, v);
            }
            assert(lookup_session(self.queues@, session_id) == Some(qv.remove_user(user))) by {
                lemma_lookup_session_update(pre_q, idx as int, e, session_id);
            }
            assert(session_ids_unique(self.queues@)) by {
                assert forall|x: int, y: int|
                    0 <= x < y < self.queues@.len() implies (#[trigger] self.queues@[x]).id != (
                    #[trigger] self.queues@[y]).id by {
                    assert(pre_q[x].id != pre_q[y].id);
                }
            }
            assert forall|k: int|
                0 <= k < self.queues@.len() implies (#[trigger] self.queues@[k]).queues@.wf() by {
                if k != idx as int {
                    assert(pre_q[k] == self.queues@[k]);
                    assert(old(self).queues@[k].queues@.wf());
                }
            }
            crate::queues::lemma_remove_user_seq(qv.a, user);
            crate::queues::lemma_remove_user_seq(qv.b, user);
            crate::queues::lemma_remove_user_seq(qv.c, user);
            assert(sessions_disjoint(self.queues@)) by {
                let fin = self.queues@;
                assert forall|x: int, y: int, u2: u64|
                    0 <= x < fin.len() && 0 <= y < fin.len() && x != y && (
                    #[trigger] fin[x].queues@.has(u2)) implies !(#[trigger] fin[y].queues@.has(
                    u2,
                )) by {
                    if x == idx as int {
                        assert(fin[y] == pre_q[y]);
                        assert(qv.has(u2));
                        assert(pre_q[idx as int].queues@.has(u2));
                        assert(!pre_q[y].queues@.has(u2));
                    } else if y == idx as int {
                        assert(fin[x] == pre_q[x]);
                        assert(pre_q[x].queues@.has(u2));
                        assert(!qv.remove_user(user).has(u2)) by {
                            if qv.remove_user(user).has(u2) {
                                assert(qv.has(u2));
                                assert(pre_q[idx as int].queues@.has(u2));
                                assert(!pre_q[x].queues@.has(u2));
                            }
                        }
                    } else {
                        assert(fin[x] == pre_q[x] && fin[y] == pre_q[y]);
                        assert(pre_q[x].queues@.has(u2));
                        assert(!pre_q[y].queues@.has(u2));
                    }
                }
            }
        }
        LeaveOutcome::Removed
    }

    /// Serve a conclusion signal, whether an explicit confirmation or a
    /// passive archival. A signal for an unknown or already-settled match is
    /// a no-op; a confirmation by a non-member is rejected; otherwise the
    /// reputation deltas of the match's mode are applied exactly once and
    /// the record is removed, freeing its participants.
    pub fn conclude(&mut self, channel_id: u64, acting: Option<u64>) -> (r: SettlementOutcome)
        requires
            old(self).wf(),
        ensures
            final(self).wf(),
            conclude_post(*old(self), *final(self), channel_id, acting, r),
    {
        let rec = match self.get_thread(channel_id) {
            None => {
                return SettlementOutcome::NoSuchMatch;
            },
            Some(rec) => rec,
        };
        match acting {
            Some(u) => {
                if !(rec.user1 == u || rec.user2 == u || rec.user3 == u) {
                    return SettlementOutcome::Unauthorized;
                }
            },
            None => {},
        }
        proof {
            lemma_lookup_match_props(old(self).threads@, channel_id);
            let w = choose|w: int|
                0 <= w < old(self).threads@.len() && old(self).threads@[w] == rec;
            assert(old(self).threads@[w].wf());
        }
        let ghost pre_users = self.users@;
        match rec.mode {
            Mode::Symmetric => {
                self.update_user(rec.user1, 1);
                self.update_user(rec.user2, 1);
                self.update_user(rec.user3, 1);
            },
            Mode::Asymmetric => {
                self.update_user(rec.user3, 2);
            },
        }
        proof {
            assert forall|v: u64|
                lookup_rep(self.users@, v) == (if settle_touches(rec, v) {
                    Some(clamp_i32(rep_or_zero(pre_users, v) + settle_delta(rec)) as i32)
                } else {
                    lookup_rep(pre_users, v)
                }) by {}
        }
        self.remove_thread(channel_id);
        SettlementOutcome::Settled(rec.mode)
    }
}

} // verus!
