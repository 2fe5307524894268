//! Per-session waiting lines and the group-formation policy.
//!
//! A session owns one [`CombinedQueues`]: three ordered role queues. Role A
//! is symmetric (a group forms the instant the queue holds three); roles B
//! and C are asymmetric (a group forms from the two longest-waiting B
//! entries and the single longest-waiting C entry). Formation is checked
//! after every push, so a well-formed queue set never has a formation
//! pending.

use vstd::prelude::*;

verus! {

/// A waiting lane. Role A forms symmetric groups of three on its own; roles
/// B and C together form asymmetric groups of two B entries and one C entry.
#[derive(Clone, Copy, PartialEq, Eq, Structural, Debug)]
pub enum Role {
    A,
    B,
    C,
}

/// How a group was formed, and therefore how it settles.
#[derive(Clone, Copy, PartialEq, Eq, Structural, Debug)]
pub enum Mode {
    Symmetric,
    Asymmetric,
}

/// A drafted group of three participants, in fixed positional order. In
/// asymmetric mode the third slot is the distinguished one that receives the
/// elevated reward at settlement.
#[derive(Clone, Copy, PartialEq, Eq, Structural, Debug)]
pub struct FormedGroup {
    pub first: u64,
    pub second: u64,
    pub third: u64,
    pub mode: Mode,
}

/// No identifier occurs twice in the sequence.
pub open spec fn no_dups(s: Seq<u64>) -> bool {
    forall|i: int, j: int| 0 <= i < j < s.len() ==> s[i] != s[j]
}

/// The two sequences share no identifier.
pub open spec fn disjoint(s: Seq<u64>, t: Seq<u64>) -> bool {
    forall|i: int, j: int| 0 <= i < s.len() && 0 <= j < t.len() ==> s[i] != t[j]
}

/// The sequence with every occurrence of `id` removed, order kept.
pub open spec fn remove_user_seq(s: Seq<u64>, id: u64) -> Seq<u64>
    decreases s.len(),
{
    if s.len() == 0 {
        Seq::empty()
    } else if s[0] == id {
        remove_user_seq(s.skip(1), id)
    } else {
        seq![s[0]] + remove_user_seq(s.skip(1), id)
    }
}

/// What removal keeps: exactly the other identifiers, no more often than
/// before, and a sequence without `id` comes back unchanged.
pub proof fn lemma_remove_user_seq(s: Seq<u64>, id: u64)
    ensures
        forall|x: u64| remove_user_seq(s, id).contains(x) == (s.contains(x) && x != id),
        no_dups(s) ==> no_dups(remove_user_seq(s, id)),
        remove_user_seq(s, id).len() <= s.len(),
        !s.contains(id) ==> remove_user_seq(s, id) == s,
    decreases s.len(),
{
    if s.len() == 0 {
        assert forall|x: u64| remove_user_seq(s, id).contains(x) == (s.contains(x) && x != id) by {
            assert(!s.contains(x));
        }
    } else {
        let t = s.skip(1);
        lemma_remove_user_seq(t, id);
        assert forall|x: u64| s.contains(x) == (s[0] == x || t.contains(x)) by {
            if s.contains(x) {
                let k = choose|k: int| 0 <= k < s.len() && s[k] == x;
                if k > 0 {
                    assert(t[k - 1] == x);
                }
            }
            if t.contains(x) {
                let k = choose|k: int| 0 <= k < t.len() && t[k] == x;
                assert(s[k + 1] == x);
            }
        }
        if no_dups(s) {
            assert(no_dups(t)) by {
                assert forall|i: int, j: int| 0 <= i < j < t.len() implies t[i] != t[j] by {
                    assert(s[i + 1] == t[i] && s[j + 1] == t[j]);
                }
            }
            assert(!t.contains(s[0])) by {
                if t.contains(s[0]) {
                    let k = choose|k: int| 0 <= k < t.len() && t[k] == s[0];
                    assert(s[k + 1] == s[0]);
                }
            }
        }
        if s[0] == id {
            assert(s.contains(id)) by {
                assert(s[0] == id);
            }
        } else {
            let r = seq![s[0]] + remove_user_seq(t, id);
            assert forall|x: u64| r.contains(x) == (s.contains(x) && x != id) by {
                if r.contains(x) {
                    let k = choose|k: int| 0 <= k < r.len() && r[k] == x;
                    if k > 0 {
                        assert(remove_user_seq(t, id)[k - 1] == x);
                        assert(remove_user_seq(t, id).contains(x));
                    }
                }
                if s.contains(x) && x != id {
                    if s[0] == x {
                        assert(r[0] == x);
                    } else {
                        assert(remove_user_seq(t, id).contains(x));
                        let k = choose|k: int|
                            0 <= k < remove_user_seq(t, id).len() && remove_user_seq(t, id)[k]
                                == x;
                        assert(r[k + 1] == x);
                    }
                }
            }
            if no_dups(s) {
                assert(no_dups(r)) by {
                    assert forall|i: int, j: int| 0 <= i < j < r.len() implies r[i] != r[j] by {
                        if i == 0 {
                            assert(remove_user_seq(t, id).contains(r[j])) by {
                                assert(remove_user_seq(t, id)[j - 1] == r[j]);
                            }
                            assert(t.contains(r[j]));
                        } else {
                            assert(remove_user_seq(t, id)[i - 1] != remove_user_seq(t, id)[j - 1]);
                        }
                    }
                }
            }
            if !s.contains(id) {
                assert(!t.contains(id));
                assert(r =~= s) by {
                    assert(remove_user_seq(t, id) == t);
                }
            }
        }
    }
}

/// Identifiers of one sequence never meet those of a disjoint one, even
/// after removals on both sides.
pub proof fn lemma_remove_user_disjoint(s: Seq<u64>, t: Seq<u64>, id: u64)
    requires
        disjoint(s, t),
    ensures
        disjoint(remove_user_seq(s, id), remove_user_seq(t, id)),
{
    lemma_remove_user_seq(s, id);
    lemma_remove_user_seq(t, id);
    let rs = remove_user_seq(s, id);
    let rt = remove_user_seq(t, id);
    assert forall|i: int, j: int|
        0 <= i < rs.len() && 0 <= j < rt.len() implies rs[i] != rt[j] by {
        let x = rs[i];
        assert(rs.contains(x)) by {
            assert(rs[i] == x);
        }
        let y = rt[j];
        assert(rt.contains(y)) by {
            assert(rt[j] == y);
        }
        if x == y {
            assert(s.contains(x));
            assert(t.contains(y));
            let ks = choose|k: int| 0 <= k < s.len() && s[k] == x;
            let kt = choose|k: int| 0 <= k < t.len() && t[k] == y;
            assert(s[ks] != t[kt]);
        }
    }
}

/// The mathematical content of a queue set: the three role queues in
/// arrival order.
#[verifier::ext_equal]
pub struct QueuesView {
    pub a: Seq<u64>,
    pub b: Seq<u64>,
    pub c: Seq<u64>,
}

impl QueuesView {
    /// The participant is waiting in one of the three role queues.
    pub open spec fn has(self, user: u64) -> bool {
        self.a.contains(user) || self.b.contains(user) || self.c.contains(user)
    }

    /// Queue-set invariant: a participant appears in at most one queue, at
    /// most once, and no formation is pending (the symmetric queue drains at
    /// three, and an asymmetric draft fires as soon as two B entries and one
    /// C entry coexist).
    pub open spec fn wf(self) -> bool {
        &&& no_dups(self.a)
        &&& no_dups(self.b)
        &&& no_dups(self.c)
        &&& disjoint(self.a, self.b)
        &&& disjoint(self.a, self.c)
        &&& disjoint(self.b, self.c)
        &&& self.a.len() <= 2
        &&& (self.b.len() <= 1 || self.c.len() == 0)
    }

    /// The view of a freshly created queue set.
    pub open spec fn empty() -> Self {
        QueuesView { a: Seq::empty(), b: Seq::empty(), c: Seq::empty() }
    }

    /// The queue set after a participant leaves: every queue keeps its
    /// order, with the participant's entry gone.
    pub open spec fn remove_user(self, id: u64) -> Self {
        QueuesView {
            a: remove_user_seq(self.a, id),
            b: remove_user_seq(self.b, id),
            c: remove_user_seq(self.c, id),
        }
    }

    /// Whether one more arrival into `role` completes a group: the symmetric
    /// queue reaches three, or the asymmetric queues reach two B entries and
    /// one C entry.
    pub open spec fn join_forms(self, role: Role) -> bool {
        match role {
            Role::A => self.a.len() >= 2,
            Role::B => self.b.len() >= 1 && self.c.len() >= 1,
            Role::C => self.b.len() >= 2,
        }
    }

    /// The group drafted when the arrival of `user` into `role` completes
    /// one: longest-waiting entries first, the C entry in the third slot.
    pub open spec fn drafted(self, role: Role, user: u64) -> FormedGroup
        recommends
            self.join_forms(role),
    {
        match role {
            Role::A => FormedGroup {
                first: self.a[0],
                second: self.a[1],
                third: user,
                mode: Mode::Symmetric,
            },
            Role::B => FormedGroup {
                first: self.b[0],
                second: user,
                third: self.c[0],
                mode: Mode::Asymmetric,
            },
            Role::C => FormedGroup {
                first: self.b[0],
                second: self.b[1],
                third: user,
                mode: Mode::Asymmetric,
            },
        }
    }

    /// The queues after the arrival of `user` into `role`: the drafted
    /// entries leave their queues if a group forms, otherwise the arrival is
    /// appended.
    pub open spec fn after_join(self, role: Role, user: u64) -> Self
        recommends
            self.wf(),
    {
        match role {
            Role::A => {
                if self.join_forms(Role::A) {
                    QueuesView { a: Seq::empty(), b: self.b, c: self.c }
                } else {
                    QueuesView { a: self.a.push(user), b: self.b, c: self.c }
                }
            },
            Role::B => {
                if self.join_forms(Role::B) {
                    QueuesView { a: self.a, b: Seq::empty(), c: self.c.skip(1) }
                } else {
                    QueuesView { a: self.a, b: self.b.push(user), c: self.c }
                }
            },
            Role::C => {
                if self.join_forms(Role::C) {
                    QueuesView { a: self.a, b: self.b.skip(2), c: Seq::empty() }
                } else {
                    QueuesView { a: self.a, b: self.b, c: self.c.push(user) }
                }
            },
        }
    }
}

/// Disjointness does not depend on the order of the two sequences.
proof fn lemma_disjoint_sym(s: Seq<u64>, t: Seq<u64>)
    requires
        disjoint(s, t),
    ensures
        disjoint(t, s),
{
    assert forall|i: int, j: int|
        0 <= i < t.len() && 0 <= j < s.len() implies t[i] != s[j] by {
        assert(s[j] != t[i]);
    }
}

/// Appending a fresh identifier keeps a sequence duplicate-free.
proof fn lemma_push_no_dups(s: Seq<u64>, u: u64)
    requires
        no_dups(s),
        !s.contains(u),
    ensures
        no_dups(s.push(u)),
{
    let p = s.push(u);
    assert forall|i: int, j: int| 0 <= i < j < p.len() implies p[i] != p[j] by {
        if j == p.len() - 1 {
            assert(s.contains(s[i])) by {
                assert(s[i] == s[i]);
            }
        }
    }
}

/// Appending an identifier absent from the other sequence keeps the two
/// sequences disjoint.
proof fn lemma_push_disjoint(s: Seq<u64>, t: Seq<u64>, u: u64)
    requires
        disjoint(s, t),
        !t.contains(u),
    ensures
        disjoint(s.push(u), t),
        disjoint(t, s.push(u)),
{
    let p = s.push(u);
    assert forall|i: int, j: int|
        0 <= i < p.len() && 0 <= j < t.len() implies p[i] != t[j] by {
        if i == p.len() - 1 {
            assert(t.contains(t[j])) by {
                assert(t[j] == t[j]);
            }
        }
    }
    assert forall|i: int, j: int|
        0 <= i < t.len() && 0 <= j < p.len() implies t[i] != p[j] by {
        if j == p.len() - 1 {
            assert(t.contains(t[i])) by {
                assert(t[i] == t[i]);
            }
        }
    }
}

/// Dropping leading entries keeps a sequence duplicate-free and keeps it
/// disjoint from any sequence it was disjoint from.
proof fn lemma_skip_keeps(s: Seq<u64>, t: Seq<u64>, n: int)
    requires
        0 <= n <= s.len(),
        no_dups(s),
        disjoint(s, t),
        disjoint(t, s),
    ensures
        no_dups(s.skip(n)),
        disjoint(s.skip(n), t),
        disjoint(t, s.skip(n)),
{
    let k = s.skip(n);
    assert forall|i: int, j: int| 0 <= i < j < k.len() implies k[i] != k[j] by {
        assert(s[i + n] == k[i] && s[j + n] == k[j]);
    }
    assert forall|i: int, j: int|
        0 <= i < k.len() && 0 <= j < t.len() implies k[i] != t[j] by {
        assert(s[i + n] == k[i]);
    }
    assert forall|i: int, j: int|
        0 <= i < t.len() && 0 <= j < k.len() implies t[i] != k[j] by {
        assert(s[j + n] == k[j]);
    }
}

/// Whoever an appended sequence holds was there before or is the appended
/// identifier itself.
proof fn lemma_push_members(s: Seq<u64>, u: u64)
    ensures
        forall|x: u64| #[trigger] s.push(u).contains(x) ==> s.contains(x) || x == u,
{
    assert forall|x: u64| #[trigger] s.push(u).contains(x) implies s.contains(x) || x == u by {
        let k = choose|k: int| 0 <= k < s.push(u).len() && s.push(u)[k] == x;
        if k < s.len() {
            assert(s[k] == x);
        }
    }
}

/// Whoever a shortened sequence holds was in the full one.
proof fn lemma_skip_members(s: Seq<u64>, n: int)
    requires
        0 <= n <= s.len(),
    ensures
        forall|x: u64| #[trigger] s.skip(n).contains(x) ==> s.contains(x),
{
    assert forall|x: u64| #[trigger] s.skip(n).contains(x) implies s.contains(x) by {
        let k = choose|k: int| 0 <= k < s.skip(n).len() && s.skip(n)[k] == x;
        assert(s[k + n] == x);
    }
}

/// Membership after an arrival: whoever waits in the queues afterwards
/// waited before or is the arrival itself.
pub proof fn lemma_after_join_members(qv: QueuesView, role: Role, user: u64)
    ensures
        forall|x: u64| #[trigger] qv.after_join(role, user).has(x) ==> qv.has(x) || x == user,
{
    lemma_push_members(qv.a, user);
    lemma_push_members(qv.b, user);
    lemma_push_members(qv.c, user);
    lemma_skip_members(qv.b, if qv.b.len() >= 2 { 2int } else { 0int });
    lemma_skip_members(qv.c, if qv.c.len() >= 1 { 1int } else { 0int });
}

/// The drafted members of a formed group are out of the queues afterwards.
pub proof fn lemma_after_join_drafted_out(qv: QueuesView, role: Role, user: u64)
    requires
        qv.wf(),
        qv.join_forms(role),
        !qv.has(user),
    ensures
        ({
            let g = qv.drafted(role, user);
            let q2 = qv.after_join(role, user);
            !q2.has(g.first) && !q2.has(g.second) && !q2.has(g.third)
        }),
{
    let g = qv.drafted(role, user);
    let q2 = qv.after_join(role, user);
    lemma_skip_members(qv.b, if qv.b.len() >= 2 { 2int } else { 0int });
    lemma_skip_members(qv.c, if qv.c.len() >= 1 { 1int } else { 0int });
    assert forall|m: u64, k: int|
        0 <= k < qv.a.len() && qv.a[k] == m implies !qv.b.contains(m) && !qv.c.contains(m) by {
        if qv.b.contains(m) {
            let w = choose|w: int| 0 <= w < qv.b.len() && qv.b[w] == m;
            assert(qv.a[k] != qv.b[w]);
        }
        if qv.c.contains(m) {
            let w = choose|w: int| 0 <= w < qv.c.len() && qv.c[w] == m;
            assert(qv.a[k] != qv.c[w]);
        }
    }
    assert forall|m: u64, k: int|
        0 <= k < qv.b.len() && qv.b[k] == m implies !qv.a.contains(m) && !qv.c.contains(m) by {
        if qv.a.contains(m) {
            let w = choose|w: int| 0 <= w < qv.a.len() && qv.a[w] == m;
            assert(qv.a[w] != qv.b[k]);
        }
        if qv.c.contains(m) {
            let w = choose|w: int| 0 <= w < qv.c.len() && qv.c[w] == m;
            assert(qv.b[k] != qv.c[w]);
        }
    }
    assert forall|m: u64, k: int|
        0 <= k < qv.c.len() && qv.c[k] == m implies !qv.a.contains(m) && !qv.b.contains(m) by {
        if qv.a.contains(m) {
            let w = choose|w: int| 0 <= w < qv.a.len() && qv.a[w] == m;
            assert(qv.a[w] != qv.c[k]);
        }
        if qv.b.contains(m) {
            let w = choose|w: int| 0 <= w < qv.b.len() && qv.b[w] == m;
            assert(qv.b[w] != qv.c[k]);
        }
    }
    match role {
        Role::A => {
            assert(qv.a[0] == qv.a[0] && qv.a[1] == qv.a[1]);
        },
        Role::B => {
            // The single B entry leaves; the drafted C head is not in the
            // C tail because the queue holds no duplicates.
            assert(qv.b[0] == qv.b[0] && qv.c[0] == qv.c[0]);
            assert(!qv.c.skip(1).contains(qv.c[0])) by {
                if qv.c.skip(1).contains(qv.c[0]) {
                    let w = choose|w: int|
                        0 <= w < qv.c.skip(1).len() && qv.c.skip(1)[w] == qv.c[0];
                    assert(qv.c[w + 1] == qv.c[0]);
                }
            }
        },
        Role::C => {
            assert(qv.b[0] == qv.b[0] && qv.b[1] == qv.b[1]);
            assert(!qv.b.skip(2).contains(qv.b[0]) && !qv.b.skip(2).contains(qv.b[1])) by {
                if qv.b.skip(2).contains(qv.b[0]) {
                    let w = choose|w: int|
                        0 <= w < qv.b.skip(2).len() && qv.b.skip(2)[w] == qv.b[0];
                    assert(qv.b[w + 2] == qv.b[0]);
                }
                if qv.b.skip(2).contains(qv.b[1]) {
                    let w = choose|w: int|
                        0 <= w < qv.b.skip(2).len() && qv.b.skip(2)[w] == qv.b[1];
                    assert(qv.b[w + 2] == qv.b[1]);
                }
            }
        },
    }
}

/// Leaving preserves the queue-set invariant and takes the participant out
/// of every queue; a queue set the participant was not in stays as it was.
pub proof fn lemma_remove_user_wf(qv: QueuesView, id: u64)
    requires
        qv.wf(),
    ensures
        qv.remove_user(id).wf(),
        !qv.remove_user(id).has(id),
        !qv.has(id) ==> qv.remove_user(id) == qv,
{
    lemma_remove_user_seq(qv.a, id);
    lemma_remove_user_seq(qv.b, id);
    lemma_remove_user_seq(qv.c, id);
    lemma_remove_user_disjoint(qv.a, qv.b, id);
    lemma_remove_user_disjoint(qv.a, qv.c, id);
    lemma_remove_user_disjoint(qv.b, qv.c, id);
    if !qv.has(id) {
        assert(qv.remove_user(id) =~= qv);
    }
}

/// The three role queues of one session, in arrival order.
pub struct CombinedQueues {
    queue_a: Vec<u64>,
    queue_b: Vec<u64>,
    queue_c: Vec<u64>,
}

impl View for CombinedQueues {
    type V = QueuesView;

    closed spec fn view(&self) -> QueuesView {
        QueuesView { a: self.queue_a@, b: self.queue_b@, c: self.queue_c@ }
    }
}

/// True exactly when `x` occurs in the vector.
fn vec_has(v: &Vec<u64>, x: u64) -> (r: bool)
    ensures
        r == v@.contains(x),
{
    let mut i: usize = 0;
    while i < v.len()
        invariant
            i <= v@.len(),
            forall|j: int| 0 <= j < i ==> v@[j] != x,
        decreases v@.len() - i,
    {
        if v[i] == x {
            assert(v@.contains(x)) by {
                assert(v@[i as int] == x);
            }
            return true;
        }
        i = i + 1;
    }
    false
}

impl CombinedQueues {
    /// A queue set with all three queues empty.
    pub fn new() -> (q: CombinedQueues)
        ensures
            q@ == QueuesView::empty(),
            q@.wf(),
    {
        let q = CombinedQueues { queue_a: Vec::new(), queue_b: Vec::new(), queue_c: Vec::new() };
        assert(q@ =~= QueuesView::empty());
        q
    }

    /// The participant is waiting in one of the three role queues.
    pub fn contains(&self, id: u64) -> (r: bool)
        ensures
            r == self@.has(id),
    {
        vec_has(&self.queue_a, id) || vec_has(&self.queue_b, id) || vec_has(&self.queue_c, id)
    }

    /// The lengths of the three role queues, in role order.
    pub fn lengths(&self) -> (r: (usize, usize, usize))
        ensures
            r.0 == self@.a.len() && r.1 == self@.b.len() && r.2 == self@.c.len(),
    {
        (self.queue_a.len(), self.queue_b.len(), self.queue_c.len())
    }

    /// Enqueue `user` into `role`; if this arrival completes a group, the
    /// drafted entries leave their queues and the group is returned.
    pub fn join_role(&mut self, role: Role, user: u64) -> (r: Option<FormedGroup>)
        requires
            old(self)@.wf(),
            !old(self)@.has(user),
        ensures
            final(self)@ == old(self)@.after_join(role, user),
            final(self)@.wf(),
            r == (if old(self)@.join_forms(role) {
                Some(old(self)@.drafted(role, user))
            } else {
                None::<FormedGroup>
            }),
    {
        let ghost pre = self@;
        match role {
            Role::A => {
                if self.queue_a.len() >= 2 {
                    let first = self.queue_a[0];
                    let second = self.queue_a[1];
                    self.queue_a.clear();
                    proof {
                        assert(self@ =~= pre.after_join(Role::A, user));
                    }
                    Some(FormedGroup { first, second, third: user, mode: Mode::Symmetric })
                } else {
                    self.queue_a.push(user);
                    proof {
                        lemma_push_no_dups(pre.a, user);
                        lemma_push_disjoint(pre.a, pre.b, user);
                        lemma_push_disjoint(pre.a, pre.c, user);
                        assert(self@ =~= pre.after_join(Role::A, user));
                    }
                    None
                }
            },
            Role::B => {
                if self.queue_b.len() >= 1 && self.queue_c.len() >= 1 {
                    let first = self.queue_b[0];
                    self.queue_b.clear();
                    let third = self.queue_c.remove(0);
                    proof {
                        assert(pre.c.remove(0) =~= pre.c.skip(1));
                        lemma_disjoint_sym(pre.a, pre.c);
                        lemma_skip_keeps(pre.c, pre.a, 1);
                        assert(self@ =~= pre.after_join(Role::B, user));
                    }
                    Some(FormedGroup { first, second: user, third, mode: Mode::Asymmetric })
                } else {
                    self.queue_b.push(user);
                    proof {
                        lemma_push_no_dups(pre.b, user);
                        lemma_disjoint_sym(pre.a, pre.b);
                        lemma_push_disjoint(pre.b, pre.a, user);
                        lemma_push_disjoint(pre.b, pre.c, user);
                        assert(self@ =~= pre.after_join(Role::B, user));
                    }
                    None
                }
            },
            Role::C => {
                if self.queue_b.len() >= 2 {
                    let first = self.queue_b[0];
                    let second = self.queue_b[1];
                    let _ = self.queue_b.remove(0);
                    let _ = self.queue_b.remove(0);
                    proof {
                        assert(pre.b.remove(0).remove(0) =~= pre.b.skip(2));
                        lemma_disjoint_sym(pre.a, pre.b);
                        lemma_skip_keeps(pre.b, pre.a, 2);
                        assert(pre.c =~= Seq::<u64>::empty());
                        assert(self@ =~= pre.after_join(Role::C, user));
                    }
                    Some(FormedGroup { first, second, third: user, mode: Mode::Asymmetric })
                } else {
                    self.queue_c.push(user);
                    proof {
                        lemma_push_no_dups(pre.c, user);
                        lemma_disjoint_sym(pre.a, pre.c);
                        lemma_disjoint_sym(pre.b, pre.c);
                        lemma_push_disjoint(pre.c, pre.a, user);
                        lemma_push_disjoint(pre.c, pre.b, user);
                        assert(self@ =~= pre.after_join(Role::C, user));
                    }
                    None
                }
            },
        }
    }

    /// Remove the participant's entry from whichever queue holds it; the
    /// other entries keep their arrival order.
    pub fn pop(&mut self, id: u64)
        ensures
            final(self)@ == old(self)@.remove_user(id),
            old(self)@.wf() ==> final(self)@.wf(),
    {
        let na = vec_remove_all(&self.queue_a, id);
        let nb = vec_remove_all(&self.queue_b, id);
        let nc = vec_remove_all(&self.queue_c, id);
        self.queue_a = na;
        self.queue_b = nb;
        self.queue_c = nc;
        proof {
            assert(self@ =~= old(self)@.remove_user(id));
            if old(self)@.wf() {
                lemma_remove_user_wf(old(self)@, id);
            }
        }
    }
}

/// A copy of the vector with every occurrence of `x` removed, order kept.
fn vec_remove_all(v: &Vec<u64>, x: u64) -> (r: Vec<u64>)
    ensures
        r@ == remove_user_seq(v@, x),
{
    let mut r: Vec<u64> = Vec::new();
    let mut i: usize = 0;
    proof {
        assert(v@.skip(0) =~= v@);
    }
    while i < v.len()
        invariant
            i <= v@.len(),
            r@ + remove_user_seq(v@.skip(i as int), x) == remove_user_seq(v@, x),
        decreases v@.len() - i,
    {
        let ghost pre = r@;
        if v[i] != x {
            r.push(v[i]);
        }
        proof {
            let rest = v@.skip(i as int);
            assert(rest[0] == v@[i as int]);
            assert(rest.skip(1) =~= v@.skip(i + 1));
            if v@[i as int] == x {
                assert(r@ + remove_user_seq(v@.skip(i + 1), x) == remove_user_seq(v@, x));
            } else {
                assert(r@ =~= pre + seq![v@[i as int]]);
                assert(pre + (seq![rest[0]] + remove_user_seq(rest.skip(1), x)) =~= (pre
                    + seq![rest[0]]) + remove_user_seq(rest.skip(1), x));
            }
        }
        i = i + 1;
    }
    proof {
        assert(v@.skip(i as int) =~= Seq::empty());
        assert(r@ + remove_user_seq(v@.skip(i as int), x) =~= r@);
    }
    r
}

} // verus!
