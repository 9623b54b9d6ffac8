//! Session registry.
//!
//! Tracks the lifecycle of each upload session: `uploading` while the body
//! is being captured, `processing` once it is handed to the pipeline, and
//! finally `completed` or `failed`.  Transitions only ever move forward;
//! a terminal status never changes again.  Queries for unknown ids report
//! the `not_found` pseudo-status rather than an error.

use vstd::prelude::*;
use vstd::pervasive::VecAdditionalExecFns;

verus! {

/// The lifecycle status of one upload session.
#[derive(Clone, Copy, PartialEq, Eq, Structural, Debug)]
pub enum SessionStatus {
    Uploading,
    Processing,
    Completed,
    Failed,
}

/// How far along the lifecycle a status is.
pub open spec fn rank(s: SessionStatus) -> int {
    match s {
        SessionStatus::Uploading => 0,
        SessionStatus::Processing => 1,
        SessionStatus::Completed => 2,
        SessionStatus::Failed => 2,
    }
}

/// The transitions the lifecycle admits.
pub open spec fn can_step(from: SessionStatus, to: SessionStatus) -> bool {
    match (from, to) {
        (SessionStatus::Uploading, SessionStatus::Processing) => true,
        (SessionStatus::Processing, SessionStatus::Completed) => true,
        (SessionStatus::Processing, SessionStatus::Failed) => true,
        _ => false,
    }
}

/// Whether the lifecycle admits a transition.
pub fn step_allowed(from: SessionStatus, to: SessionStatus) -> (r: bool)
    ensures
        r == can_step(from, to),
{
    match (from, to) {
        (SessionStatus::Uploading, SessionStatus::Processing) => true,
        (SessionStatus::Processing, SessionStatus::Completed) => true,
        (SessionStatus::Processing, SessionStatus::Failed) => true,
        _ => false,
    }
}

/// Session status transitions only move forward: every admitted transition
/// strictly increases the lifecycle rank, and the terminal statuses admit
/// none at all.
pub proof fn lemma_transitions_forward(from: SessionStatus, to: SessionStatus)
    ensures
        can_step(from, to) ==> rank(from) < rank(to),
        (from is Completed || from is Failed) ==> !can_step(from, to),
{
}

/// The view of an optional message.
pub open spec fn opt_view(o: Option<String>) -> Option<Seq<char>> {
    match o {
        Some(s) => Some(s@),
        None => None,
    }
}

/// The mathematical content of one session's state.
pub struct SessionView {
    pub status: SessionStatus,
    pub error: Option<Seq<char>>,
}

/// One session's state: its status and, when failed, a message.
pub struct SessionRecord {
    pub status: SessionStatus,
    pub error: Option<String>,
}

impl View for SessionRecord {
    type V = SessionView;

    open spec fn view(&self) -> SessionView {
        SessionView { status: self.status, error: opt_view(self.error) }
    }
}

impl SessionRecord {
    /// An independent copy with the same view.
    pub fn duplicate(&self) -> (r: Self)
        ensures
            r@ == self@,
    {
        let error = match &self.error {
            Some(e) => Some(e.clone()),
            None => None,
        };
        SessionRecord { status: self.status, error }
    }
}

/// The position of the entry with the given id, or -1.
pub open spec fn id_index(s: Seq<(Seq<char>, SessionView)>, id: Seq<char>) -> int
    decreases s.len(),
{
    if s.len() == 0 {
        -1
    } else if s.first().0 == id {
        0
    } else {
        let r = id_index(s.drop_first(), id);
        if r == -1 { -1 } else { r + 1 }
    }
}

/// The session registered under an id, if any.
pub open spec fn lookup(s: Seq<(Seq<char>, SessionView)>, id: Seq<char>) -> Option<SessionView> {
    let i = id_index(s, id);
    if i == -1 { None } else { Some(s[i].1) }
}

/// What `id_index` finds: the first entry with the id, if any has it.
pub proof fn lemma_id_index(s: Seq<(Seq<char>, SessionView)>, id: Seq<char>)
    ensures
        (id_index(s, id) == -1) <==> (forall|i: int| 0 <= i < s.len()
            ==> (#[trigger] s[i]).0 != id),
        id_index(s, id) != -1 ==> 0 <= id_index(s, id) < s.len() && s[id_index(s, id)].0 == id,
    decreases s.len(),
{
    if s.len() > 0 {
        assert(s.first() == s[0]);
        if s[0].0 != id {
            let d = s.drop_first();
            lemma_id_index(d, id);
            assert forall|i: int| 0 <= i < d.len() implies #[trigger] d[i] == s[i + 1] by {}
            if id_index(s, id) == -1 {
                assert forall|i: int| 0 <= i < s.len() implies (#[trigger] s[i]).0 != id by {
                    if i > 0 {
                        assert(d[i - 1] == s[i]);
                        assert(d[i - 1].0 != id);
                    }
                }
            }
            if forall|i: int| 0 <= i < s.len() ==> (#[trigger] s[i]).0 != id {
                assert forall|i: int| 0 <= i < d.len() implies (#[trigger] d[i]).0 != id by {
                    assert(d[i] == s[i + 1]);
                    assert(s[i + 1].0 != id);
                }
                assert(id_index(d, id) == -1);
            }
        }
    }
}

/// `id_index` returns the position carrying the id when nothing before it
/// does.
proof fn lemma_id_index_is(s: Seq<(Seq<char>, SessionView)>, id: Seq<char>, i: int)
    requires
        0 <= i < s.len(),
        s[i].0 == id,
        forall|j: int| 0 <= j < i ==> (#[trigger] s[j]).0 != id,
    ensures
        id_index(s, id) == i,
    decreases s.len(),
{
    assert(s.first() == s[0]);
    if i > 0 {
        assert forall|k: int| 0 <= k < s.len() - 1
            implies #[trigger] s.drop_first()[k] == s[k + 1] by {}
        lemma_id_index_is(s.drop_first(), id, i - 1);
    }
}

/// `id_index` reads only the ids, not the session states.
proof fn lemma_id_index_same_ids(
    s: Seq<(Seq<char>, SessionView)>,
    t: Seq<(Seq<char>, SessionView)>,
    id: Seq<char>,
)
    requires
        s.len() == t.len(),
        forall|i: int| 0 <= i < s.len() ==> (#[trigger] s[i]).0 == (#[trigger] t[i]).0,
    ensures
        id_index(s, id) == id_index(t, id),
    decreases s.len(),
{
    if s.len() > 0 {
        assert(s.first() == s[0] && t.first() == t[0]);
        assert forall|k: int| 0 <= k < s.len() - 1
            implies #[trigger] s.drop_first()[k] == s[k + 1]
                && #[trigger] t.drop_first()[k] == t[k + 1] by {}
        lemma_id_index_same_ids(s.drop_first(), t.drop_first(), id);
    }
}

/// Sessions do not interfere: rewriting the state under one id leaves the
/// lookup of every other id unchanged.
pub proof fn lemma_advance_independent(
    pre: Seq<(Seq<char>, SessionView)>,
    k: int,
    v: SessionView,
    other: Seq<char>,
)
    requires
        0 <= k < pre.len(),
        other != pre[k].0,
    ensures
        lookup(pre.update(k, (pre[k].0, v)), other) == lookup(pre, other),
{
    let post = pre.update(k, (pre[k].0, v));
    assert forall|i: int| 0 <= i < pre.len()
        implies (#[trigger] pre[i]).0 == (#[trigger] post[i]).0 by {}
    lemma_id_index_same_ids(pre, post, other);
    lemma_id_index(pre, other);
    if id_index(pre, other) != -1 {
        let idx = id_index(pre, other);
        assert(pre[idx].0 == other);
        assert(idx != k);
        assert(post[idx] == pre[idx]);
    }
}

/// Sessions do not interfere: registering one id leaves the lookup of every
/// other id unchanged.
pub proof fn lemma_create_independent(
    pre: Seq<(Seq<char>, SessionView)>,
    id: Seq<char>,
    v: SessionView,
    other: Seq<char>,
)
    requires
        other != id,
    ensures
        lookup(pre.push((id, v)), other) == lookup(pre, other),
    decreases pre.len(),
{
    lemma_id_index_snoc(pre, (id, v), other);
    lemma_id_index(pre, other);
    let post = pre.push((id, v));
    if id_index(pre, other) != -1 {
        let idx = id_index(pre, other);
        assert(post[idx] == pre[idx]);
    }
}

/// Appending an entry under a different id does not change where an id is
/// found.
proof fn lemma_id_index_snoc(
    pre: Seq<(Seq<char>, SessionView)>,
    p: (Seq<char>, SessionView),
    other: Seq<char>,
)
    requires
        p.0 != other,
    ensures
        id_index(pre.push(p), other) == id_index(pre, other),
    decreases pre.len(),
{
    let post = pre.push(p);
    if pre.len() == 0 {
        assert(post.first() == p);
        assert(post.drop_first() =~= Seq::<(Seq<char>, SessionView)>::empty());
        assert(id_index(Seq::<(Seq<char>, SessionView)>::empty(), other) == -1);
        assert(id_index(post, other) == -1);
    } else {
        assert(post.first() == pre.first());
        assert(pre.first() == pre[0]);
        assert(post.drop_first() =~= pre.drop_first().push(p));
        lemma_id_index_snoc(pre.drop_first(), p, other);
        assert(id_index(post.drop_first(), other) == id_index(pre.drop_first(), other));
    }
}


/// One registry row.
struct SessionEntry {
    id: String,
    record: SessionRecord,
}

/// The in-memory registry of all sessions seen by this process.
pub struct SessionRegistry {
    entries: Vec<SessionEntry>,
}

impl View for SessionRegistry {
    type V = Seq<(Seq<char>, SessionView)>;

    closed spec fn view(&self) -> Seq<(Seq<char>, SessionView)> {
        self.entries@.map_values(|e: SessionEntry| (e.id@, e.record@))
    }
}

impl SessionRegistry {
    /// Ids are registered at most once.
    pub closed spec fn wf(&self) -> bool {
        forall|i: int, j: int| #![trigger self@[i], self@[j]] 0 <= i < j < self@.len()
            ==> self@[i].0 != self@[j].0
    }

    /// An empty registry.
    pub fn new() -> (r: SessionRegistry)
        ensures
            r.wf(),
            r@ == Seq::<(Seq<char>, SessionView)>::empty(),
    {
        let r = SessionRegistry { entries: Vec::new() };
        proof {
            assert(r@ =~= Seq::<(Seq<char>, SessionView)>::empty());
        }
        r
    }

    /// Registers a session in `Uploading`.  An id already registered is
    /// left exactly as it was.
    pub fn create(&mut self, id: String)
        requires
            old(self).wf(),
        ensures
            final(self).wf(),
            lookup(old(self)@, id@) is Some ==> final(self)@ == old(self)@,
            lookup(old(self)@, id@) is None ==> final(self)@ == old(self)@.push(
                (id@, SessionView { status: SessionStatus::Uploading, error: None }),
            ),
    {
        let ghost orig = self@;
        let mut i: usize = 0;
        while i < self.entries.len()
            invariant
                *self == *old(self),
                old(self).wf(),
                orig == old(self)@,
                i <= self.entries@.len(),
                forall|j: int| 0 <= j < i ==> (#[trigger] orig[j]).0 != id@,
            decreases self.entries@.len() - i,
        {
            proof {
                assert(orig[i as int].0 == self.entries@[i as int].id@);
            }
            if self.entries[i].id == id {
                proof {
                    lemma_id_index_is(orig, id@, i as int);
                }
                return;
            }
            i += 1;
        }
        proof {
            lemma_id_index(orig, id@);
            assert(id_index(orig, id@) == -1);
        }
        let ghost v = SessionView { status: SessionStatus::Uploading, error: None };
        let entry = SessionEntry {
            id,
            record: SessionRecord { status: SessionStatus::Uploading, error: None },
        };
        let ghost eid = entry.id@;
        self.entries.push(entry);
        proof {
            assert(self@ =~= orig.push((eid, v)));
            assert forall|a: int, b: int| #![trigger self@[a], self@[b]]
                0 <= a < b < self@.len() implies self@[a].0 != self@[b].0 by {
                if b < self@.len() - 1 {
                    assert(orig[a].0 != orig[b].0);
                } else {
                    assert(orig[a].0 != eid);
                }
            }
        }
    }

    /// Applies a forward transition to a registered session, recording the
    /// message that accompanies a failure.  An unknown id, or a transition
    /// the lifecycle does not admit, changes nothing.
    pub fn advance(&mut self, id: &String, to: SessionStatus, error: Option<String>)
        requires
            old(self).wf(),
        ensures
            final(self).wf(),
            lookup(old(self)@, id@) is None ==> final(self)@ == old(self)@,
            lookup(old(self)@, id@) matches Some(v) && !can_step(v.status, to)
                ==> final(self)@ == old(self)@,
            lookup(old(self)@, id@) matches Some(v) && can_step(v.status, to)
                ==> final(self)@ == old(self)@.update(
                    id_index(old(self)@, id@),
                    (id@, SessionView { status: to, error: opt_view(error) }),
                ),
    {
        let ghost orig = self@;
        let mut i: usize = 0;
        while i < self.entries.len()
            invariant
                *self == *old(self),
                old(self).wf(),
                orig == old(self)@,
                i <= self.entries@.len(),
                forall|j: int| 0 <= j < i ==> (#[trigger] orig[j]).0 != id@,
            decreases self.entries@.len() - i,
        {
            proof {
                assert(orig[i as int].0 == self.entries@[i as int].id@);
                assert(orig[i as int].1 == self.entries@[i as int].record@);
            }
            if self.entries[i].id == *id {
                proof {
                    lemma_id_index_is(orig, id@, i as int);
                }
                if step_allowed(self.entries[i].record.status, to) {
                    let eid = self.entries[i].id.clone();
                    let ghost v = SessionView { status: to, error: opt_view(error) };
                    let entry = SessionEntry { id: eid, record: SessionRecord { status: to, error } };
                    self.entries.set(i, entry);
                    proof {
                        assert(self@ =~= orig.update(i as int, (id@, v)));
                        assert forall|a: int, b: int| #![trigger self@[a], self@[b]]
                            0 <= a < b < self@.len() implies self@[a].0 != self@[b].0 by {
                            assert(self@[a].0 == orig[a].0);
                            assert(self@[b].0 == orig[b].0);
                        }
                    }
                }
                return;
            }
            i += 1;
        }
        proof {
            lemma_id_index(orig, id@);
            assert(id_index(orig, id@) == -1);
        }
    }

    /// The state registered under an id, if any.
    pub fn get(&self, id: &String) -> (r: Option<SessionRecord>)
        requires
            self.wf(),
        ensures
            (r is None) == (lookup(self@, id@) is None),
            r matches Some(rec) ==> lookup(self@, id@) == Some(rec@),
    {
        let mut i: usize = 0;
        while i < self.entries.len()
            invariant
                self.wf(),
                i <= self.entries@.len(),
                forall|j: int| 0 <= j < i ==> (#[trigger] self@[j]).0 != id@,
            decreases self.entries@.len() - i,
        {
            proof {
                assert(self@[i as int].0 == self.entries@[i as int].id@);
                assert(self@[i as int].1 == self.entries@[i as int].record@);
            }
            if self.entries[i].id == *id {
                proof {
                    lemma_id_index_is(self@, id@, i as int);
                }
                return Some(self.entries[i].record.duplicate());
            }
            i += 1;
        }
        proof {
            lemma_id_index(self@, id@);
            assert(id_index(self@, id@) == -1);
        }
        None
    }
}

/// The label a status carries in a report.
pub open spec fn status_label_spec(s: SessionStatus) -> Seq<char> {
    match s {
        SessionStatus::Uploading => "uploading"@,
        SessionStatus::Processing => "processing"@,
        SessionStatus::Completed => "completed"@,
        SessionStatus::Failed => "failed"@,
    }
}

/// The label a status carries in a report.
pub fn status_label(s: SessionStatus) -> (r: String)
    ensures
        r@ == status_label_spec(s),
{
    match s {
        SessionStatus::Uploading => String::from_str("uploading"),
        SessionStatus::Processing => String::from_str("processing"),
        SessionStatus::Completed => String::from_str("completed"),
        SessionStatus::Failed => String::from_str("failed"),
    }
}

impl SessionRegistry {
    /// The status report for an id: its label and message for a registered
    /// session, and the `not_found` pseudo-status for an unknown one -
    /// never an error.
    pub fn status_report(&self, id: &String) -> (r: (String, Option<String>))
        requires
            self.wf(),
        ensures
            lookup(self@, id@) matches Some(v)
                ==> r.0@ == status_label_spec(v.status) && opt_view(r.1) == v.error,
            lookup(self@, id@) is None
                ==> r.0@ == "not_found"@
                    && opt_view(r.1) == Some("Session not found"@),
    {
        match self.get(id) {
            Some(rec) => (status_label(rec.status), rec.error),
            None => (
                String::from_str("not_found"),
                Some(String::from_str("Session not found")),
            ),
        }
    }
}

/// Relies on `uuid::Uuid::new_v4`: a fresh version-4 UUID, rendered in the
/// 36-character hyphenated form its display promises.  Nothing is assumed
/// about which UUID comes back.
#[verifier::external_body]
pub fn fresh_session_id() -> (r: String)
    ensures
        r@.len() == 36,
{
    uuid::Uuid::new_v4().to_string()
}

} // verus!
