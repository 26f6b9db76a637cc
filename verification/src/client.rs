//! The client-side core: a monotonic request-identifier counter, the
//! pending-call table that correlates responses by identifier, and
//! the per-subscription bounded queues with explicit overflow.
use vstd::prelude::*;
use crate::json::{JsonV, JsonValue, ser_value, view_items, lemma_view_items_index};
use crate::wire::{Reply, ReplyV, full_jv, parse_reply, reply_of, reply_view, request_jv, opt_view, request_frame, Id};

verus! {

/// One live subscription on the client: the values received and not
/// yet read, in arrival order, and whether the subscription has
/// become terminal.
struct SubState {
    items: Vec<JsonValue>,
    terminal: bool,
}

/// The request/response correlation core of a client connection: a
/// monotonic request-identifier counter, the identifiers of calls
/// still awaiting their response, and the live subscriptions with
/// their bounded queues.
pub struct ClientCore {
    next_id: u64,
    pending: Vec<u64>,
    subs: Vec<(u64, SubState)>,
    cap: usize,
}

/// The queue and terminal flag registered under a subscription
/// identifier.
spec fn find_sub(s: Seq<(u64, SubState)>, sid: u64) -> Option<(Seq<JsonV>, bool)>
    decreases s,
{
    if s.len() == 0 {
        None
    } else if s[0].0 == sid {
        Some((view_items(s[0].1.items@), s[0].1.terminal))
    } else {
        find_sub(s.drop_first(), sid)
    }
}

/// What routing one inbound frame led to.
pub enum Routed {
    /// A response completed the pending call with this identifier.
    Answered { id: u64, result: JsonValue },
    /// An error response completed the pending call with this
    /// identifier.
    CallFailed { id: u64, code: i64, message: String },
    /// A notification was queued for its subscription.
    Pushed { sub_id: u64 },
    /// A notification found its subscription's queue full: the
    /// subscription is terminal from here on.
    Overflowed { sub_id: u64 },
    /// The frame matched nothing and was dropped.
    Ignored,
}

/// What a consumer's read of its subscription yielded.
pub enum NextOut {
    /// The oldest queued value.
    Item(JsonValue),
    /// The subscription is over: it overflowed or was dropped.
    End,
    /// Nothing queued yet; the consumer would wait.
    Empty,
}

impl ClientCore {
    /// The identifier the next call will use.
    pub closed spec fn spec_next_id(&self) -> u64 {
        self.next_id
    }

    /// The identifiers of calls that await their response.
    pub closed spec fn spec_pending(&self) -> Seq<u64> {
        self.pending@
    }

    /// The queue contents and terminal flag of a subscription, if it
    /// is installed.
    pub closed spec fn spec_sub(&self, sid: u64) -> Option<(Seq<JsonV>, bool)> {
        find_sub(self.subs@, sid)
    }

    /// The queue capacity every subscription is installed with.
    pub closed spec fn spec_cap(&self) -> nat {
        self.cap as nat
    }

    /// Pending identifiers are pairwise distinct and below the
    /// counter; subscription identifiers are pairwise distinct; no
    /// queue exceeds the capacity.
    pub closed spec fn wf(&self) -> bool {
        &&& (forall|i: int, j: int|
            0 <= i < j < self.pending@.len() ==> #[trigger] self.pending@[i]
                != #[trigger] self.pending@[j])
        &&& (forall|i: int|
            0 <= i < self.pending@.len() ==> #[trigger] self.pending@[i] < self.next_id)
        &&& (forall|i: int, j: int|
            0 <= i < j < self.subs@.len() ==> (#[trigger] self.subs@[i]).0
                != (#[trigger] self.subs@[j]).0)
        &&& (forall|i: int|
            0 <= i < self.subs@.len() ==> (#[trigger] self.subs@[i]).1.items@.len() <= self.cap)
    }

    /// A fresh core whose subscriptions will buffer up to `cap`
    /// values each.
    pub fn new(cap: usize) -> (r: Self)
        ensures
            r.wf(),
            r.spec_next_id() == 0,
            r.spec_pending() == Seq::<u64>::empty(),
            forall|sid: u64| r.spec_sub(sid) is None,
            r.spec_cap() == cap,
    {
        let r = ClientCore { next_id: 0, pending: Vec::new(), subs: Vec::new(), cap };
        proof {
            assert(r.pending@ =~= Seq::<u64>::empty());
        }
        r
    }

    /// Begin a call: take the next identifier, remember it as
    /// pending, and build the request frame. The identifier is fresh:
    /// it differs from every pending one.
    pub fn start_call(&mut self, method: &str, params: Option<JsonValue>) -> (r: (u64, String))
        requires
            old(self).wf(),
            old(self).spec_next_id() < 0x7fffffffffffffff,
        ensures
            final(self).wf(),
            r.0 == old(self).spec_next_id(),
            !old(self).spec_pending().contains(r.0),
            final(self).spec_pending() == old(self).spec_pending().push(r.0),
            final(self).spec_next_id() == old(self).spec_next_id() + 1,
            forall|sid: u64| final(self).spec_sub(sid) == old(self).spec_sub(sid),
            final(self).spec_cap() == old(self).spec_cap(),
            r.1@ == ser_value(
                request_jv(method@, opt_view(params), JsonV::Int(r.0 as int)),
            ),
    {
        let id = self.next_id;
        self.next_id = self.next_id + 1;
        proof {
            if old(self).spec_pending().contains(id) {
                let k = choose|k: int|
                    0 <= k < old(self).pending@.len() && old(self).pending@[k] == id;
                assert(old(self).pending@[k] < id);
            }
        }
        self.pending.push(id);
        let frame = request_frame(method, params, Id::Num(id));
        (id, frame)
    }

    /// Install a subscription under the identifier the server
    /// assigned. Nothing changes if the identifier is already taken.
    pub fn install_subscription(&mut self, sub_id: u64) -> (r: bool)
        requires
            old(self).wf(),
        ensures
            final(self).wf(),
            r == (old(self).spec_sub(sub_id) is None),
            r ==> final(self).spec_sub(sub_id) == Some((Seq::<JsonV>::empty(), false)),
            r ==> forall|sid: u64|
                sid != sub_id ==> final(self).spec_sub(sid) == old(self).spec_sub(sid),
            !r ==> *final(self) == *old(self),
            final(self).spec_pending() == old(self).spec_pending(),
            final(self).spec_next_id() == old(self).spec_next_id(),
            final(self).spec_cap() == old(self).spec_cap(),
    {
        match self.find_index(sub_id) {
            Some(_) => false,
            None => {
                let ghost before = self.subs@;
                self.subs.push((sub_id, SubState { items: Vec::new(), terminal: false }));
                proof {
                    let e = self.subs@[before.len() as int];
                    assert(self.subs@ =~= before.push(e));
                    lemma_view_items_index(e.1.items@, -1);
                    assert(view_items(e.1.items@) =~= Seq::<JsonV>::empty());
                    Self::lemma_find_sub_none(before, sub_id);
                    assert forall|sid: u64| true implies #[trigger] find_sub(self.subs@, sid)
                        == (if sid == sub_id {
                        Some((Seq::<JsonV>::empty(), false))
                    } else {
                        find_sub(before, sid)
                    }) by {
                        Self::lemma_find_sub_push(before, e, sid);
                    }
                }
                true
            },
        }
    }

    /// An absent identifier stands on no entry.
    proof fn lemma_find_sub_none(s: Seq<(u64, SubState)>, sid: u64)
        requires
            find_sub(s, sid) is None,
        ensures
            forall|j: int| 0 <= j < s.len() ==> (#[trigger] s[j]).0 != sid,
        decreases s.len(),
    {
        if s.len() > 0 {
            Self::lemma_find_sub_none(s.drop_first(), sid);
            assert forall|j: int| 0 <= j < s.len() implies (#[trigger] s[j]).0 != sid by {
                if j > 0 {
                    assert(s.drop_first()[j - 1] == s[j]);
                }
            }
        }
    }

    /// Appending an entry changes lookups only for its identifier,
    /// and for that one only if it was absent.
    proof fn lemma_find_sub_push(s: Seq<(u64, SubState)>, e: (u64, SubState), sid: u64)
        requires
            find_sub(s, e.0) is None,
        ensures
            sid == e.0 ==> find_sub(s.push(e), sid) == Some(
                (view_items(e.1.items@), e.1.terminal),
            ),
            sid != e.0 ==> find_sub(s.push(e), sid) == find_sub(s, sid),
        decreases s.len(),
    {
        if s.len() == 0 {
            assert(s.push(e)[0] == e);
            if sid != e.0 {
                assert(s.push(e).drop_first() =~= Seq::<(u64, SubState)>::empty());
                assert(find_sub(Seq::<(u64, SubState)>::empty(), sid) is None);
            }
        } else {
            assert(s.push(e)[0] == s[0]);
            assert(s.push(e).drop_first() =~= s.drop_first().push(e));
            Self::lemma_find_sub_push(s.drop_first(), e, sid);
        }
    }

    /// The position of a subscription in the table.
    fn find_index(&self, sid: u64) -> (r: Option<usize>)
        ensures
            r matches Some(i) ==> 0 <= i < self.subs@.len() && self.subs@[i as int].0 == sid
                && self.spec_sub(sid) == Some(
                (
                    view_items(self.subs@[i as int].1.items@),
                    self.subs@[i as int].1.terminal,
                ),
            ),
            r is None ==> self.spec_sub(sid) is None,
    {
        let ghost whole = self.subs@;
        let mut i: usize = 0;
        proof {
            assert(whole.subrange(0, whole.len() as int) =~= whole);
        }
        while i < self.subs.len()
            invariant
                i <= whole.len(),
                whole == self.subs@,
                find_sub(whole, sid) == find_sub(whole.subrange(i as int, whole.len() as int), sid),
                forall|j: int| 0 <= j < i ==> (#[trigger] whole[j]).0 != sid,
            decreases whole.len() - i,
        {
            proof {
                assert(whole.subrange(i as int, whole.len() as int)[0] == whole[i as int]);
                assert(whole.subrange(i as int, whole.len() as int).drop_first() =~= whole.subrange(
                    i + 1,
                    whole.len() as int,
                ));
            }
            if self.subs[i].0 == sid {
                return Some(i);
            }
            i = i + 1;
        }
        proof {
            assert(whole.subrange(whole.len() as int, whole.len() as int) =~= Seq::<
                (u64, SubState),
            >::empty());
        }
        None
    }
}


impl ClientCore {
    /// Replacing the entry of an identifier changes lookups only for
    /// that identifier.
    proof fn lemma_find_sub_update(s: Seq<(u64, SubState)>, i: int, e: (u64, SubState), x: u64)
        requires
            0 <= i < s.len(),
            s[i].0 == e.0,
            forall|a: int, b: int|
                0 <= a < b < s.len() ==> (#[trigger] s[a]).0 != (#[trigger] s[b]).0,
        ensures
            x == e.0 ==> find_sub(s.update(i, e), x) == Some(
                (view_items(e.1.items@), e.1.terminal),
            ),
            x != e.0 ==> find_sub(s.update(i, e), x) == find_sub(s, x),
        decreases s.len(),
    {
        let t = s.update(i, e);
        if i == 0 {
            assert(t[0] == e);
            if x == e.0 {
            } else {
                assert(t.drop_first() =~= s.drop_first());
            }
        } else {
            assert(t[0] == s[0]);
            assert(s[0].0 != s[i].0);
            assert(t.drop_first() =~= s.drop_first().update(i - 1, e));
            assert forall|a: int, b: int|
                0 <= a < b < s.drop_first().len() implies (#[trigger] s.drop_first()[a]).0 != (
            #[trigger] s.drop_first()[b]).0 by {
                assert(s.drop_first()[a] == s[a + 1]);
                assert(s.drop_first()[b] == s[b + 1]);
            }
            assert(s.drop_first()[i - 1].0 == e.0);
            Self::lemma_find_sub_update(s.drop_first(), i - 1, e, x);
        }
    }

    /// Removing the entry of an identifier ends its lookups and
    /// changes no other.
    proof fn lemma_find_sub_remove(s: Seq<(u64, SubState)>, i: int, x: u64)
        requires
            0 <= i < s.len(),
            forall|a: int, b: int|
                0 <= a < b < s.len() ==> (#[trigger] s[a]).0 != (#[trigger] s[b]).0,
        ensures
            x == s[i].0 ==> find_sub(s.remove(i), x) is None,
            x != s[i].0 ==> find_sub(s.remove(i), x) == find_sub(s, x),
        decreases s.len(),
    {
        let t = s.remove(i);
        s.remove_ensures(i);
        if i == 0 {
            assert(t =~= s.drop_first());
            if x == s[0].0 {
                assert(find_sub(s.drop_first(), x) is None) by {
                    if find_sub(s.drop_first(), x) is Some {
                        Self::lemma_find_sub_some(s.drop_first(), x);
                        let k = choose|k: int|
                            0 <= k < s.drop_first().len() && (#[trigger] s.drop_first()[k]).0 == x;
                        assert(s[k + 1] == s.drop_first()[k]);
                    }
                }
            }
        } else {
            assert(t[0] == s[0]);
            assert(t.drop_first() =~= s.drop_first().remove(i - 1));
            assert forall|a: int, b: int|
                0 <= a < b < s.drop_first().len() implies (#[trigger] s.drop_first()[a]).0 != (
            #[trigger] s.drop_first()[b]).0 by {
                assert(s.drop_first()[a] == s[a + 1]);
                assert(s.drop_first()[b] == s[b + 1]);
            }
            assert(s.drop_first()[i - 1] == s[i]);
            Self::lemma_find_sub_remove(s.drop_first(), i - 1, x);
            if x == s[i].0 {
                assert(s[0].0 != s[i].0);
            }
        }
    }

    /// A found identifier stands on some entry.
    proof fn lemma_find_sub_some(s: Seq<(u64, SubState)>, x: u64)
        requires
            find_sub(s, x) is Some,
        ensures
            exists|k: int| 0 <= k < s.len() && (#[trigger] s[k]).0 == x,
        decreases s.len(),
    {
        if s.len() > 0 && s[0].0 != x {
            Self::lemma_find_sub_some(s.drop_first(), x);
            let k = choose|k: int| 0 <= k < s.drop_first().len() && (#[trigger] s.drop_first()[k]).0 == x;
            assert(s[k + 1] == s.drop_first()[k]);
        }
    }

    /// Remove one pending identifier.
    fn remove_pending(&mut self, id: u64) -> (r: bool)
        requires
            old(self).wf(),
        ensures
            final(self).wf(),
            r == old(self).spec_pending().contains(id),
            !final(self).spec_pending().contains(id),
            forall|x: u64|
                x != id ==> final(self).spec_pending().contains(x) == old(
                    self,
                ).spec_pending().contains(x),
            final(self).spec_next_id() == old(self).spec_next_id(),
            final(self).spec_cap() == old(self).spec_cap(),
            forall|sid: u64| final(self).spec_sub(sid) == old(self).spec_sub(sid),
            r ==> final(self).spec_pending() == old(self).spec_pending().remove(
                old(self).spec_pending().index_of(id),
            ),
            !r ==> *final(self) == *old(self),
    {
        let mut i: usize = 0;
        while i < self.pending.len()
            invariant
                old(self) == self,
                old(self).wf(),
                i <= self.pending@.len(),
                forall|j: int| 0 <= j < i ==> #[trigger] self.pending@[j] != id,
            decreases self.pending@.len() - i,
        {
            if self.pending[i] == id {
                let ghost before = self.pending@;
                self.pending.remove(i);
                proof {
                    before.remove_ensures(i as int);
                    assert(before.index_of(id) == i) by {
                        assert(before[i as int] == id);
                        if before.index_of(id) != i {
                            let k = before.index_of(id);
                            assert(before.contains(id));
                            assert(before[k] == id);
                        }
                    }
                    assert forall|x: u64| true implies #[trigger] self.pending@.contains(x) == (
                    before.contains(x) && !(x == id)) by {
                        if self.pending@.contains(x) {
                            let k = choose|k: int|
                                0 <= k < self.pending@.len() && self.pending@[k] == x;
                            if k < i {
                                assert(before[k] == x);
                            } else {
                                assert(before[k + 1] == x);
                                if x == id {
                                    assert(before[k + 1] == before[i as int]);
                                    assert(false);
                                }
                            }
                            assert(before.contains(x));
                        }
                        if before.contains(x) && x != id {
                            let k = choose|k: int| 0 <= k < before.len() && before[k] == x;
                            assert(k != i);
                            if k < i {
                                assert(self.pending@[k] == x);
                            } else {
                                assert(self.pending@[k - 1] == x);
                            }
                            assert(self.pending@.contains(x));
                        }
                    }
                    assert(before.contains(id)) by {
                        assert(before[i as int] == id);
                    }
                    assert forall|a: int, b: int|
                        0 <= a < b < self.pending@.len() implies #[trigger] self.pending@[a]
                        != #[trigger] self.pending@[b] by {
                        let a0: int = if a < i { a } else { a + 1 };
                        let b0: int = if b < i { b } else { b + 1 };
                        assert(self.pending@[a] == before[a0]);
                        assert(self.pending@[b] == before[b0]);
                    }
                    assert forall|a: int|
                        0 <= a < self.pending@.len() implies #[trigger] self.pending@[a]
                        < self.next_id by {
                        let a0: int = if a < i { a } else { a + 1 };
                        assert(self.pending@[a] == before[a0]);
                    }
                }
                return true;
            }
            i = i + 1;
        }
        proof {
            if self.pending@.contains(id) {
                let k = choose|k: int| 0 <= k < self.pending@.len() && self.pending@[k] == id;
            }
        }
        false
    }

    /// Route one frame the transport delivered.
    ///
    /// A response whose identifier is pending completes exactly that
    /// call and frees its identifier. A notification for a live
    /// subscription joins its queue in arrival order; if the queue
    /// already holds the full capacity, the subscription becomes
    /// terminal instead and the value is lost. Everything else is
    /// dropped and changes nothing.
    #[verifier::rlimit(60)]
    pub fn route_frame(&mut self, frame: &str) -> (r: Routed)
        requires
            old(self).wf(),
        ensures
            final(self).wf(),
            final(self).spec_next_id() == old(self).spec_next_id(),
            final(self).spec_cap() == old(self).spec_cap(),
            full_jv(frame@) is None ==> (*final(self) == *old(self) && r is Ignored),
            full_jv(frame@) matches Some(w) ==> (reply_of(w) is None ==> (*final(self) == *old(
                self,
            ) && r is Ignored)),
            full_jv(frame@) matches Some(w) ==> (reply_of(w) matches Some(rv) ==> (rv matches
                ReplyV::Success { id, result } ==> {
                &&& old(self).spec_pending().contains(id as u64) ==> {
                    &&& r matches Routed::Answered { id: rid, result: rres } && rid == id as u64
                        && rres@ == result
                    &&& !final(self).spec_pending().contains(id as u64)
                    &&& forall|x: u64|
                        x != id as u64 ==> final(self).spec_pending().contains(x) == old(
                            self,
                        ).spec_pending().contains(x)
                    &&& forall|sid: u64| final(self).spec_sub(sid) == old(self).spec_sub(sid)
                }
                &&& !old(self).spec_pending().contains(id as u64) ==> (*final(self) == *old(self)
                    && r is Ignored)
            })),
            full_jv(frame@) matches Some(w) ==> (reply_of(w) matches Some(rv) ==> (rv matches
                ReplyV::Failure { id, code, message } ==> {
                &&& old(self).spec_pending().contains(id as u64) ==> {
                    &&& r matches Routed::CallFailed { id: rid, code: rcode, message: rmsg }
                        && rid == id as u64 && rcode as int == code && rmsg@ == message
                    &&& !final(self).spec_pending().contains(id as u64)
                    &&& forall|x: u64|
                        x != id as u64 ==> final(self).spec_pending().contains(x) == old(
                            self,
                        ).spec_pending().contains(x)
                    &&& forall|sid: u64| final(self).spec_sub(sid) == old(self).spec_sub(sid)
                }
                &&& !old(self).spec_pending().contains(id as u64) ==> (*final(self) == *old(self)
                    && r is Ignored)
            })),
            full_jv(frame@) matches Some(w) ==> (reply_of(w) matches Some(rv) ==> (rv matches
                ReplyV::Push { method, sub_id, result } ==> {
                &&& (old(self).spec_sub(sub_id as u64) matches Some(q) ==> {
                    &&& (!q.1 && q.0.len() < old(self).spec_cap()) ==> {
                        &&& r matches Routed::Pushed { sub_id: s2 } && s2 == sub_id as u64
                        &&& final(self).spec_sub(sub_id as u64) == Some((q.0.push(result), false))
                        &&& forall|x: u64|
                            x != sub_id as u64 ==> final(self).spec_sub(x) == old(self).spec_sub(x)
                        &&& final(self).spec_pending() == old(self).spec_pending()
                    }
                    &&& (!q.1 && q.0.len() >= old(self).spec_cap()) ==> {
                        &&& r matches Routed::Overflowed { sub_id: s2 } && s2 == sub_id as u64
                        &&& final(self).spec_sub(sub_id as u64) == Some((q.0, true))
                        &&& forall|x: u64|
                            x != sub_id as u64 ==> final(self).spec_sub(x) == old(self).spec_sub(x)
                        &&& final(self).spec_pending() == old(self).spec_pending()
                    }
                    &&& q.1 ==> (*final(self) == *old(self) && r is Ignored)
                })
                &&& (old(self).spec_sub(sub_id as u64) is None ==> (*final(self) == *old(self) && r
                    is Ignored))
            })),
    {
        let rep = match parse_reply(frame) {
            Some(rep) => rep,
            None => {
                return Routed::Ignored;
            },
        };
        match rep {
            Reply::Success { id, result } => {
                if self.remove_pending(id) {
                    Routed::Answered { id, result }
                } else {
                    Routed::Ignored
                }
            },
            Reply::Failure { id, code, message } => {
                if self.remove_pending(id) {
                    Routed::CallFailed { id, code, message }
                } else {
                    Routed::Ignored
                }
            },
            Reply::Push { method: _, sub_id, result } => {
                let i = match self.find_index(sub_id) {
                    Some(i) => i,
                    None => {
                        return Routed::Ignored;
                    },
                };
                if self.subs[i].1.terminal {
                    return Routed::Ignored;
                }
                let ghost before = self.subs@;
                let ghost q0 = view_items(before[i as int].1.items@);
                let mut entry = self.subs.remove(i);
                proof {
                    before.remove_ensures(i as int);
                    lemma_view_items_index(entry.1.items@, -1);
                }
                if entry.1.items.len() < self.cap {
                    proof {
                        crate::json::lemma_view_items_push(entry.1.items@, result);
                    }
                    entry.1.items.push(result);
                    let ghost e2 = entry;
                    self.subs.insert(i, entry);
                    proof {
                        self.lemma_reassembled(before, i as int, e2);
                        Self::lemma_find_sub_update(before, i as int, e2, sub_id);
                        assert forall|x: u64|
                            x != sub_id implies find_sub(self.subs@, x) == find_sub(before, x) by {
                            Self::lemma_find_sub_update(before, i as int, e2, x);
                        }
                    }
                    Routed::Pushed { sub_id }
                } else {
                    entry.1.terminal = true;
                    let ghost e2 = entry;
                    self.subs.insert(i, entry);
                    proof {
                        self.lemma_reassembled(before, i as int, e2);
                        Self::lemma_find_sub_update(before, i as int, e2, sub_id);
                        assert forall|x: u64|
                            x != sub_id implies find_sub(self.subs@, x) == find_sub(before, x) by {
                            Self::lemma_find_sub_update(before, i as int, e2, x);
                        }
                    }
                    Routed::Overflowed { sub_id }
                }
            },
        }
    }

    /// Removing an entry and inserting its replacement at the same
    /// position updates the table at that position.
    proof fn lemma_reassembled(&self, before: Seq<(u64, SubState)>, i: int, e: (u64, SubState))
        requires
            0 <= i < before.len(),
            self.subs@.len() == before.len(),
            forall|k: int| 0 <= k < i ==> self.subs@[k] == before.remove(i)[k],
            self.subs@[i] == e,
            forall|k: int| i < k < before.len() ==> self.subs@[k] == before.remove(i)[k - 1],
        ensures
            self.subs@ == before.update(i, e),
    {
        before.remove_ensures(i);
        assert forall|k: int| 0 <= k < before.len() implies self.subs@[k] == before.update(i, e)[k]
            by {
            if k < i {
                assert(self.subs@[k] == before.remove(i)[k]);
                assert(before.remove(i)[k] == before[k]);
            } else if k > i {
                assert(self.subs@[k] == before.remove(i)[k - 1]);
                assert(before.remove(i)[k - 1] == before[k]);
            }
        }
        assert(self.subs@ =~= before.update(i, e));
    }
}


impl ClientCore {
    /// Read the next value of a subscription.
    ///
    /// Queued values come out in arrival order. An empty queue yields
    /// the end of the stream when the subscription is terminal or
    /// gone, and nothing when it simply has no value yet; the end of
    /// the stream also drops the entry.
    pub fn sub_next(&mut self, sub_id: u64) -> (r: NextOut)
        requires
            old(self).wf(),
        ensures
            final(self).wf(),
            final(self).spec_pending() == old(self).spec_pending(),
            final(self).spec_next_id() == old(self).spec_next_id(),
            final(self).spec_cap() == old(self).spec_cap(),
            old(self).spec_sub(sub_id) is None ==> (*final(self) == *old(self) && r is End),
            old(self).spec_sub(sub_id) matches Some(q) ==> {
                &&& q.0.len() > 0 ==> {
                    &&& r matches NextOut::Item(v) && v@ == q.0[0]
                    &&& final(self).spec_sub(sub_id) == Some((q.0.drop_first(), q.1))
                    &&& forall|x: u64|
                        x != sub_id ==> final(self).spec_sub(x) == old(self).spec_sub(x)
                }
                &&& (q.0.len() == 0 && q.1) ==> {
                    &&& r is End
                    &&& final(self).spec_sub(sub_id) is None
                    &&& forall|x: u64|
                        x != sub_id ==> final(self).spec_sub(x) == old(self).spec_sub(x)
                }
                &&& (q.0.len() == 0 && !q.1) ==> (*final(self) == *old(self) && r is Empty)
            },
    {
        let i = match self.find_index(sub_id) {
            Some(i) => i,
            None => {
                return NextOut::End;
            },
        };
        let ghost before = self.subs@;
        let ghost q0 = view_items(before[i as int].1.items@);
        proof {
            lemma_view_items_index(before[i as int].1.items@, -1);
        }
        if self.subs[i].1.items.len() > 0 {
            let mut entry = self.subs.remove(i);
            proof {
                before.remove_ensures(i as int);
                lemma_view_items_index(entry.1.items@, 0);
            }
            let ghost pre = entry.1.items@;
            let v = entry.1.items.remove(0);
            proof {
                pre.remove_ensures(0);
                assert(pre.remove(0) =~= pre.drop_first());
                assert forall|j: int|
                    0 <= j < view_items(entry.1.items@).len() implies view_items(entry.1.items@)[j]
                    == q0.drop_first()[j] by {
                    lemma_view_items_index(entry.1.items@, j);
                    lemma_view_items_index(pre, j + 1);
                }
                lemma_view_items_index(entry.1.items@, -1);
                assert(view_items(entry.1.items@) =~= q0.drop_first());
            }
            let ghost e2 = entry;
            let ghost e2v = view_items(e2.1.items@);
            self.subs.insert(i, entry);
            proof {
                self.lemma_reassembled(before, i as int, e2);
                Self::lemma_find_sub_update(before, i as int, e2, sub_id);
                assert forall|x: u64|
                    x != sub_id implies find_sub(self.subs@, x) == find_sub(before, x) by {
                    Self::lemma_find_sub_update(before, i as int, e2, x);
                }
            }
            NextOut::Item(v)
        } else if self.subs[i].1.terminal {
            self.subs.remove(i);
            proof {
                before.remove_ensures(i as int);
                Self::lemma_find_sub_remove(before, i as int, sub_id);
                assert forall|x: u64|
                    x != sub_id implies find_sub(self.subs@, x) == find_sub(before, x) by {
                    Self::lemma_find_sub_remove(before, i as int, x);
                }
                assert forall|a: int, b: int|
                    0 <= a < b < self.subs@.len() implies (#[trigger] self.subs@[a]).0 != (
                #[trigger] self.subs@[b]).0 by {
                    let a0: int = if a < i { a } else { a + 1 };
                    let b0: int = if b < i { b } else { b + 1 };
                    assert(self.subs@[a] == before[a0]);
                    assert(self.subs@[b] == before[b0]);
                }
                assert forall|a: int|
                    0 <= a < self.subs@.len() implies (#[trigger] self.subs@[a]).1.items@.len()
                    <= self.cap by {
                    let a0: int = if a < i { a } else { a + 1 };
                    assert(self.subs@[a] == before[a0]);
                }
            }
            NextOut::End
        } else {
            NextOut::Empty
        }
    }

    /// Give a subscription up: drop its queue and build the
    /// best-effort unsubscribe call, whose single parameter is the
    /// subscription identifier.
    pub fn drop_subscription(&mut self, sub_id: u64, unsub_method: &str) -> (r: (u64, String))
        requires
            old(self).wf(),
            old(self).spec_next_id() < 0x7fffffffffffffff,
            sub_id <= 0x7fffffffffffffff,
        ensures
            final(self).wf(),
            final(self).spec_sub(sub_id) is None,
            forall|x: u64| x != sub_id ==> final(self).spec_sub(x) == old(self).spec_sub(x),
            final(self).spec_pending() == old(self).spec_pending().push(r.0),
            final(self).spec_next_id() == old(self).spec_next_id() + 1,
            final(self).spec_cap() == old(self).spec_cap(),
            r.1@ == ser_value(
                request_jv(
                    unsub_method@,
                    Some(JsonV::Arr(seq![JsonV::Int(sub_id as int)])),
                    JsonV::Int(r.0 as int),
                ),
            ),
    {
        match self.find_index(sub_id) {
            Some(i) => {
                let ghost before = self.subs@;
                self.subs.remove(i);
                proof {
                    before.remove_ensures(i as int);
                    Self::lemma_find_sub_remove(before, i as int, sub_id);
                    assert forall|x: u64|
                        x != sub_id implies find_sub(self.subs@, x) == find_sub(before, x) by {
                        Self::lemma_find_sub_remove(before, i as int, x);
                    }
                    assert forall|a: int, b: int|
                        0 <= a < b < self.subs@.len() implies (#[trigger] self.subs@[a]).0 != (
                    #[trigger] self.subs@[b]).0 by {
                        let a0: int = if a < i { a } else { a + 1 };
                        let b0: int = if b < i { b } else { b + 1 };
                        assert(self.subs@[a] == before[a0]);
                        assert(self.subs@[b] == before[b0]);
                    }
                    assert forall|a: int|
                        0 <= a < self.subs@.len() implies (#[trigger] self.subs@[a]).1.items@.len()
                        <= self.cap by {
                        let a0: int = if a < i { a } else { a + 1 };
                        assert(self.subs@[a] == before[a0]);
                    }
                }
            },
            None => {},
        }
        let mut params_items: Vec<JsonValue> = Vec::new();
        params_items.push(JsonValue::Int(sub_id as i64));
        proof {
            lemma_view_items_index(params_items@, 0);
            lemma_view_items_index(params_items@, -1);
            assert(view_items(params_items@) =~= seq![JsonV::Int(sub_id as int)]);
        }
        let params = JsonValue::Arr(params_items);
        self.start_call(unsub_method, Some(params))
    }
}

/// Law: within one connection, every pending call holds its own
/// identifier — two distinct pending calls never share one — and the
/// counter sits above them all, so a fresh call can never reuse a
/// pending identifier. A response therefore answers exactly one call.
pub proof fn lemma_correlation(c: ClientCore, i: int, j: int)
    requires
        c.wf(),
        0 <= i < c.spec_pending().len(),
        0 <= j < c.spec_pending().len(),
        i != j,
    ensures
        c.spec_pending()[i] != c.spec_pending()[j],
        c.spec_pending()[i] < c.spec_next_id(),
{
}

} // verus!
