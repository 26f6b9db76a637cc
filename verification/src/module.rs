//! The server-side registry: named methods and subscription pairs,
//! module merging, the table of live subscribers, and the dispatcher
//! that serves one inbound frame on one connection.
use vstd::prelude::*;
use crate::error::Error;
use crate::json::{JsonV, JsonValue, ser_value, str_eq};
use crate::sink::{MethodSink, SubscriptionSink, clone_sink, sink_send};
use crate::wire::{
    Id, ParseFault, clone_id, error_jv, full_jv, id_jv, opt_view, parse_request, request_of,
    response_frame, response_jv, error_frame, wf_id,
};

verus! {

/// JSON-RPC error codes: parse error, invalid request, method not
/// found, invalid params, internal error, and the server-error code
/// used for failures a callback reports.
pub const PARSE_ERROR_CODE: i64 = -32700;
pub const INVALID_REQUEST_CODE: i64 = -32600;
pub const METHOD_NOT_FOUND_CODE: i64 = -32601;
pub const INVALID_PARAMS_CODE: i64 = -32602;
pub const INTERNAL_ERROR_CODE: i64 = -32603;
pub const CALL_EXECUTION_FAILED_CODE: i64 = -32000;

pub assume_specification<T>[ rand::random::<T> ]() -> (r: T)
    where
        rand::distributions::Standard: rand::distributions::Distribution<T>,
;

/// The table of live subscriptions: each entry pairs a connection and
/// a subscription identifier with the sink that reaches the
/// subscriber.
pub struct SubscriberTable {
    entries: Vec<(u64, u64, MethodSink)>,
}

impl SubscriberTable {
    /// Whether the key stands in the table.
    pub closed spec fn spec_contains(&self, conn: u64, sub: u64) -> bool {
        exists|i: int|
            0 <= i < self.entries@.len() && (#[trigger] self.entries@[i]).0 == conn
                && self.entries@[i].1 == sub
    }

    /// How many entries hold the key.
    pub closed spec fn spec_count(&self, conn: u64, sub: u64) -> nat {
        Self::count_in(self.entries@, conn, sub)
    }

    /// The number of entries of `s` that hold the key.
    spec fn count_in(s: Seq<(u64, u64, MethodSink)>, conn: u64, sub: u64) -> nat
        decreases s.len(),
    {
        if s.len() == 0 {
            0
        } else {
            Self::count_in(s.drop_first(), conn, sub) + if s[0].0 == conn && s[0].1 == sub {
                1nat
            } else {
                0nat
            }
        }
    }

    /// No key stands in the table twice.
    pub closed spec fn wf(&self) -> bool {
        forall|i: int, j: int|
            0 <= i < j < self.entries@.len() ==> !((#[trigger] self.entries@[i]).0
                == (#[trigger] self.entries@[j]).0 && self.entries@[i].1 == self.entries@[j].1)
    }

    /// An empty table.
    pub fn new() -> (r: Self)
        ensures
            r.wf(),
            forall|c: u64, s: u64| !r.spec_contains(c, s),
    {
        SubscriberTable { entries: Vec::new() }
    }

    /// Whether the key stands in the table.
    pub fn contains(&self, conn: u64, sub: u64) -> (r: bool)
        ensures
            r == self.spec_contains(conn, sub),
    {
        let mut i: usize = 0;
        while i < self.entries.len()
            invariant
                i <= self.entries@.len(),
                forall|j: int|
                    0 <= j < i ==> !((#[trigger] self.entries@[j]).0 == conn
                        && self.entries@[j].1 == sub),
            decreases self.entries@.len() - i,
        {
            if self.entries[i].0 == conn && self.entries[i].1 == sub {
                return true;
            }
            i = i + 1;
        }
        false
    }

    /// Insert a fresh key with its sink.
    pub fn insert(&mut self, conn: u64, sub: u64, sink: MethodSink)
        requires
            old(self).wf(),
            !old(self).spec_contains(conn, sub),
        ensures
            final(self).wf(),
            forall|c: u64, s: u64|
                #[trigger] final(self).spec_contains(c, s) == (old(self).spec_contains(c, s) || (
                c == conn && s == sub)),
    {
        self.entries.push((conn, sub, sink));
        proof {
            assert forall|c: u64, s: u64| #[trigger]
                self.spec_contains(c, s) == (old(self).spec_contains(c, s) || (c == conn && s
                    == sub)) by {
                if old(self).spec_contains(c, s) {
                    let i = choose|i: int|
                        0 <= i < old(self).entries@.len() && (#[trigger] old(
                            self,
                        ).entries@[i]).0 == c && old(self).entries@[i].1 == s;
                    assert(self.entries@[i].0 == c && self.entries@[i].1 == s);
                }
                if c == conn && s == sub {
                    assert(self.entries@[self.entries@.len() - 1].0 == c
                        && self.entries@[self.entries@.len() - 1].1 == s);
                }
                if self.spec_contains(c, s) && !(c == conn && s == sub) {
                    let i = choose|i: int|
                        0 <= i < self.entries@.len() && (#[trigger] self.entries@[i]).0 == c
                            && self.entries@[i].1 == s;
                    assert(i < old(self).entries@.len());
                    assert(old(self).entries@[i].0 == c && old(self).entries@[i].1 == s);
                }
            }
        }
    }

    /// The number of entries.
    pub closed spec fn spec_len(&self) -> nat {
        self.entries@.len()
    }

    /// Remove a key. Removing an absent key changes nothing.
    pub fn remove(&mut self, conn: u64, sub: u64)
        requires
            old(self).wf(),
        ensures
            final(self).wf(),
            forall|c: u64, s: u64|
                #[trigger] final(self).spec_contains(c, s) == (old(self).spec_contains(c, s) && !(
                c == conn && s == sub)),
            final(self).spec_len() <= old(self).spec_len(),
            old(self).spec_contains(conn, sub) ==> final(self).spec_len() < old(self).spec_len(),
    {
        let mut i: usize = 0;
        while i < self.entries.len()
            invariant
                old(self) == self,
                old(self).wf(),
                i <= self.entries@.len(),
                forall|j: int|
                    0 <= j < i ==> !((#[trigger] self.entries@[j]).0 == conn
                        && self.entries@[j].1 == sub),
            decreases self.entries@.len() - i,
        {
            if self.entries[i].0 == conn && self.entries[i].1 == sub {
                let ghost before = self.entries@;
                self.entries.remove(i);
                proof {
                    before.remove_ensures(i as int);
                    assert(self.entries@ == before.remove(i as int));
                    assert forall|c: u64, s: u64| #[trigger]
                        self.spec_contains(c, s) == (old(self).spec_contains(c, s) && !(c == conn
                            && s == sub)) by {
                        if self.spec_contains(c, s) {
                            let k = choose|k: int|
                                0 <= k < self.entries@.len() && (#[trigger] self.entries@[k]).0
                                    == c && self.entries@[k].1 == s;
                            if k < i {
                                assert(before[k].0 == c && before[k].1 == s);
                            } else {
                                assert(before[k + 1].0 == c && before[k + 1].1 == s);
                            }
                            assert(old(self).spec_contains(c, s));
                            if c == conn && s == sub {
                                if k < i {
                                    assert(false);
                                } else {
                                    assert(old(self).entries@[i as int] == before[i as int]);
                                    assert(old(self).entries@[k + 1] == before[k + 1]);
                                    assert(!((old(self).entries@[i as int]).0 == (old(
                                        self,
                                    ).entries@[k + 1]).0 && old(self).entries@[i as int].1 == old(
                                        self,
                                    ).entries@[k + 1].1));
                                    assert(false);
                                }
                            }
                        }
                        if old(self).spec_contains(c, s) && !(c == conn && s == sub) {
                            let k = choose|k: int|
                                0 <= k < before.len() && (#[trigger] before[k]).0 == c && before[
                                k].1 == s;
                            assert(k != i) by {
                                assert(old(self).entries@[i as int] == before[i as int]);
                            }
                            if k < i {
                                assert(before.remove(i as int)[k] == before[k]);
                                assert(self.entries@[k].0 == c && self.entries@[k].1 == s);
                            } else {
                                assert(before.remove(i as int)[k - 1] == before[(k - 1) + 1]);
                                assert(self.entries@[k - 1].0 == c && self.entries@[k - 1].1 == s);
                            }
                        }
                    }
                    assert forall|a: int, b: int|
                        0 <= a < b < self.entries@.len() implies !((#[trigger] self.entries@[a]).0
                        == (#[trigger] self.entries@[b]).0 && self.entries@[a].1
                        == self.entries@[b].1) by {
                        let a0: int = if a < i { a } else { a + 1 };
                        let b0: int = if b < i { b } else { b + 1 };
                        assert(self.entries@[a] == before[a0]);
                        assert(self.entries@[b] == before[b0]);
                    }
                }
                return ;
            }
            i = i + 1;
        }
        proof {
            assert forall|c: u64, s: u64| #[trigger]
                self.spec_contains(c, s) == (old(self).spec_contains(c, s) && !(c == conn && s
                    == sub)) by {
                if self.spec_contains(c, s) && c == conn && s == sub {
                    let k = choose|k: int|
                        0 <= k < self.entries@.len() && (#[trigger] self.entries@[k]).0 == c
                            && self.entries@[k].1 == s;
                }
            }
        }
    }

    /// The subscription identifier of some entry of one connection,
    /// if the connection has any.
    fn find_conn(&self, conn: u64) -> (r: Option<u64>)
        ensures
            r matches Some(s) ==> self.spec_contains(conn, s),
            r is None ==> forall|s: u64| !self.spec_contains(conn, s),
    {
        let mut i: usize = 0;
        while i < self.entries.len()
            invariant
                i <= self.entries@.len(),
                forall|j: int| 0 <= j < i ==> (#[trigger] self.entries@[j]).0 != conn,
            decreases self.entries@.len() - i,
        {
            if self.entries[i].0 == conn {
                return Some(self.entries[i].1);
            }
            i = i + 1;
        }
        proof {
            assert forall|s: u64| !self.spec_contains(conn, s) by {
                if self.spec_contains(conn, s) {
                    let k = choose|k: int|
                        0 <= k < self.entries@.len() && (#[trigger] self.entries@[k]).0 == conn
                            && self.entries@[k].1 == s;
                }
            }
        }
        None
    }

    /// Remove every key of one connection, as connection teardown
    /// does.
    pub fn remove_conn(&mut self, conn: u64)
        requires
            old(self).wf(),
        ensures
            final(self).wf(),
            forall|c: u64, s: u64|
                #[trigger] final(self).spec_contains(c, s) == (old(self).spec_contains(c, s) && c
                    != conn),
    {
        loop
            invariant
                self.wf(),
                forall|c: u64, s: u64|
                    #[trigger] self.spec_contains(c, s) ==> old(self).spec_contains(c, s),
                forall|c: u64, s: u64|
                    c != conn ==> #[trigger] self.spec_contains(c, s) == old(self).spec_contains(
                        c,
                        s,
                    ),
            ensures
                self.wf(),
                forall|s: u64| !self.spec_contains(conn, s),
                forall|c: u64, s: u64|
                    c != conn ==> #[trigger] self.spec_contains(c, s) == old(self).spec_contains(
                        c,
                        s,
                    ),
            decreases self.spec_len(),
        {
            let found = self.find_conn(conn);
            match found {
                Some(s) => {
                    self.remove(conn, s);
                },
                None => {
                    break ;
                },
            }
        }
    }
}


/// What a registered name stands for: a plain method, the subscribe
/// half of a subscription (naming its unsubscribe method), or the
/// unsubscribe half (naming its subscribe method).
pub enum MethodKind {
    Plain,
    Subscription { unsubscribe: String },
    Unsubscription { subscribe: String },
}

/// The specification value of a method kind.
pub enum MethodKindV {
    Plain,
    Subscription { unsubscribe: Seq<char> },
    Unsubscription { subscribe: Seq<char> },
}

/// The specification value of one registry entry.
pub open spec fn kind_view(k: MethodKind) -> MethodKindV {
    match k {
        MethodKind::Plain => MethodKindV::Plain,
        MethodKind::Subscription { unsubscribe } => MethodKindV::Subscription {
            unsubscribe: unsubscribe@,
        },
        MethodKind::Unsubscription { subscribe } => MethodKindV::Unsubscription {
            subscribe: subscribe@,
        },
    }
}

/// The specification view of a registry: names and kinds in
/// registration order.
pub open spec fn methods_view(s: Seq<(String, MethodKind)>) -> Seq<(Seq<char>, MethodKindV)>
    decreases s,
{
    if s.len() == 0 {
        Seq::empty()
    } else {
        seq![(s[0].0@, kind_view(s[0].1))] + methods_view(s.drop_first())
    }
}

/// The view has the same length and entries element by element.
pub proof fn lemma_methods_view_index(s: Seq<(String, MethodKind)>, i: int)
    ensures
        methods_view(s).len() == s.len(),
        0 <= i < s.len() ==> methods_view(s)[i] == (s[i].0@, kind_view(s[i].1)),
    decreases s.len(),
{
    if s.len() > 0 {
        lemma_methods_view_index(s.drop_first(), i - 1);
    }
}

/// Whether a name stands in a registry view.
pub open spec fn has_name(ms: Seq<(Seq<char>, MethodKindV)>, n: Seq<char>) -> bool {
    exists|i: int| 0 <= i < ms.len() && (#[trigger] ms[i]).0 == n
}

/// The kind registered under a name: the first entry that carries it.
pub open spec fn lookup(ms: Seq<(Seq<char>, MethodKindV)>, n: Seq<char>) -> Option<MethodKindV>
    decreases ms,
{
    if ms.len() == 0 {
        None
    } else if ms[0].0 == n {
        Some(ms[0].1)
    } else {
        lookup(ms.drop_first(), n)
    }
}

/// A found name is a present name.
pub proof fn lemma_lookup_some(ms: Seq<(Seq<char>, MethodKindV)>, n: Seq<char>)
    ensures
        lookup(ms, n) is Some <==> has_name(ms, n),
    decreases ms.len(),
{
    if ms.len() > 0 {
        lemma_lookup_some(ms.drop_first(), n);
        if ms[0].0 == n {
        } else {
            if has_name(ms, n) {
                let i = choose|i: int| 0 <= i < ms.len() && (#[trigger] ms[i]).0 == n;
                assert(ms.drop_first()[i - 1] == ms[i]);
            }
            if has_name(ms.drop_first(), n) {
                let i = choose|i: int|
                    0 <= i < ms.drop_first().len() && (#[trigger] ms.drop_first()[i]).0 == n;
                assert(ms[i + 1] == ms.drop_first()[i]);
            }
        }
    }
}

/// Looking a name up in an extended registry: the old entry wins, and
/// a new name is found with its new kind.
pub proof fn lemma_lookup_push(ms: Seq<(Seq<char>, MethodKindV)>, n: Seq<char>, e: (Seq<char>, MethodKindV))
    ensures
        has_name(ms, n) ==> lookup(ms.push(e), n) == lookup(ms, n),
        !has_name(ms, n) && e.0 == n ==> lookup(ms.push(e), n) == Some(e.1),
        !has_name(ms, n) && e.0 != n ==> lookup(ms.push(e), n) is None,
        has_name(ms.push(e), n) == (has_name(ms, n) || e.0 == n),
    decreases ms.len(),
{
    lemma_lookup_some(ms, n);
    lemma_lookup_some(ms.push(e), n);
    if ms.len() == 0 {
        assert(ms.push(e)[0] == e);
        if e.0 == n {
        } else {
            if has_name(ms.push(e), n) {
                let i = choose|i: int| 0 <= i < ms.push(e).len() && (#[trigger] ms.push(e)[i]).0 == n;
            }
        }
    } else {
        assert(ms.push(e).drop_first() =~= ms.drop_first().push(e));
        lemma_lookup_push(ms.drop_first(), n, e);
        if ms[0].0 == n {
            assert(ms.push(e)[0] == ms[0]);
            assert(has_name(ms, n));
        } else {
            assert(ms.push(e)[0] == ms[0]);
            if has_name(ms, n) {
                let i = choose|i: int| 0 <= i < ms.len() && (#[trigger] ms[i]).0 == n;
                assert(ms.drop_first()[i - 1] == ms[i]);
                assert(has_name(ms.drop_first(), n));
            }
            if has_name(ms.drop_first(), n) {
                let i = choose|i: int|
                    0 <= i < ms.drop_first().len() && (#[trigger] ms.drop_first()[i]).0 == n;
                assert(ms[i + 1] == ms.drop_first()[i]);
            }
        }
    }
}

/// A named set of JSON-RPC methods and subscriptions, with the table
/// of its live subscribers. Modules are merged before a server serves
/// them.
pub struct RpcModule {
    methods: Vec<(String, MethodKind)>,
    subscribers: SubscriberTable,
}

impl RpcModule {
    /// The registry's names and kinds, in registration order.
    pub closed spec fn spec_methods(&self) -> Seq<(Seq<char>, MethodKindV)> {
        methods_view(self.methods@)
    }

    /// Whether a live subscription stands under this connection and
    /// subscription identifier.
    pub closed spec fn subs_contains(&self, conn: u64, sub: u64) -> bool {
        self.subscribers.spec_contains(conn, sub)
    }

    /// Each name is registered at most once, and the subscriber table
    /// holds no duplicate keys.
    pub closed spec fn wf(&self) -> bool {
        &&& (forall|i: int, j: int|
            0 <= i < j < self.spec_methods().len() ==> (#[trigger] self.spec_methods()[i]).0
                != (#[trigger] self.spec_methods()[j]).0)
        &&& self.subscribers.wf()
    }

    /// An empty module.
    pub fn new() -> (r: Self)
        ensures
            r.wf(),
            r.spec_methods() == Seq::<(Seq<char>, MethodKindV)>::empty(),
            forall|c: u64, s: u64| !r.subs_contains(c, s),
    {
        let r = RpcModule { methods: Vec::new(), subscribers: SubscriberTable::new() };
        proof {
            lemma_methods_view_index(r.methods@, 0);
            assert(r.spec_methods() =~= Seq::<(Seq<char>, MethodKindV)>::empty());
        }
        r
    }

    /// Whether a name is already registered.
    fn contains_name(&self, name: &str) -> (r: bool)
        ensures
            r == has_name(self.spec_methods(), name@),
    {
        let mut i: usize = 0;
        proof {
            lemma_methods_view_index(self.methods@, 0);
        }
        while i < self.methods.len()
            invariant
                i <= self.methods@.len(),
                forall|j: int| 0 <= j < i ==> (#[trigger] methods_view(self.methods@)[j]).0 != name@,
                methods_view(self.methods@).len() == self.methods@.len(),
            decreases self.methods@.len() - i,
        {
            proof {
                lemma_methods_view_index(self.methods@, i as int);
            }
            if str_eq(self.methods[i].0.as_str(), name) {
                proof {
                    assert((#[trigger] methods_view(self.methods@)[i as int]).0 == name@);
                }
                return true;
            }
            i = i + 1;
        }
        proof {
            if has_name(self.spec_methods(), name@) {
                let k = choose|k: int|
                    0 <= k < self.spec_methods().len() && (#[trigger] self.spec_methods()[k]).0
                        == name@;
            }
        }
        false
    }

    /// Register a plain method under a fresh name. A name registered
    /// twice is refused, and the registry is left as it was.
    pub fn register_method(&mut self, name: &str) -> (r: Result<(), Error>)
        requires
            old(self).wf(),
        ensures
            final(self).wf(),
            has_name(old(self).spec_methods(), name@) ==> {
                &&& r matches Err(e)
                &&& (e matches Error::MethodAlreadyRegistered(n) && n@ == name@)
                &&& final(self).spec_methods() == old(self).spec_methods()
            },
            !has_name(old(self).spec_methods(), name@) ==> {
                &&& r is Ok
                &&& final(self).spec_methods() == old(self).spec_methods().push(
                    (name@, MethodKindV::Plain),
                )
            },
            forall|c: u64, s: u64|
                #[trigger] final(self).subs_contains(c, s) == old(self).subs_contains(c, s),
    {
        if self.contains_name(name) {
            return Err(Error::MethodAlreadyRegistered(String::from_str(name)));
        }
        let ghost before = self.methods@;
        self.methods.push((String::from_str(name), MethodKind::Plain));
        proof {
            self.lemma_push_view(before, (name@, MethodKindV::Plain));
        }
        Ok(())
    }

    /// Pushing an entry extends the view by its value and keeps
    /// well-formedness when the name is fresh.
    proof fn lemma_push_view(&self, before: Seq<(String, MethodKind)>, e: (Seq<char>, MethodKindV))
        requires
            self.methods@.len() == before.len() + 1,
            forall|j: int| 0 <= j < before.len() ==> self.methods@[j] == before[j],
            (self.methods@[before.len() as int].0@, kind_view(self.methods@[before.len() as int].1))
                == e,
            forall|i: int, j: int|
                0 <= i < j < methods_view(before).len() ==> (#[trigger] methods_view(before)[i]).0
                    != (#[trigger] methods_view(before)[j]).0,
            !has_name(methods_view(before), e.0),
            self.subscribers.wf(),
        ensures
            self.spec_methods() == methods_view(before).push(e),
            self.wf(),
    {
        assert forall|j: int| 0 <= j < self.methods@.len() implies methods_view(self.methods@)[j]
            == methods_view(before).push(e)[j] by {
            lemma_methods_view_index(self.methods@, j);
            lemma_methods_view_index(before, j);
        }
        lemma_methods_view_index(self.methods@, -1);
        lemma_methods_view_index(before, -1);
        assert(methods_view(self.methods@) =~= methods_view(before).push(e));
        assert forall|i: int, j: int|
            0 <= i < j < self.spec_methods().len() implies (#[trigger] self.spec_methods()[i]).0
            != (#[trigger] self.spec_methods()[j]).0 by {
            if j < before.len() {
            } else {
                assert(self.spec_methods()[j] == e);
                if self.spec_methods()[i].0 == e.0 {
                    assert(methods_view(before)[i].0 == e.0);
                }
            }
        }
    }

    /// Register a subscription: a subscribe method and an unsubscribe
    /// method, whose names must differ and both be fresh. On any
    /// refusal the registry is left as it was.
    pub fn register_subscription(&mut self, subscribe_name: &str, unsubscribe_name: &str) -> (r:
        Result<(), Error>)
        requires
            old(self).wf(),
        ensures
            final(self).wf(),
            subscribe_name@ == unsubscribe_name@ ==> {
                &&& r matches Err(e)
                &&& (e matches Error::SubscriptionNameConflict(n) && n@ == subscribe_name@)
                &&& final(self).spec_methods() == old(self).spec_methods()
            },
            subscribe_name@ != unsubscribe_name@ && has_name(
                old(self).spec_methods(),
                subscribe_name@,
            ) ==> {
                &&& r matches Err(e)
                &&& (e matches Error::MethodAlreadyRegistered(n) && n@ == subscribe_name@)
                &&& final(self).spec_methods() == old(self).spec_methods()
            },
            subscribe_name@ != unsubscribe_name@ && !has_name(
                old(self).spec_methods(),
                subscribe_name@,
            ) && has_name(old(self).spec_methods(), unsubscribe_name@) ==> {
                &&& r matches Err(e)
                &&& (e matches Error::MethodAlreadyRegistered(n) && n@ == unsubscribe_name@)
                &&& final(self).spec_methods() == old(self).spec_methods()
            },
            subscribe_name@ != unsubscribe_name@ && !has_name(
                old(self).spec_methods(),
                subscribe_name@,
            ) && !has_name(old(self).spec_methods(), unsubscribe_name@) ==> {
                &&& r is Ok
                &&& final(self).spec_methods() == old(self).spec_methods().push(
                    (
                        subscribe_name@,
                        MethodKindV::Subscription { unsubscribe: unsubscribe_name@ },
                    ),
                ).push(
                    (
                        unsubscribe_name@,
                        MethodKindV::Unsubscription { subscribe: subscribe_name@ },
                    ),
                )
            },
            forall|c: u64, s: u64|
                #[trigger] final(self).subs_contains(c, s) == old(self).subs_contains(c, s),
    {
        if str_eq(subscribe_name, unsubscribe_name) {
            return Err(Error::SubscriptionNameConflict(String::from_str(subscribe_name)));
        }
        if self.contains_name(subscribe_name) {
            return Err(Error::MethodAlreadyRegistered(String::from_str(subscribe_name)));
        }
        if self.contains_name(unsubscribe_name) {
            return Err(Error::MethodAlreadyRegistered(String::from_str(unsubscribe_name)));
        }
        let ghost before = self.methods@;
        self.methods.push(
            (
                String::from_str(subscribe_name),
                MethodKind::Subscription { unsubscribe: String::from_str(unsubscribe_name) },
            ),
        );
        proof {
            self.lemma_push_view(
                before,
                (subscribe_name@, MethodKindV::Subscription { unsubscribe: unsubscribe_name@ }),
            );
        }
        let ghost mid = self.methods@;
        self.methods.push(
            (
                String::from_str(unsubscribe_name),
                MethodKind::Unsubscription { subscribe: String::from_str(subscribe_name) },
            ),
        );
        proof {
            assert(!has_name(methods_view(mid), unsubscribe_name@)) by {
                lemma_lookup_push(
                    methods_view(before),
                    unsubscribe_name@,
                    (
                        subscribe_name@,
                        MethodKindV::Subscription { unsubscribe: unsubscribe_name@ },
                    ),
                );
                assert(methods_view(mid) == methods_view(before).push(
                    (
                        subscribe_name@,
                        MethodKindV::Subscription { unsubscribe: unsubscribe_name@ },
                    ),
                ));
            }
            self.lemma_push_view(
                mid,
                (unsubscribe_name@, MethodKindV::Unsubscription { subscribe: subscribe_name@ }),
            );
        }
        Ok(())
    }
}


/// A copy of a registry entry's kind, equal in meaning.
fn clone_kind(k: &MethodKind) -> (r: MethodKind)
    ensures
        kind_view(r) == kind_view(*k),
{
    match k {
        MethodKind::Plain => MethodKind::Plain,
        MethodKind::Subscription { unsubscribe } => MethodKind::Subscription {
            unsubscribe: unsubscribe.clone(),
        },
        MethodKind::Unsubscription { subscribe } => MethodKind::Unsubscription {
            subscribe: subscribe.clone(),
        },
    }
}

impl RpcModule {
    /// Add every method of `other` to this module. If any name of
    /// `other` is already present here, nothing is moved and the first
    /// colliding name is reported; neither module changes.
    pub fn merge(&mut self, other: &RpcModule) -> (r: Result<(), Error>)
        requires
            old(self).wf(),
            other.wf(),
        ensures
            final(self).wf(),
            (exists|j: int|
                0 <= j < other.spec_methods().len() && has_name(
                    old(self).spec_methods(),
                    (#[trigger] other.spec_methods()[j]).0,
                )) ==> {
                &&& r matches Err(e)
                &&& (e matches Error::MethodAlreadyRegistered(n) && has_name(
                    old(self).spec_methods(),
                    n@,
                ) && has_name(other.spec_methods(), n@))
                &&& final(self).spec_methods() == old(self).spec_methods()
            },
            !(exists|j: int|
                0 <= j < other.spec_methods().len() && has_name(
                    old(self).spec_methods(),
                    (#[trigger] other.spec_methods()[j]).0,
                )) ==> {
                &&& r is Ok
                &&& final(self).spec_methods() == old(self).spec_methods() + other.spec_methods()
            },
            forall|c: u64, s: u64|
                #[trigger] final(self).subs_contains(c, s) == old(self).subs_contains(c, s),
    {
        let ghost others = other.spec_methods();
        let mut i: usize = 0;
        proof {
            lemma_methods_view_index(other.methods@, -1);
        }
        while i < other.methods.len()
            invariant
                old(self) == self,
                old(self).wf(),
                other.wf(),
                others == other.spec_methods(),
                others.len() == other.methods@.len(),
                i <= other.methods@.len(),
                forall|j: int|
                    0 <= j < i ==> !has_name(
                        old(self).spec_methods(),
                        (#[trigger] others[j]).0,
                    ),
            decreases other.methods@.len() - i,
        {
            proof {
                lemma_methods_view_index(other.methods@, i as int);
            }
            if self.contains_name(other.methods[i].0.as_str()) {
                proof {
                    assert(has_name(other.spec_methods(), others[i as int].0));
                }
                return Err(
                    Error::MethodAlreadyRegistered(other.methods[i].0.clone()),
                );
            }
            i = i + 1;
        }
        let ghost base = self.methods@;
        let mut k: usize = 0;
        proof {
            lemma_methods_view_index(base, -1);
            assert(others.subrange(0, 0) =~= Seq::<(Seq<char>, MethodKindV)>::empty());
            assert(methods_view(base) + others.subrange(0, 0) =~= methods_view(base));
        }
        while k < other.methods.len()
            invariant
                old(self).wf(),
                other.wf(),
                others == other.spec_methods(),
                others.len() == other.methods@.len(),
                k <= other.methods@.len(),
                forall|j: int|
                    0 <= j < others.len() ==> !has_name(
                        old(self).spec_methods(),
                        (#[trigger] others[j]).0,
                    ),
                old(self).spec_methods() == methods_view(old(self).methods@),
                self.spec_methods() == old(self).spec_methods() + others.subrange(0, k as int),
                self.wf(),
                self.subscribers == old(self).subscribers,
            decreases other.methods@.len() - k,
        {
            proof {
                lemma_methods_view_index(other.methods@, k as int);
            }
            let name = other.methods[k].0.clone();
            let kind = clone_kind(&other.methods[k].1);
            let ghost before = self.methods@;
            let ghost e = others[k as int];
            proof {
                assert(!has_name(self.spec_methods(), e.0)) by {
                    if has_name(self.spec_methods(), e.0) {
                        let x = choose|x: int|
                            0 <= x < self.spec_methods().len() && (
                            #[trigger] self.spec_methods()[x]).0 == e.0;
                        if x < old(self).spec_methods().len() {
                            assert(self.spec_methods()[x] == old(self).spec_methods()[x]);
                            assert(has_name(old(self).spec_methods(), e.0));
                        } else {
                            let y = x - old(self).spec_methods().len();
                            assert(self.spec_methods()[x] == others.subrange(0, k as int)[y]);
                            assert(others[y].0 == e.0);
                            assert(y < k);
                            assert(false);
                        }
                    }
                }
            }
            self.methods.push((name, kind));
            proof {
                self.lemma_push_view(before, e);
                assert(others.subrange(0, k + 1) =~= others.subrange(0, k as int).push(e));
                assert(self.spec_methods() =~= old(self).spec_methods() + others.subrange(
                    0,
                    k + 1,
                ));
            }
            k = k + 1;
        }
        proof {
            assert(others.subrange(0, others.len() as int) =~= others);
            assert forall|j: int|
                0 <= j < others.len() implies !has_name(
                old(self).spec_methods(),
                (#[trigger] others[j]).0,
            ) by {}
        }
        Ok(())
    }
}

/// A registry handed over to a server: the named methods of one or
/// more merged modules.
pub struct Methods {
    entries: Vec<(String, MethodKind)>,
}

impl Methods {
    /// The names and kinds, in registration order.
    pub closed spec fn spec_entries(&self) -> Seq<(Seq<char>, MethodKindV)> {
        methods_view(self.entries@)
    }

    /// The registered names, in registration order.
    pub fn names(&self) -> (r: Vec<String>)
        ensures
            r@.len() == self.spec_entries().len(),
            forall|j: int| 0 <= j < r@.len() ==> (#[trigger] r@[j])@ == self.spec_entries()[j].0,
    {
        let mut out: Vec<String> = Vec::new();
        let mut i: usize = 0;
        proof {
            lemma_methods_view_index(self.entries@, -1);
        }
        while i < self.entries.len()
            invariant
                i <= self.entries@.len(),
                out@.len() == i,
                self.spec_entries().len() == self.entries@.len(),
                forall|j: int|
                    0 <= j < i ==> (#[trigger] out@[j])@ == self.spec_entries()[j].0,
            decreases self.entries@.len() - i,
        {
            proof {
                lemma_methods_view_index(self.entries@, i as int);
            }
            out.push(self.entries[i].0.clone());
            i = i + 1;
        }
        out
    }
}

impl RpcModule {
    /// Hand the registered methods over, consuming the module.
    pub fn into_methods(self) -> (r: Methods)
        ensures
            r.spec_entries() == self.spec_methods(),
    {
        Methods { entries: self.methods }
    }

    /// Wrap this module around a shared context value, turning it
    /// into a context-bearing module with the same registry.
    pub fn with_context<C>(self, ctx: C) -> (r: RpcContextModule<C>)
        ensures
            r.spec_module() == self,
            r.spec_ctx() == ctx,
    {
        RpcContextModule { ctx, module: self }
    }
}

/// A module that carries a shared context value, handed to each of
/// its callbacks. Registration and merging behave as in `RpcModule`.
pub struct RpcContextModule<C> {
    ctx: C,
    module: RpcModule,
}

impl<C> RpcContextModule<C> {
    /// The wrapped registry.
    pub closed spec fn spec_module(&self) -> RpcModule {
        self.module
    }

    /// A new module around a context value.
    pub fn new(ctx: C) -> (r: Self)
        ensures
            r.spec_module().wf(),
            r.spec_module().spec_methods() == Seq::<(Seq<char>, MethodKindV)>::empty(),
    {
        RpcContextModule { ctx, module: RpcModule::new() }
    }

    /// The shared context value, as a specification value.
    pub closed spec fn spec_ctx(&self) -> C {
        self.ctx
    }

    /// The context that each callback receives.
    pub fn context(&self) -> (r: &C)
        ensures
            *r == self.spec_ctx(),
    {
        &self.ctx
    }

    /// Register a plain method; the callback will receive the context.
    pub fn register_method(&mut self, name: &str) -> (r: Result<(), Error>)
        requires
            old(self).spec_module().wf(),
        ensures
            final(self).spec_module().wf(),
            has_name(old(self).spec_module().spec_methods(), name@) ==> {
                &&& r matches Err(e)
                &&& (e matches Error::MethodAlreadyRegistered(n) && n@ == name@)
                &&& final(self).spec_module().spec_methods() == old(
                    self,
                ).spec_module().spec_methods()
            },
            !has_name(old(self).spec_module().spec_methods(), name@) ==> {
                &&& r is Ok
                &&& final(self).spec_module().spec_methods() == old(
                    self,
                ).spec_module().spec_methods().push((name@, MethodKindV::Plain))
            },
    {
        self.module.register_method(name)
    }

    /// Register a subscription pair; the subscribe callback will
    /// receive the context.
    pub fn register_subscription_with_context(
        &mut self,
        subscribe_name: &str,
        unsubscribe_name: &str,
    ) -> (r: Result<(), Error>)
        requires
            old(self).spec_module().wf(),
        ensures
            final(self).spec_module().wf(),
            subscribe_name@ == unsubscribe_name@ ==> {
                &&& r matches Err(e)
                &&& (e matches Error::SubscriptionNameConflict(n) && n@ == subscribe_name@)
                &&& final(self).spec_module().spec_methods() == old(
                    self,
                ).spec_module().spec_methods()
            },
            subscribe_name@ != unsubscribe_name@ && has_name(
                old(self).spec_module().spec_methods(),
                subscribe_name@,
            ) ==> {
                &&& r matches Err(e)
                &&& (e matches Error::MethodAlreadyRegistered(n) && n@ == subscribe_name@)
                &&& final(self).spec_module().spec_methods() == old(
                    self,
                ).spec_module().spec_methods()
            },
            subscribe_name@ != unsubscribe_name@ && !has_name(
                old(self).spec_module().spec_methods(),
                subscribe_name@,
            ) && has_name(old(self).spec_module().spec_methods(), unsubscribe_name@) ==> {
                &&& r matches Err(e)
                &&& (e matches Error::MethodAlreadyRegistered(n) && n@ == unsubscribe_name@)
                &&& final(self).spec_module().spec_methods() == old(
                    self,
                ).spec_module().spec_methods()
            },
            subscribe_name@ != unsubscribe_name@ && !has_name(
                old(self).spec_module().spec_methods(),
                subscribe_name@,
            ) && !has_name(old(self).spec_module().spec_methods(), unsubscribe_name@) ==> {
                &&& r is Ok
                &&& final(self).spec_module().spec_methods() == old(
                    self,
                ).spec_module().spec_methods().push(
                    (
                        subscribe_name@,
                        MethodKindV::Subscription { unsubscribe: unsubscribe_name@ },
                    ),
                ).push(
                    (
                        unsubscribe_name@,
                        MethodKindV::Unsubscription { subscribe: subscribe_name@ },
                    ),
                )
                &&& has_name(final(self).spec_module().spec_methods(), subscribe_name@)
                &&& has_name(final(self).spec_module().spec_methods(), unsubscribe_name@)
            },
    {
        let ghost oldm = self.module.spec_methods();
        let r = self.module.register_subscription(subscribe_name, unsubscribe_name);
        proof {
            if subscribe_name@ != unsubscribe_name@ && !has_name(oldm, subscribe_name@)
                && !has_name(oldm, unsubscribe_name@) {
                let ms = self.module.spec_methods();
                assert(ms[ms.len() - 2].0 == subscribe_name@);
                assert(ms[ms.len() - 1].0 == unsubscribe_name@);
            }
        }
        r
    }

    /// Register a subscription pair, as
    /// `register_subscription_with_context` does.
    pub fn register_subscription(
        &mut self,
        subscribe_name: &str,
        unsubscribe_name: &str,
    ) -> (r: Result<(), Error>)
        requires
            old(self).spec_module().wf(),
        ensures
            final(self).spec_module().wf(),
            subscribe_name@ == unsubscribe_name@ ==> {
                &&& r matches Err(e)
                &&& (e matches Error::SubscriptionNameConflict(n) && n@ == subscribe_name@)
                &&& final(self).spec_module().spec_methods() == old(
                    self,
                ).spec_module().spec_methods()
            },
            subscribe_name@ != unsubscribe_name@ && (has_name(
                old(self).spec_module().spec_methods(),
                subscribe_name@,
            ) || has_name(old(self).spec_module().spec_methods(), unsubscribe_name@)) ==> {
                &&& r matches Err(e)
                &&& e is MethodAlreadyRegistered
                &&& final(self).spec_module().spec_methods() == old(
                    self,
                ).spec_module().spec_methods()
            },
            subscribe_name@ != unsubscribe_name@ && !has_name(
                old(self).spec_module().spec_methods(),
                subscribe_name@,
            ) && !has_name(old(self).spec_module().spec_methods(), unsubscribe_name@) ==> {
                &&& r is Ok
                &&& has_name(final(self).spec_module().spec_methods(), subscribe_name@)
                &&& has_name(final(self).spec_module().spec_methods(), unsubscribe_name@)
            },
    {
        self.register_subscription_with_context(subscribe_name, unsubscribe_name)
    }

    /// Add every method of `other`, as `RpcModule::merge` does.
    pub fn merge(&mut self, other: &RpcModule) -> (r: Result<(), Error>)
        requires
            old(self).spec_module().wf(),
            other.wf(),
        ensures
            final(self).spec_module().wf(),
            (exists|j: int|
                0 <= j < other.spec_methods().len() && has_name(
                    old(self).spec_module().spec_methods(),
                    (#[trigger] other.spec_methods()[j]).0,
                )) ==> {
                &&& r matches Err(e)
                &&& (e matches Error::MethodAlreadyRegistered(n) && has_name(
                    old(self).spec_module().spec_methods(),
                    n@,
                ) && has_name(other.spec_methods(), n@))
                &&& final(self).spec_module().spec_methods() == old(
                    self,
                ).spec_module().spec_methods()
            },
            !(exists|j: int|
                0 <= j < other.spec_methods().len() && has_name(
                    old(self).spec_module().spec_methods(),
                    (#[trigger] other.spec_methods()[j]).0,
                )) ==> (r is Ok && final(self).spec_module().spec_methods() == old(
                self,
            ).spec_module().spec_methods() + other.spec_methods()),
    {
        self.module.merge(other)
    }

    /// Unwrap the plain module, dropping the context.
    pub fn into_module(self) -> (r: RpcModule)
        ensures
            r == self.spec_module(),
    {
        self.module
    }

    /// Hand the registered methods over, consuming the module.
    pub fn into_methods(self) -> (r: Methods)
        ensures
            r.spec_entries() == self.spec_module().spec_methods(),
    {
        self.module.into_methods()
    }
}


/// What one inbound frame led to.
pub enum Dispatched {
    /// A complete reply was queued on the sink (an error reply, a
    /// subscribe confirmation, or an unsubscribe acknowledgement).
    Reply(String),
    /// A plain method was called: the caller runs the method's
    /// callback and answers through `respond`.
    CallReady { method: String, params: Option<JsonValue>, id: Id },
    /// A subscription was set up; the caller hands the sink to the
    /// subscribe callback, and answers a callback failure under the
    /// request's identifier. The confirmation, if the request had an
    /// identifier, has been queued already.
    Subscribed { reply: Option<String>, sink: SubscriptionSink, id: Id },
    /// Nothing is owed: a notification that needs no reply.
    NoReply,
}

/// The single positional parameter of an unsubscribe call, if the
/// parameters have that shape.
pub open spec fn one_sub_id(p: Option<JsonV>) -> Option<int> {
    match p {
        Some(JsonV::Arr(items)) => if items.len() == 1 && (items[0] matches JsonV::Int(i) && 0 <= i
            <= 0x7fffffffffffffff) {
            Some(items[0]->Int_0)
        } else {
            None
        },
        _ => None,
    }
}

/// The two subscriber tables hold the same keys.
pub open spec fn subs_same(a: RpcModule, b: RpcModule) -> bool {
    forall|c: u64, s: u64| #[trigger] a.subs_contains(c, s) == b.subs_contains(c, s)
}

/// What a callback's run came to: a value to return, a rejection of
/// the parameters, or a failure with a message.
pub enum CallOutcome {
    Success(JsonValue),
    InvalidParams,
    Failed(String),
}

/// Answer a call whose callback has run: a success response for a
/// value, the invalid-params error for a rejection, and the
/// server-error code with the failure's message otherwise. The frame
/// is queued on the sink and returned.
pub fn respond(id: Id, outcome: CallOutcome, out: &MethodSink) -> (r: String)
    requires
        wf_id(id),
    ensures
        match outcome {
            CallOutcome::Success(v) => r@ == ser_value(response_jv(id_jv(id), v@)),
            CallOutcome::InvalidParams => r@ == ser_value(
                error_jv(id_jv(id), INVALID_PARAMS_CODE as int, ("Invalid params")@),
            ),
            CallOutcome::Failed(m) => r@ == ser_value(
                error_jv(id_jv(id), CALL_EXECUTION_FAILED_CODE as int, m@),
            ),
        },
{
    let frame = match outcome {
        CallOutcome::Success(v) => response_frame(id, v),
        CallOutcome::InvalidParams => error_frame(id, INVALID_PARAMS_CODE, "Invalid params"),
        CallOutcome::Failed(m) => error_frame(id, CALL_EXECUTION_FAILED_CODE, m.as_str()),
    };
    let _ = sink_send(out, frame.clone());
    frame
}

impl RpcModule {
    /// A fresh subscription identifier for this connection: drawn from
    /// a uniform random source, masked to 53 bits, redrawn on a
    /// collision. Fails only if a bounded number of redraws all
    /// collide.
    fn fresh_sub_id(&self, conn: u64) -> (r: Option<u64>)
        ensures
            r matches Some(s) ==> s < 0x20000000000000u64 && !self.subs_contains(conn, s),
    {
        let mut attempts: usize = 0;
        while attempts < 100
            invariant
                attempts <= 100,
            decreases 100 - attempts,
        {
            let raw: u64 = rand::random();
            let sid = crate::mask_subscription_id(raw);
            if !self.subscribers.contains(conn, sid) {
                return Some(sid);
            }
            attempts = attempts + 1;
        }
        None
    }

    /// Serve one inbound frame on one connection.
    ///
    /// A frame that is not one JSON value is answered with the parse
    /// error; a value without the request shape with the invalid
    /// request error; an unknown method with the method-not-found
    /// error, silently dropped when the request has no identifier. A
    /// plain method is handed back for its callback to run; a
    /// subscribe inserts a fresh masked identifier into the subscriber
    /// table and confirms it; an unsubscribe removes its identifier,
    /// present or not, and acknowledges. Error replies for requests
    /// without an identifier are suppressed where the protocol says
    /// so.
    #[verifier::rlimit(100)]
    #[verifier::loop_isolation(false)]
    pub fn dispatch(&mut self, conn: u64, frame: &str, out: &MethodSink) -> (r: Dispatched)
        requires
            old(self).wf(),
        ensures
            final(self).wf(),
            final(self).spec_methods() == old(self).spec_methods(),
            full_jv(frame@) is None ==> {
                &&& subs_same(*final(self), *old(self))
                &&& r matches Dispatched::Reply(f) && f@ == ser_value(
                    error_jv(JsonV::Null, PARSE_ERROR_CODE as int, ("Parse error")@),
                )
            },
            full_jv(frame@) matches Some(w) ==> (request_of(w) is None ==> {
                &&& subs_same(*final(self), *old(self))
                &&& r matches Dispatched::Reply(f) && f@ == ser_value(
                    error_jv(JsonV::Null, INVALID_REQUEST_CODE as int, ("Invalid request")@),
                )
            }),
            full_jv(frame@) matches Some(w) ==> (request_of(w) matches Some(t) ==> (lookup(
                old(self).spec_methods(),
                t.0,
            ) is None ==> (subs_same(*final(self), *old(self)) && (t.2 is Null ==> r is NoReply)
                && (!(t.2 is Null) ==> (r matches Dispatched::Reply(f) && f@ == ser_value(
                error_jv(t.2, METHOD_NOT_FOUND_CODE as int, ("Method not found")@),
            )))))),
            full_jv(frame@) matches Some(w) ==> (request_of(w) matches Some(t) ==> (lookup(
                old(self).spec_methods(),
                t.0,
            ) matches Some(k) ==> (k is Plain ==> (subs_same(*final(self), *old(self)) && (r
                matches Dispatched::CallReady { method, params, id } && method@ == t.0 && opt_view(
                params,
            ) == t.1 && id_jv(id) == t.2 && wf_id(id)))))),
            full_jv(frame@) matches Some(w) ==> (request_of(w) matches Some(t) ==> (lookup(
                old(self).spec_methods(),
                t.0,
            ) matches Some(k) ==> (k is Subscription ==> {
                ||| (r matches Dispatched::Subscribed { reply, sink, id } && {
                    &&& id_jv(id) == t.2
                    &&& wf_id(id)
                    &&& sink.wf()
                    &&& sink.spec_method() == t.0
                    &&& sink.spec_sub_id() < 0x20000000000000u64
                    &&& !old(self).subs_contains(conn, sink.spec_sub_id())
                    &&& forall|c: u64, s: u64|
                        #[trigger] final(self).subs_contains(c, s) == (old(self).subs_contains(
                            c,
                            s,
                        ) || (c == conn && s == sink.spec_sub_id()))
                    &&& (t.2 is Null ==> reply is None)
                    &&& (!(t.2 is Null) ==> (reply matches Some(f) && f@ == ser_value(
                        response_jv(t.2, JsonV::Int(sink.spec_sub_id() as int)),
                    )))
                })
                ||| {
                    &&& subs_same(*final(self), *old(self))
                    &&& r matches Dispatched::Reply(f) && f@ == ser_value(
                        error_jv(t.2, INTERNAL_ERROR_CODE as int, ("Internal error")@),
                    )
                }
            }))),
            full_jv(frame@) matches Some(w) ==> (request_of(w) matches Some(t) ==> (lookup(
                old(self).spec_methods(),
                t.0,
            ) matches Some(k) ==> (k is Unsubscription ==> (one_sub_id(t.1) matches Some(sid) ==> {
                &&& forall|c: u64, s: u64|
                    #[trigger] final(self).subs_contains(c, s) == (old(self).subs_contains(c, s)
                        && !(c == conn && s == sid as u64))
                &&& (t.2 is Null ==> r is NoReply)
                &&& (!(t.2 is Null) ==> (r matches Dispatched::Reply(f) && f@ == ser_value(
                    response_jv(t.2, JsonV::Text(("Unsubscribed")@)),
                )))
            })))),
            full_jv(frame@) matches Some(w) ==> (request_of(w) matches Some(t) ==> (lookup(
                old(self).spec_methods(),
                t.0,
            ) matches Some(k) ==> (k is Unsubscription ==> (one_sub_id(t.1) is None ==> {
                &&& subs_same(*final(self), *old(self))
                &&& r matches Dispatched::Reply(f) && f@ == ser_value(
                    error_jv(t.2, INTERNAL_ERROR_CODE as int, ("Internal error")@),
                )
            })))),
    {
        let req = match parse_request(frame) {
            Ok(req) => req,
            Err(ParseFault::Malformed) => {
                let f = error_frame(Id::Null, PARSE_ERROR_CODE, "Parse error");
                let _ = sink_send(out, f.clone());
                return Dispatched::Reply(f);
            },
            Err(ParseFault::Invalid) => {
                let f = error_frame(Id::Null, INVALID_REQUEST_CODE, "Invalid request");
                let _ = sink_send(out, f.clone());
                return Dispatched::Reply(f);
            },
        };
        let is_notification = match &req.id {
            Id::Null => true,
            _ => false,
        };
        // look the method up
        let mut found: Option<usize> = None;
        let ghost ms = self.spec_methods();
        let mut i: usize = 0;
        proof {
            lemma_methods_view_index(self.methods@, -1);
            assert(ms.subrange(0, ms.len() as int) =~= ms);
        }
        while i < self.methods.len()
            invariant
                found is None ==> lookup(ms, req.method@) == lookup(
                    ms.subrange(i as int, ms.len() as int),
                    req.method@,
                ),
                found matches Some(x) ==> 0 <= x < ms.len() && ms[x as int].0 == req.method@
                    && lookup(ms, req.method@) == Some(ms[x as int].1),
                i <= ms.len(),
                found is Some ==> i == ms.len(),
            decreases ms.len() - i + (if found is Some { 0int } else { 1int }),
        {
            proof {
                lemma_methods_view_index(self.methods@, i as int);
                assert(ms.subrange(i as int, ms.len() as int)[0] == ms[i as int]);
            }
            if str_eq(self.methods[i].0.as_str(), req.method.as_str()) {
                found = Some(i);
                proof {
                    lemma_lookup_sub(ms, req.method@, i as int);
                }
                i = self.methods.len();
            } else {
                proof {
                    assert(ms.subrange(i as int, ms.len() as int).drop_first() =~= ms.subrange(
                        i + 1,
                        ms.len() as int,
                    ));
                }
                i = i + 1;
            }
        }
        let idx = match found {
            Some(idx) => idx,
            None => {
                proof {
                    assert(ms.subrange(ms.len() as int, ms.len() as int) =~= Seq::<
                        (Seq<char>, MethodKindV),
                    >::empty());
                }
                if is_notification {
                    return Dispatched::NoReply;
                }
                let f = error_frame(req.id, METHOD_NOT_FOUND_CODE, "Method not found");
                let _ = sink_send(out, f.clone());
                return Dispatched::Reply(f);
            },
        };
        proof {
            lemma_methods_view_index(self.methods@, idx as int);
        }
        match &self.methods[idx].1 {
            MethodKind::Plain => Dispatched::CallReady {
                method: req.method,
                params: req.params,
                id: req.id,
            },
            MethodKind::Subscription { unsubscribe: _ } => {
                let sid = match self.fresh_sub_id(conn) {
                    Some(sid) => sid,
                    None => {
                        let f = error_frame(req.id, INTERNAL_ERROR_CODE, "Internal error");
                        let _ = sink_send(out, f.clone());
                        return Dispatched::Reply(f);
                    },
                };
                self.subscribers.insert(conn, sid, clone_sink(out));
                let reply = if is_notification {
                    None
                } else {
                    let f = response_frame(clone_id(&req.id), JsonValue::Int(sid as i64));
                    let _ = sink_send(out, f.clone());
                    Some(f)
                };
                let sink = SubscriptionSink::bind(clone_sink(out), req.method, sid);
                Dispatched::Subscribed { reply, sink, id: req.id }
            },
            MethodKind::Unsubscription { subscribe: _ } => {
                let sid: u64 = match &req.params {
                    Some(JsonValue::Arr(items)) => {
                        proof {
                            crate::json::lemma_view_items_index(items@, 0);
                        }
                        if items.len() != 1 {
                            let f = error_frame(req.id, INTERNAL_ERROR_CODE, "Internal error");
                            let _ = sink_send(out, f.clone());
                            return Dispatched::Reply(f);
                        }
                        match &items[0] {
                            JsonValue::Int(v) => {
                                if *v < 0 {
                                    let f = error_frame(
                                        req.id,
                                        INTERNAL_ERROR_CODE,
                                        "Internal error",
                                    );
                                    let _ = sink_send(out, f.clone());
                                    return Dispatched::Reply(f);
                                }
                                *v as u64
                            },
                            _ => {
                                let f = error_frame(req.id, INTERNAL_ERROR_CODE, "Internal error");
                                let _ = sink_send(out, f.clone());
                                return Dispatched::Reply(f);
                            },
                        }
                    },
                    _ => {
                        let f = error_frame(req.id, INTERNAL_ERROR_CODE, "Internal error");
                        let _ = sink_send(out, f.clone());
                        return Dispatched::Reply(f);
                    },
                };
                self.subscribers.remove(conn, sid);
                if is_notification {
                    Dispatched::NoReply
                } else {
                    let f = response_frame(req.id, JsonValue::Text(String::from_str("Unsubscribed")));
                    let _ = sink_send(out, f.clone());
                    Dispatched::Reply(f)
                }
            },
        }
    }

    /// Tear one connection down: every subscription of that
    /// connection leaves the table.
    pub fn disconnect(&mut self, conn: u64)
        requires
            old(self).wf(),
        ensures
            final(self).wf(),
            final(self).spec_methods() == old(self).spec_methods(),
            forall|c: u64, s: u64|
                #[trigger] final(self).subs_contains(c, s) == (old(self).subs_contains(c, s) && c
                    != conn),
    {
        self.subscribers.remove_conn(conn);
        proof {
            assert(self.spec_methods() == old(self).spec_methods());
        }
    }
}

/// A lookup that hits at `i`, where the name stands nowhere earlier,
/// finds the kind at `i`.
proof fn lemma_lookup_sub(ms: Seq<(Seq<char>, MethodKindV)>, n: Seq<char>, i: int)
    requires
        0 <= i < ms.len(),
        ms[i].0 == n,
        lookup(ms, n) == lookup(ms.subrange(i, ms.len() as int), n),
    ensures
        lookup(ms, n) == Some(ms[i].1),
{
    assert(ms.subrange(i, ms.len() as int)[0] == ms[i]);
}


/// With distinct keys, a key's count is one where it stands and zero
/// where it does not.
proof fn lemma_count_unique(s: Seq<(u64, u64, MethodSink)>, conn: u64, sub: u64)
    requires
        forall|i: int, j: int|
            0 <= i < j < s.len() ==> !((#[trigger] s[i]).0 == (#[trigger] s[j]).0 && s[i].1
                == s[j].1),
    ensures
        SubscriberTable::count_in(s, conn, sub) == if (exists|i: int|
            0 <= i < s.len() && (#[trigger] s[i]).0 == conn && s[i].1 == sub) {
            1nat
        } else {
            0nat
        },
    decreases s.len(),
{
    if s.len() > 0 {
        let rest = s.drop_first();
        assert forall|i: int, j: int|
            0 <= i < j < rest.len() implies !((#[trigger] rest[i]).0 == (#[trigger] rest[j]).0
            && rest[i].1 == rest[j].1) by {
            assert(rest[i] == s[i + 1]);
            assert(rest[j] == s[j + 1]);
        }
        lemma_count_unique(rest, conn, sub);
        if s[0].0 == conn && s[0].1 == sub {
            assert(!(exists|i: int|
                0 <= i < rest.len() && (#[trigger] rest[i]).0 == conn && rest[i].1 == sub)) by {
                if exists|i: int|
                    0 <= i < rest.len() && (#[trigger] rest[i]).0 == conn && rest[i].1 == sub {
                    let i = choose|i: int|
                        0 <= i < rest.len() && (#[trigger] rest[i]).0 == conn && rest[i].1 == sub;
                    assert(s[i + 1] == rest[i]);
                    assert(false);
                }
            }
        } else {
            if exists|i: int| 0 <= i < s.len() && (#[trigger] s[i]).0 == conn && s[i].1 == sub {
                let i = choose|i: int|
                    0 <= i < s.len() && (#[trigger] s[i]).0 == conn && s[i].1 == sub;
                assert(rest[i - 1] == s[i]);
            }
            if exists|i: int|
                0 <= i < rest.len() && (#[trigger] rest[i]).0 == conn && rest[i].1 == sub {
                let i = choose|i: int|
                    0 <= i < rest.len() && (#[trigger] rest[i]).0 == conn && rest[i].1 == sub;
                assert(s[i + 1] == rest[i]);
            }
        }
    }
}

impl SubscriberTable {
    /// Law: the table never holds a key twice. A present key stands
    /// on exactly one entry, an absent one on none — so one subscribe
    /// yields one entry, and one unsubscribe clears it.
    pub proof fn lemma_exactly_one(&self, conn: u64, sub: u64)
        requires
            self.wf(),
        ensures
            self.spec_contains(conn, sub) ==> self.spec_count(conn, sub) == 1,
            !self.spec_contains(conn, sub) ==> self.spec_count(conn, sub) == 0,
    {
        lemma_count_unique(self.entries@, conn, sub);
    }
}

impl RpcModule {
    /// Law: the subscriber table of a well-formed module holds a key
    /// on exactly one entry where it is present, and on none where it
    /// is not.
    pub proof fn lemma_subscriber_exactly_one(&self, conn: u64, sub: u64)
        requires
            self.wf(),
        ensures
            self.subs_contains(conn, sub) ==> self.subscribers_count(conn, sub) == 1,
            !self.subs_contains(conn, sub) ==> self.subscribers_count(conn, sub) == 0,
    {
        self.subscribers.lemma_exactly_one(conn, sub);
    }

    /// How many table entries hold this key.
    pub closed spec fn subscribers_count(&self, conn: u64, sub: u64) -> nat {
        self.subscribers.spec_count(conn, sub)
    }

    /// Whether a live subscription stands under this connection and
    /// subscription identifier.
    pub fn has_subscriber(&self, conn: u64, sub: u64) -> (r: bool)
        ensures
            r == self.subs_contains(conn, sub),
    {
        self.subscribers.contains(conn, sub)
    }
}


/// Law: one subscribe, one unsubscribe. A subscribe (as `dispatch`
/// describes it) takes a table without the key to one where the key
/// stands on exactly one entry; the matching unsubscribe takes it
/// back to a table with zero entries for the key, and leaves every
/// other subscription exactly as it was.
pub proof fn lemma_subscription_lifecycle(
    before: &RpcModule,
    mid: &RpcModule,
    after: &RpcModule,
    conn: u64,
    sid: u64,
)
    requires
        before.wf(),
        mid.wf(),
        after.wf(),
        !before.subs_contains(conn, sid),
        forall|c: u64, s: u64|
            #[trigger] mid.subs_contains(c, s) == (before.subs_contains(c, s) || (c == conn && s
                == sid)),
        forall|c: u64, s: u64|
            #[trigger] after.subs_contains(c, s) == (mid.subs_contains(c, s) && !(c == conn && s
                == sid)),
    ensures
        mid.subscribers_count(conn, sid) == 1,
        after.subscribers_count(conn, sid) == 0,
        forall|c: u64, s: u64| #[trigger] after.subs_contains(c, s) == before.subs_contains(c, s),
{
    mid.lemma_subscriber_exactly_one(conn, sid);
    after.lemma_subscriber_exactly_one(conn, sid);
}

} // verus!
