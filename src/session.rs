//! The per-backend session router: many clients share one backend, and
//! request identifiers are rewritten so that each response finds its client.
use vstd::prelude::*;
use crate::seq_facts::{lemma_filter_all, lemma_filter_contains, lemma_filter_distinct, lemma_filter_step};

verus! {

/// A protocol request identifier: an integer or a string.
#[derive(Debug, Clone, PartialEq, Eq)]
pub enum MsgId {
    Num(i64),
    Str(String),
}

/// One in-flight request: the synthetic identifier the backend saw, the
/// client that sent it and the identifier that client used.
pub struct Pending {
    pub synthetic: i64,
    pub client: u64,
    pub original: MsgId,
}

/// Why the router refused an event.
#[derive(Debug, PartialEq, Eq, Structural, Clone, Copy)]
pub enum RouteError {
    /// The client is not attached (or the backend is gone).
    UnknownClient,
    /// Every identifier of this backend has been handed out.
    Exhausted,
    /// The backend has terminated; nothing can attach any more.
    Terminated,
    /// The payload is not a message that can be routed.
    Malformed,
}

/// Abstract state of a router.
pub struct RouterView {
    pub live: bool,
    pub next_client: u64,
    pub next_synthetic: i64,
    pub clients: Seq<u64>,
    pub pending: Seq<Pending>,
}

/// Routing state for one backend process.
pub struct Router {
    live: bool,
    next_client: u64,
    next_synthetic: i64,
    clients: Vec<u64>,
    pending: Vec<Pending>,
}

impl View for Router {
    type V = RouterView;

    closed spec fn view(&self) -> RouterView {
        RouterView {
            live: self.live,
            next_client: self.next_client,
            next_synthetic: self.next_synthetic,
            clients: self.clients@,
            pending: self.pending@,
        }
    }
}

/// The entry pending under `s`, if any.
pub open spec fn owner_of(p: Seq<Pending>, s: i64) -> Option<Pending> {
    if exists|i: int| 0 <= i < p.len() && p[i].synthetic == s {
        Some(p[choose|i: int| 0 <= i < p.len() && p[i].synthetic == s])
    } else {
        None
    }
}

pub open spec fn other_client(c: u64) -> spec_fn(u64) -> bool {
    |x: u64| x != c
}

pub open spec fn not_owned_by(c: u64) -> spec_fn(Pending) -> bool {
    |e: Pending| e.client != c
}

pub open spec fn not_under(s: i64) -> spec_fn(Pending) -> bool {
    |e: Pending| e.synthetic != s
}

/// The pending table with every entry of client `c` taken out.
pub open spec fn without_client(p: Seq<Pending>, c: u64) -> Seq<Pending> {
    p.filter(not_owned_by(c))
}

/// The pending table with the entry under `s` taken out.
pub open spec fn without_synthetic(p: Seq<Pending>, s: i64) -> Seq<Pending> {
    p.filter(not_under(s))
}

impl RouterView {
    /// Clients are unique and issued by the counter; synthetic identifiers
    /// are unique and issued by the counter; each pending entry belongs to an
    /// attached client; a terminated router holds nothing.
    pub open spec fn wf(self) -> bool {
        &&& self.clients.no_duplicates()
        &&& forall|i: int| 0 <= i < self.clients.len() ==> #[trigger] self.clients[i] < self.next_client
        &&& 0 <= self.next_synthetic
        &&& forall|i: int, j: int|
            0 <= i < self.pending.len() && 0 <= j < self.pending.len() && i != j
                ==> #[trigger] self.pending[i].synthetic != #[trigger] self.pending[j].synthetic
        &&& forall|i: int| 0 <= i < self.pending.len() ==>
            0 <= #[trigger] self.pending[i].synthetic < self.next_synthetic
                && self.clients.contains(self.pending[i].client)
        &&& !self.live ==> self.clients.len() == 0 && self.pending.len() == 0
    }

    /// State after a client attaches.
    pub open spec fn attach(self) -> RouterView {
        if self.live && self.next_client < u64::MAX {
            RouterView {
                next_client: (self.next_client + 1) as u64,
                clients: self.clients.push(self.next_client),
                ..self
            }
        } else {
            self
        }
    }

    /// State after client `c` detaches: its pending entries are dropped.
    pub open spec fn detach(self, c: u64) -> RouterView {
        RouterView {
            clients: self.clients.filter(other_client(c)),
            pending: without_client(self.pending, c),
            ..self
        }
    }

    /// State after client `c` sends a request with identifier `o`.
    pub open spec fn request(self, c: u64, o: MsgId) -> RouterView {
        if self.clients.contains(c) && self.next_synthetic < i64::MAX {
            RouterView {
                next_synthetic: (self.next_synthetic + 1) as i64,
                pending: self.pending.push(Pending { synthetic: self.next_synthetic, client: c, original: o }),
                ..self
            }
        } else {
            self
        }
    }

    /// State after the backend answers synthetic identifier `s`.
    pub open spec fn response(self, s: i64) -> RouterView {
        RouterView { pending: without_synthetic(self.pending, s), ..self }
    }

    /// State after the backend exits.
    pub open spec fn crash(self) -> RouterView {
        RouterView { live: false, clients: Seq::empty(), pending: Seq::empty(), ..self }
    }
}

impl Router {
    /// A live router with no clients.
    pub fn new() -> (r: Router)
        ensures
            r@.wf(),
            r@.live,
            r@.clients.len() == 0,
            r@.pending.len() == 0,
            r@.next_client == 0,
            r@.next_synthetic == 0,
    {
        Router { live: true, next_client: 0, next_synthetic: 0, clients: Vec::new(), pending: Vec::new() }
    }

    pub fn next_synthetic(&self) -> (r: i64)
        ensures
            r == self@.next_synthetic,
    {
        self.next_synthetic
    }

    pub fn is_live(&self) -> (r: bool)
        ensures
            r == self@.live,
    {
        self.live
    }

    /// The attached clients, in the order they attached.
    pub fn clients(&self) -> (r: Vec<u64>)
        ensures
            r@ == self@.clients,
    {
        let mut out: Vec<u64> = Vec::new();
        let mut i: usize = 0;
        while i < self.clients.len()
            invariant
                i <= self.clients@.len(),
                out@ == self.clients@.take(i as int),
            decreases self.clients@.len() - i,
        {
            out.push(self.clients[i]);
            i = i + 1;
            proof {
                assert(out@ =~= self.clients@.take(i as int));
            }
        }
        proof {
            assert(self.clients@.take(i as int) =~= self.clients@);
        }
        out
    }

    /// Registers a new client and returns its identifier.
    pub fn attach(&mut self) -> (r: Result<u64, RouteError>)
        requires
            old(self)@.wf(),
        ensures
            final(self)@.wf(),
            final(self)@ == old(self)@.attach(),
            !old(self)@.live ==> r == Err::<u64, RouteError>(RouteError::Terminated),
            old(self)@.live && old(self)@.next_client == u64::MAX ==> r == Err::<u64, RouteError>(
                RouteError::Exhausted,
            ),
            old(self)@.live && old(self)@.next_client < u64::MAX ==> r == Ok::<u64, RouteError>(
                old(self)@.next_client,
            ),
    {
        if !self.live {
            return Err(RouteError::Terminated);
        }
        if self.next_client == u64::MAX {
            return Err(RouteError::Exhausted);
        }
        let c = self.next_client;
        self.clients.push(c);
        self.next_client = c + 1;
        proof {
            let v = self@;
            assert forall|i: int, j: int| 0 <= i < j < v.clients.len() implies v.clients[i] != v.clients[j] by {
                if j == v.clients.len() - 1 {
                    assert(old(self)@.clients[i] < c);
                } else {
                    assert(old(self)@.clients.no_duplicates());
                }
            }
            assert forall|i: int| 0 <= i < v.pending.len() implies v.clients.contains(
                #[trigger] v.pending[i].client,
            ) by {
                assert(old(self)@.pending[i].synthetic < old(self)@.next_synthetic);
                let k = choose|k: int| 0 <= k < old(self)@.clients.len() && old(self)@.clients[k] == v.pending[i].client;
                assert(v.clients[k] == v.pending[i].client);
            }
        }
        Ok(c)
    }

    /// Removes client `c` and every request it still has in flight; the
    /// backend's eventual answers to those are dropped.
    pub fn detach(&mut self, c: u64)
        requires
            old(self)@.wf(),
        ensures
            final(self)@.wf(),
            final(self)@ == old(self)@.detach(c),
    {
        let ghost old_v = self@;
        let mut kept_clients: Vec<u64> = Vec::new();
        let mut i: usize = 0;
        while i < self.clients.len()
            invariant
                i <= self.clients@.len(),
                self@ == old_v,
                kept_clients@ == self.clients@.take(i as int).filter(other_client(c)),
            decreases self.clients@.len() - i,
        {
            proof {
                lemma_filter_step(self.clients@, other_client(c), i as int);
            }
            if self.clients[i] != c {
                kept_clients.push(self.clients[i]);
            }
            proof {
                assert(other_client(c)(self.clients@[i as int]) == (self.clients@[i as int] != c));
            }
            i = i + 1;
        }
        proof {
            assert(self.clients@.take(i as int) =~= self.clients@);
        }
        let mut rest: Vec<Pending> = Vec::new();
        core::mem::swap(&mut rest, &mut self.pending);
        let mut kept: Vec<Pending> = Vec::new();
        let ghost k: int = 0;
        while rest.len() > 0
            invariant
                0 <= k <= old_v.pending.len(),
                rest@ == old_v.pending.skip(k),
                kept@ == old_v.pending.take(k).filter(not_owned_by(c)),
            decreases rest@.len(),
        {
            proof {
                lemma_filter_step(old_v.pending, not_owned_by(c), k);
            }
            let e = rest.remove(0);
            proof {
                assert(e == old_v.pending[k]);
                assert(not_owned_by(c)(e) == (e.client != c));
            }
            if e.client != c {
                kept.push(e);
            }
            proof {
                k = k + 1;
                assert(rest@ =~= old_v.pending.skip(k));
            }
        }
        proof {
            assert(old_v.pending.take(k) =~= old_v.pending);
        }
        self.clients = kept_clients;
        self.pending = kept;
        proof {
            let v = self@;
            assert(v.clients =~= old_v.clients.filter(other_client(c)));
            assert(v.pending =~= without_client(old_v.pending, c));
            assert forall|i: int| 0 <= i < v.clients.len() implies #[trigger] v.clients[i] < v.next_client by {
                assert(v.clients.contains(v.clients[i]));
                lemma_filter_contains(old_v.clients, other_client(c), v.clients[i]);
            }
            lemma_filter_distinct(old_v.clients, other_client(c), |x: u64| x);
            assert forall|i: int| 0 <= i < v.pending.len() implies 0 <= #[trigger] v.pending[i].synthetic
                < v.next_synthetic && v.clients.contains(v.pending[i].client) by {
                assert(v.pending.contains(v.pending[i]));
                lemma_filter_contains(old_v.pending, not_owned_by(c), v.pending[i]);
                let e = v.pending[i];
                let k = choose|k: int| 0 <= k < old_v.pending.len() && old_v.pending[k] == e;
                assert(old_v.pending[k].synthetic < old_v.next_synthetic);
                lemma_filter_contains(old_v.clients, other_client(c), e.client);
            }
            lemma_filter_distinct(old_v.pending, not_owned_by(c), |e: Pending| e.synthetic);
        }
    }

    /// Whether client `c` is attached.
    pub fn has_client(&self, c: u64) -> (r: bool)
        ensures
            r == self@.clients.contains(c),
    {
        let mut i: usize = 0;
        while i < self.clients.len()
            invariant
                i <= self.clients@.len(),
                forall|j: int| 0 <= j < i ==> self.clients@[j] != c,
            decreases self.clients@.len() - i,
        {
            if self.clients[i] == c {
                return true;
            }
            i = i + 1;
        }
        false
    }

    /// Records a request of client `c` that carried identifier `original`
    /// and returns the synthetic identifier to send to the backend instead.
    pub fn forward_request(&mut self, c: u64, original: MsgId) -> (r: Result<i64, RouteError>)
        requires
            old(self)@.wf(),
        ensures
            final(self)@.wf(),
            final(self)@ == old(self)@.request(c, original),
            !old(self)@.clients.contains(c) ==> r == Err::<i64, RouteError>(RouteError::UnknownClient),
            old(self)@.clients.contains(c) && old(self)@.next_synthetic == i64::MAX ==> r == Err::<
                i64,
                RouteError,
            >(RouteError::Exhausted),
            old(self)@.clients.contains(c) && old(self)@.next_synthetic < i64::MAX ==> r == Ok::<
                i64,
                RouteError,
            >(old(self)@.next_synthetic),
    {
        if !self.has_client(c) {
            return Err(RouteError::UnknownClient);
        }
        if self.next_synthetic == i64::MAX {
            return Err(RouteError::Exhausted);
        }
        let s = self.next_synthetic;
        self.pending.push(Pending { synthetic: s, client: c, original });
        self.next_synthetic = s + 1;
        proof {
            let v = self@;
            let o = old(self)@;
            assert forall|i: int| 0 <= i < v.pending.len() implies 0 <= #[trigger] v.pending[i].synthetic
                < v.next_synthetic && v.clients.contains(v.pending[i].client) by {
                if i < o.pending.len() {
                    assert(o.pending[i].synthetic < o.next_synthetic);
                }
            }
            assert forall|i: int, j: int|
                0 <= i < v.pending.len() && 0 <= j < v.pending.len() && i != j
                    implies #[trigger] v.pending[i].synthetic != #[trigger] v.pending[j].synthetic by {
                if i < o.pending.len() {
                    assert(o.pending[i].synthetic < o.next_synthetic);
                }
                if j < o.pending.len() {
                    assert(o.pending[j].synthetic < o.next_synthetic);
                }
            }
        }
        Ok(s)
    }

    /// Takes the entry pending under synthetic identifier `s` out of the
    /// table and returns its client and original identifier; `None` when no
    /// request is pending under `s` (its client left, or it is unknown).
    pub fn take_response(&mut self, s: i64) -> (r: Option<(u64, MsgId)>)
        requires
            old(self)@.wf(),
        ensures
            final(self)@.wf(),
            final(self)@ == old(self)@.response(s),
            r == (match owner_of(old(self)@.pending, s) {
                Some(e) => Some((e.client, e.original)),
                None => None,
            }),
    {
        let ghost o = self@;
        let mut i: usize = 0;
        while i < self.pending.len()
            invariant
                self@ == o,
                o == old(self)@,
                o.wf(),
                i <= o.pending.len(),
                forall|j: int| 0 <= j < i ==> o.pending[j].synthetic != s,
            decreases o.pending.len() - i,
        {
            if self.pending[i].synthetic == s {
                let e = self.pending.remove(i);
                proof {
                    assert forall|j: int| 0 <= j < o.pending.len() && o.pending[j].synthetic == s implies j == i by {
                        assert(o.pending[i as int].synthetic == s);
                    }
                    assert(owner_of(o.pending, s) == Some(o.pending[i as int]));
                    lemma_remove_unique(o.pending, s, i as int);
                    let v = self@;
                    assert forall|a: int| 0 <= a < v.pending.len() implies 0 <= #[trigger] v.pending[a].synthetic
                        < v.next_synthetic && v.clients.contains(v.pending[a].client) by {
                        if a < i {
                            assert(o.pending[a].synthetic < o.next_synthetic);
                        } else {
                            assert(o.pending[a + 1].synthetic < o.next_synthetic);
                        }
                    }
                    assert forall|a: int, b: int|
                        0 <= a < v.pending.len() && 0 <= b < v.pending.len() && a != b
                            implies #[trigger] v.pending[a].synthetic != #[trigger] v.pending[b].synthetic by {
                        let a2 = if a < i { a } else { a + 1 };
                        let b2 = if b < i { b } else { b + 1 };
                        assert(v.pending[a] == o.pending[a2]);
                        assert(v.pending[b] == o.pending[b2]);
                    }
                    assert(e == o.pending[i as int]);
                    assert(v.pending == o.pending.filter(not_under(s)));
                    assert(v == o.response(s));
                }
                return Some((e.client, e.original));
            }
            i = i + 1;
        }
        proof {
            lemma_filter_all(o.pending, not_under(s));
        }
        None
    }

    /// The backend exited: every attached client is returned, to be sent a
    /// terminal signal, and the pending table is discarded.
    pub fn crash(&mut self) -> (r: Vec<u64>)
        requires
            old(self)@.wf(),
        ensures
            final(self)@.wf(),
            final(self)@ == old(self)@.crash(),
            r@ == old(self)@.clients,
    {
        let r = self.clients();
        self.live = false;
        self.clients = Vec::new();
        self.pending = Vec::new();
        proof {
            assert(self@ =~= old(self)@.crash());
        }
        r
    }
}

proof fn lemma_remove_unique(p: Seq<Pending>, s: i64, i: int)
    requires
        0 <= i < p.len(),
        forall|j: int| 0 <= j < p.len() ==> (p[j].synthetic == s <==> j == i),
    ensures
        p.filter(not_under(s)) == p.remove(i),
    decreases p.len(),
{
    reveal(Seq::filter);
    if i == p.len() - 1 {
        lemma_filter_all(p.drop_last(), not_under(s));
        assert(p.remove(i) =~= p.drop_last());
    } else {
        lemma_remove_unique(p.drop_last(), s, i);
        assert(p.remove(i) =~= p.drop_last().remove(i).push(p.last()));
    }
}

/// An event that a router handles.
pub enum RouterEvent {
    Attach,
    Detach(u64),
    Request(u64, MsgId),
    Response(i64),
}

/// State after one event.
pub open spec fn step(v: RouterView, e: RouterEvent) -> RouterView {
    match e {
        RouterEvent::Attach => v.attach(),
        RouterEvent::Detach(c) => v.detach(c),
        RouterEvent::Request(c, o) => v.request(c, o),
        RouterEvent::Response(s) => v.response(s),
    }
}

/// State after a sequence of events, in order.
pub open spec fn run(v: RouterView, es: Seq<RouterEvent>) -> RouterView
    decreases es.len(),
{
    if es.len() == 0 {
        v
    } else {
        run(step(v, es[0]), es.drop_first())
    }
}

/// `e` is in `v`'s table and is the only entry under its synthetic identifier.
pub open spec fn sole_entry(v: RouterView, e: Pending) -> bool {
    &&& e.synthetic < v.next_synthetic
    &&& v.pending.contains(e)
    &&& forall|i: int| 0 <= i < v.pending.len() && (#[trigger] v.pending[i]).synthetic == e.synthetic
        ==> v.pending[i] == e
}

proof fn lemma_sole_entry_step(v: RouterView, e: Pending, ev: RouterEvent)
    requires
        sole_entry(v, e),
        ev != RouterEvent::Detach(e.client),
        ev != RouterEvent::Response(e.synthetic),
    ensures
        sole_entry(step(v, ev), e),
{
    let w = step(v, ev);
    match ev {
        RouterEvent::Attach => {},
        RouterEvent::Detach(c) => {
            lemma_filter_contains(v.pending, not_owned_by(c), e);
            assert forall|i: int| 0 <= i < w.pending.len() && (#[trigger] w.pending[i]).synthetic == e.synthetic
                implies w.pending[i] == e by {
                assert(w.pending.contains(w.pending[i]));
                v.pending.lemma_filter_contains_rev(not_owned_by(c), w.pending[i]);
            }
        },
        RouterEvent::Request(c, o) => {
            if v.clients.contains(c) && v.next_synthetic < i64::MAX {
                let k = choose|k: int| 0 <= k < v.pending.len() && v.pending[k] == e;
                assert(w.pending[k] == e);
            }
        },
        RouterEvent::Response(s) => {
            lemma_filter_contains(v.pending, not_under(s), e);
            assert forall|i: int| 0 <= i < w.pending.len() && (#[trigger] w.pending[i]).synthetic == e.synthetic
                implies w.pending[i] == e by {
                assert(w.pending.contains(w.pending[i]));
                v.pending.lemma_filter_contains_rev(not_under(s), w.pending[i]);
            }
        },
    }
}

/// A request is answered to the client that sent it, under the identifier it
/// used: whatever other clients attach, detach, send or get answered in the
/// meantime, as long as the sender stays attached, the synthetic identifier
/// it was given resolves to that sender and its own identifier alone.
pub proof fn lemma_response_reaches_sender(v: RouterView, c: u64, o: MsgId, es: Seq<RouterEvent>)
    requires
        v.wf(),
        v.clients.contains(c),
        v.next_synthetic < i64::MAX,
        forall|i: int| 0 <= i < es.len() ==> #[trigger] es[i] != RouterEvent::Detach(c),
        forall|i: int| 0 <= i < es.len() ==> #[trigger] es[i] != RouterEvent::Response(v.next_synthetic),
    ensures
        owner_of(run(v.request(c, o), es).pending, v.next_synthetic) == Some(
            Pending { synthetic: v.next_synthetic, client: c, original: o },
        ),
{
    let e = Pending { synthetic: v.next_synthetic, client: c, original: o };
    let w = v.request(c, o);
    assert(w.pending[v.pending.len() as int] == e);
    assert forall|i: int| 0 <= i < w.pending.len() && (#[trigger] w.pending[i]).synthetic == e.synthetic
        implies w.pending[i] == e by {
        if i < v.pending.len() {
            assert(v.pending[i].synthetic < v.next_synthetic);
        }
    }
    lemma_sole_entry_run(w, e, es);
    let z = run(w, es);
    let k = choose|k: int| 0 <= k < z.pending.len() && z.pending[k] == e;
    assert(z.pending[k].synthetic == e.synthetic);
}

proof fn lemma_sole_entry_run(v: RouterView, e: Pending, es: Seq<RouterEvent>)
    requires
        sole_entry(v, e),
        forall|i: int| 0 <= i < es.len() ==> #[trigger] es[i] != RouterEvent::Detach(e.client),
        forall|i: int| 0 <= i < es.len() ==> #[trigger] es[i] != RouterEvent::Response(e.synthetic),
    ensures
        sole_entry(run(v, es), e),
    decreases es.len(),
{
    if es.len() > 0 {
        assert(es[0] != RouterEvent::Detach(e.client));
        assert(es[0] != RouterEvent::Response(e.synthetic));
        lemma_sole_entry_step(v, e, es[0]);
        let rest = es.drop_first();
        assert forall|i: int| 0 <= i < rest.len() implies #[trigger] rest[i] != RouterEvent::Detach(e.client) by {
            assert(rest[i] == es[i + 1]);
        }
        assert forall|i: int| 0 <= i < rest.len() implies #[trigger] rest[i] != RouterEvent::Response(e.synthetic) by {
            assert(rest[i] == es[i + 1]);
        }
        lemma_sole_entry_run(step(v, es[0]), e, rest);
    }
}

/// Once the backend has exited, no client is attached and no response is
/// routed, whatever events follow.
pub proof fn lemma_nothing_routed_after_crash(v: RouterView, es: Seq<RouterEvent>, s: i64)
    ensures
        run(v.crash(), es).clients.len() == 0,
        owner_of(run(v.crash(), es).pending, s) == None::<Pending>,
        !run(v.crash(), es).live,
{
    lemma_crashed_run(v.crash(), es);
}

proof fn lemma_crashed_run(v: RouterView, es: Seq<RouterEvent>)
    requires
        !v.live,
        v.clients.len() == 0,
        v.pending.len() == 0,
    ensures
        !run(v, es).live,
        run(v, es).clients.len() == 0,
        run(v, es).pending.len() == 0,
    decreases es.len(),
{
    if es.len() > 0 {
        let w = step(v, es[0]);
        reveal(Seq::filter);
        match es[0] {
            RouterEvent::Detach(c) => {
                assert(v.clients.filter(other_client(c)) =~= Seq::<u64>::empty());
                assert(without_client(v.pending, c) =~= Seq::<Pending>::empty());
            },
            RouterEvent::Response(s) => {
                assert(without_synthetic(v.pending, s) =~= Seq::<Pending>::empty());
            },
            _ => {},
        }
        lemma_crashed_run(w, es.drop_first());
    }
}

} // verus!
