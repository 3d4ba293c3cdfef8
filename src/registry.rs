//! The process registry: at most one backend per identity, with idle reaping.
//! Spawning and signalling processes happen outside; this object decides.
use vstd::prelude::*;
use crate::seq_facts::{lemma_filter_contains, lemma_filter_distinct, lemma_filter_step};

verus! {

/// The identity of a backend: its command path and argument list.
#[derive(Debug, Clone)]
pub struct BackendKey {
    pub path: String,
    pub args: Vec<String>,
}

pub open spec fn strings_view(v: Seq<String>) -> Seq<Seq<char>> {
    v.map_values(|s: String| s@)
}

impl View for BackendKey {
    type V = (Seq<char>, Seq<Seq<char>>);

    open spec fn view(&self) -> (Seq<char>, Seq<Seq<char>>) {
        (self.path@, strings_view(self.args@))
    }
}

/// Whether two keys name the same backend.
pub fn same_key(a: &BackendKey, b: &BackendKey) -> (r: bool)
    ensures
        r == (a@ == b@),
{
    if a.path != b.path || a.args.len() != b.args.len() {
        proof {
            if a.args@.len() != b.args@.len() {
                assert(strings_view(a.args@).len() != strings_view(b.args@).len());
            }
        }
        return false;
    }
    let mut i: usize = 0;
    while i < a.args.len()
        invariant
            i <= a.args@.len(),
            a.args@.len() == b.args@.len(),
            forall|j: int| 0 <= j < i ==> a.args@[j]@ == b.args@[j]@,
        decreases a.args@.len() - i,
    {
        if a.args[i] != b.args[i] {
            proof {
                assert(strings_view(a.args@)[i as int] != strings_view(b.args@)[i as int]);
            }
            return false;
        }
        i = i + 1;
    }
    proof {
        assert(strings_view(a.args@) =~= strings_view(b.args@));
    }
    true
}

/// Where a registered backend is in its life.
#[derive(Debug, PartialEq, Eq, Structural, Clone, Copy)]
pub enum Phase {
    /// Its process is being started; others asking for it wait.
    Spawning,
    /// Its process runs.
    Active,
}

/// One registered backend.
pub struct Entry {
    pub key: BackendKey,
    pub backend: u64,
    pub phase: Phase,
    /// How many clients are attached.
    pub clients: u64,
    /// When the client count last dropped to zero (or the process started).
    pub idle_since: u64,
}

/// What `resolve` decided.
#[derive(Debug, PartialEq, Eq, Structural, Clone, Copy)]
pub enum Resolution {
    /// A running backend is registered under the key.
    Existing(u64),
    /// Another request is starting this backend: wait for it.
    Starting(u64),
    /// Nothing is registered: start a process, now registered as this backend.
    Spawn(u64),
    /// Every backend identifier has been used.
    Exhausted,
}

/// Abstract state of the registry.
pub struct RegistryView {
    pub entries: Seq<Entry>,
    pub next_backend: u64,
}

/// Backend processes by identity.
pub struct Registry {
    entries: Vec<Entry>,
    next_backend: u64,
}

impl View for Registry {
    type V = RegistryView;

    closed spec fn view(&self) -> RegistryView {
        RegistryView { entries: self.entries@, next_backend: self.next_backend }
    }
}

pub open spec fn not_backend(b: u64) -> spec_fn(Entry) -> bool {
    |e: Entry| e.backend != b
}

/// Whether an entry has been without clients for longer than `timeout` at `now`.
pub open spec fn expired(e: Entry, now: u64, timeout: u64) -> bool {
    e.phase == Phase::Active && e.clients == 0 && now >= e.idle_since && now - e.idle_since > timeout
}

pub open spec fn kept_at(now: u64, timeout: u64) -> spec_fn(Entry) -> bool {
    |e: Entry| !expired(e, now, timeout)
}

pub open spec fn expired_at(now: u64, timeout: u64) -> spec_fn(Entry) -> bool {
    |e: Entry| expired(e, now, timeout)
}

impl RegistryView {
    /// Keys are unique, backend identifiers are unique and all were issued
    /// by the counter.
    pub open spec fn wf(self) -> bool {
        &&& forall|i: int, j: int|
            0 <= i < self.entries.len() && 0 <= j < self.entries.len() && i != j ==> (#[trigger] self.entries[i]).key@
                != (#[trigger] self.entries[j]).key@ && self.entries[i].backend != self.entries[j].backend
        &&& forall|i: int| 0 <= i < self.entries.len() ==> (#[trigger] self.entries[i]).backend < self.next_backend
    }

    pub open spec fn has_key(self, k: (Seq<char>, Seq<Seq<char>>)) -> bool {
        exists|i: int| 0 <= i < self.entries.len() && (#[trigger] self.entries[i]).key@ == k
    }

    /// The entry registered under `k`; meaningful when `has_key(k)`.
    pub open spec fn entry_of(self, k: (Seq<char>, Seq<Seq<char>>)) -> Entry {
        self.entries[choose|i: int| 0 <= i < self.entries.len() && (#[trigger] self.entries[i]).key@ == k]
    }

    /// What `resolve` answers for `k`.
    pub open spec fn resolution(self, k: (Seq<char>, Seq<Seq<char>>)) -> Resolution {
        if self.has_key(k) {
            if self.entry_of(k).phase == Phase::Active {
                Resolution::Existing(self.entry_of(k).backend)
            } else {
                Resolution::Starting(self.entry_of(k).backend)
            }
        } else if self.next_backend < u64::MAX {
            Resolution::Spawn(self.next_backend)
        } else {
            Resolution::Exhausted
        }
    }

    /// The state after `resolve(key)`: a new key is registered as spawning.
    pub open spec fn resolved(self, key: BackendKey) -> RegistryView {
        if !self.has_key(key@) && self.next_backend < u64::MAX {
            RegistryView {
                entries: self.entries.push(
                    Entry { key, backend: self.next_backend, phase: Phase::Spawning, clients: 0, idle_since: 0 },
                ),
                next_backend: (self.next_backend + 1) as u64,
            }
        } else {
            self
        }
    }

    /// The state after backend `b` is dropped (its start failed or it exited).
    pub open spec fn removed(self, b: u64) -> RegistryView {
        RegistryView { entries: self.entries.filter(not_backend(b)), ..self }
    }

    pub open spec fn has_backend(self, b: u64) -> bool {
        exists|i: int| 0 <= i < self.entries.len() && (#[trigger] self.entries[i]).backend == b
    }

    /// The index of backend `b`; meaningful when `has_backend(b)`.
    pub open spec fn index_of(self, b: u64) -> int {
        choose|i: int| 0 <= i < self.entries.len() && (#[trigger] self.entries[i]).backend == b
    }

    /// The state with the status of the entry at `i` replaced.
    pub open spec fn with_status(self, i: int, phase: Phase, clients: u64, idle_since: u64) -> RegistryView {
        RegistryView {
            entries: self.entries.update(i, Entry { phase, clients, idle_since, ..self.entries[i] }),
            ..self
        }
    }

    /// The state after a reap at `now`.
    pub open spec fn reaped(self, now: u64, timeout: u64) -> RegistryView {
        RegistryView { entries: self.entries.filter(kept_at(now, timeout)), ..self }
    }
}

proof fn lemma_status_wf(v: RegistryView, i: int, phase: Phase, clients: u64, idle_since: u64)
    requires
        v.wf(),
        0 <= i < v.entries.len(),
    ensures
        v.with_status(i, phase, clients, idle_since).wf(),
{
    let w = v.with_status(i, phase, clients, idle_since);
    assert forall|a: int| 0 <= a < w.entries.len() implies (#[trigger] w.entries[a]).backend < w.next_backend by {
        assert(w.entries[a].backend == v.entries[a].backend);
    }
    assert forall|a: int, b: int| 0 <= a < w.entries.len() && 0 <= b < w.entries.len() && a != b
        implies (#[trigger] w.entries[a]).key@ != (#[trigger] w.entries[b]).key@ && w.entries[a].backend
        != w.entries[b].backend by {
        assert(w.entries[a].key == v.entries[a].key && w.entries[a].backend == v.entries[a].backend);
        assert(w.entries[b].key == v.entries[b].key && w.entries[b].backend == v.entries[b].backend);
    }
}

proof fn lemma_filter_wf(v: RegistryView, f: spec_fn(Entry) -> bool)
    requires
        v.wf(),
    ensures
        (RegistryView { entries: v.entries.filter(f), ..v }).wf(),
{
    let w = RegistryView { entries: v.entries.filter(f), ..v };
    lemma_filter_distinct(v.entries, f, |e: Entry| e.backend);
    lemma_filter_distinct(v.entries, f, |e: Entry| e.key@);
    assert forall|a: int| 0 <= a < w.entries.len() implies (#[trigger] w.entries[a]).backend < w.next_backend by {
        assert(w.entries.contains(w.entries[a]));
        lemma_filter_contains(v.entries, f, w.entries[a]);
    }
}

proof fn lemma_resolved_wf(o: RegistryView, key: BackendKey)
    requires
        o.wf(),
    ensures
        o.resolved(key).wf(),
{
    let v = o.resolved(key);
    let kv = key@;
    if !o.has_key(kv) && o.next_backend < u64::MAX {
        let n = o.entries.len() as int;
        assert forall|a: int| 0 <= a < v.entries.len() implies (#[trigger] v.entries[a]).backend < v.next_backend by {
            if a < n {
                assert(o.entries[a].backend < o.next_backend);
            }
        }
        assert forall|a: int, c: int| 0 <= a < v.entries.len() && 0 <= c < v.entries.len() && a != c
            implies (#[trigger] v.entries[a]).key@ != (#[trigger] v.entries[c]).key@ && v.entries[a].backend
            != v.entries[c].backend by {
            if a < n {
                assert(o.entries[a].backend < o.next_backend);
                assert(o.entries[a].key@ != kv);
            }
            if c < n {
                assert(o.entries[c].backend < o.next_backend);
                assert(o.entries[c].key@ != kv);
            }
        }
    }
}

/// The backend a resolution refers to.
pub open spec fn backend_of(r: Resolution) -> Option<u64> {
    match r {
        Resolution::Existing(b) => Some(b),
        Resolution::Starting(b) => Some(b),
        Resolution::Spawn(b) => Some(b),
        Resolution::Exhausted => None,
    }
}

proof fn lemma_entry_of_unique(v: RegistryView, k: (Seq<char>, Seq<Seq<char>>), i: int)
    requires
        v.wf(),
        0 <= i < v.entries.len(),
        v.entries[i].key@ == k,
    ensures
        v.has_key(k),
        v.entry_of(k) == v.entries[i],
{
    assert(v.has_key(k));
    let c = choose|c: int| 0 <= c < v.entries.len() && (#[trigger] v.entries[c]).key@ == k;
    if c != i {
        assert(v.entries[c].key@ != v.entries[i].key@);
    }
}

/// Asking twice for one key, with nothing removed in between, names the same
/// backend both times, and the second answer never asks for a spawn.
pub proof fn lemma_resolve_twice(v: RegistryView, key: BackendKey)
    requires
        v.wf(),
        v.resolution(key@) != Resolution::Exhausted,
    ensures
        backend_of(v.resolved(key).resolution(key@)) == backend_of(v.resolution(key@)),
        !(v.resolved(key).resolution(key@) is Spawn),
        v.resolved(key).resolved(key) == v.resolved(key),
{
    let w = v.resolved(key);
    lemma_resolved_wf(v, key);
    if !v.has_key(key@) {
        let n = v.entries.len() as int;
        assert(w.entries[n].key@ == key@);
        lemma_entry_of_unique(w, key@, n);
    }
}

/// Once a started backend is marked running, asking for its key again
/// answers with that running backend.
pub proof fn lemma_started_is_existing(v: RegistryView, key: BackendKey, now: u64)
    requires
        v.wf(),
        v.resolution(key@) is Spawn,
    ensures
        ({
            let w = v.resolved(key);
            let b = v.next_backend;
            let x = w.with_status(w.index_of(b), Phase::Active, 0, now);
            w.has_backend(b) && x.resolution(key@) == Resolution::Existing(b)
        }),
{
    let w = v.resolved(key);
    let b = v.next_backend;
    let n = v.entries.len() as int;
    lemma_resolved_wf(v, key);
    assert(w.entries[n].backend == b);
    assert(w.has_backend(b));
    let i = w.index_of(b);
    if i != n {
        assert(w.entries[i].backend != w.entries[n].backend);
    }
    let x = w.with_status(i, Phase::Active, 0, now);
    lemma_status_wf(w, i, Phase::Active, 0, now);
    assert(x.entries[n].key@ == key@);
    lemma_entry_of_unique(x, key@, n);
}

/// Two different keys, asked for one after the other, name two different
/// backends.
pub proof fn lemma_distinct_keys(v: RegistryView, k1: BackendKey, k2: BackendKey)
    requires
        v.wf(),
        k1@ != k2@,
        v.resolution(k1@) != Resolution::Exhausted,
        v.resolved(k1).resolution(k2@) != Resolution::Exhausted,
    ensures
        backend_of(v.resolution(k1@)) != backend_of(v.resolved(k1).resolution(k2@)),
{
    let w = v.resolved(k1);
    lemma_resolve_twice(v, k1);
    lemma_resolved_wf(v, k1);
    if w.has_key(k2@) {
        let c1 = choose|c: int| 0 <= c < w.entries.len() && (#[trigger] w.entries[c]).key@ == k1@;
        let c2 = choose|c: int| 0 <= c < w.entries.len() && (#[trigger] w.entries[c]).key@ == k2@;
        assert(w.entries[c1].backend != w.entries[c2].backend);
    } else {
        let c1 = choose|c: int| 0 <= c < w.entries.len() && (#[trigger] w.entries[c]).key@ == k1@;
        assert(w.entries[c1].backend < w.next_backend);
    }
}

/// A backend idle for longer than the timeout is reaped: it is handed back to
/// be shut down, its key is no longer registered, and asking for that key
/// again registers a fresh backend.
pub proof fn lemma_reap_idle(v: RegistryView, key: BackendKey, now: u64, timeout: u64)
    requires
        v.wf(),
        v.has_key(key@),
        expired(v.entry_of(key@), now, timeout),
    ensures
        v.entries.filter(expired_at(now, timeout)).map_values(|e: Entry| e.backend).contains(
            v.entry_of(key@).backend,
        ),
        !v.reaped(now, timeout).has_key(key@),
        v.next_backend < u64::MAX ==> v.reaped(now, timeout).resolution(key@) == Resolution::Spawn(v.next_backend),
        v.entry_of(key@).backend < v.next_backend,
{
    let w = v.reaped(now, timeout);
    let e = v.entry_of(key@);
    let c = choose|c: int| 0 <= c < v.entries.len() && (#[trigger] v.entries[c]).key@ == key@;
    let f = v.entries.filter(expired_at(now, timeout));
    lemma_filter_contains(v.entries, expired_at(now, timeout), e);
    let j = choose|j: int| 0 <= j < f.len() && f[j] == e;
    assert(f.map_values(|e: Entry| e.backend)[j] == e.backend);
    if w.has_key(key@) {
        let a = choose|a: int| 0 <= a < w.entries.len() && (#[trigger] w.entries[a]).key@ == key@;
        assert(w.entries.contains(w.entries[a]));
        lemma_filter_contains(v.entries, kept_at(now, timeout), w.entries[a]);
        let b = choose|b: int| 0 <= b < v.entries.len() && v.entries[b] == w.entries[a];
        lemma_entry_of_unique(v, key@, b);
    }
}

/// A backend with a client attached survives every reap.
pub proof fn lemma_reap_spares_attached(v: RegistryView, key: BackendKey, now: u64, timeout: u64)
    requires
        v.wf(),
        v.has_key(key@),
        v.entry_of(key@).clients > 0,
    ensures
        v.reaped(now, timeout).has_key(key@),
        v.reaped(now, timeout).entry_of(key@) == v.entry_of(key@),
{
    let w = v.reaped(now, timeout);
    let e = v.entry_of(key@);
    lemma_filter_contains(v.entries, kept_at(now, timeout), e);
    lemma_filter_wf(v, kept_at(now, timeout));
    let a = choose|a: int| 0 <= a < w.entries.len() && w.entries[a] == e;
    lemma_entry_of_unique(w, key@, a);
}

impl Registry {
    pub fn new() -> (r: Registry)
        ensures
            r@.wf(),
            r@.entries.len() == 0,
            r@.next_backend == 0,
    {
        Registry { entries: Vec::new(), next_backend: 0 }
    }

    /// The index of the entry under key `k`.
    fn find_key(&self, k: &BackendKey) -> (r: Option<usize>)
        requires
            self@.wf(),
        ensures
            match r {
                Some(i) => i < self@.entries.len() && self@.entries[i as int].key@ == k@
                    && self@.has_key(k@) && self@.entry_of(k@) == self@.entries[i as int],
                None => !self@.has_key(k@),
            },
    {
        let mut i: usize = 0;
        while i < self.entries.len()
            invariant
                self@.wf(),
                i <= self@.entries.len(),
                forall|j: int| 0 <= j < i ==> (#[trigger] self@.entries[j]).key@ != k@,
            decreases self@.entries.len() - i,
        {
            if same_key(&self.entries[i].key, k) {
                proof {
                    let v = self@;
                    assert(v.entries[i as int].key@ == k@);
                    let c = choose|c: int| 0 <= c < v.entries.len() && (#[trigger] v.entries[c]).key@ == k@;
                    if c != i {
                        assert(v.entries[c].key@ != v.entries[i as int].key@);
                    }
                }
                return Some(i);
            }
            i = i + 1;
        }
        None
    }

    /// The index of the entry of backend `b`.
    fn find_backend(&self, b: u64) -> (r: Option<usize>)
        requires
            self@.wf(),
        ensures
            match r {
                Some(i) => i < self@.entries.len() && self@.entries[i as int].backend == b
                    && self@.has_backend(b) && self@.index_of(b) == i,
                None => !self@.has_backend(b),
            },
    {
        let mut i: usize = 0;
        while i < self.entries.len()
            invariant
                self@.wf(),
                i <= self@.entries.len(),
                forall|j: int| 0 <= j < i ==> (#[trigger] self@.entries[j]).backend != b,
            decreases self@.entries.len() - i,
        {
            if self.entries[i].backend == b {
                proof {
                    let v = self@;
                    let c = choose|c: int| 0 <= c < v.entries.len() && (#[trigger] v.entries[c]).backend == b;
                    if c != i {
                        assert(v.entries[c].backend != v.entries[i as int].backend);
                    }
                }
                return Some(i);
            }
            i = i + 1;
        }
        None
    }

    /// Finds the backend for `key`, or registers a new one to be started.
    /// A key is never registered twice: while its process starts, others
    /// asking for it are told to wait for that same backend.
    pub fn resolve(&mut self, key: BackendKey) -> (r: Resolution)
        requires
            old(self)@.wf(),
        ensures
            final(self)@.wf(),
            r == old(self)@.resolution(key@),
            final(self)@ == old(self)@.resolved(key),
    {
        match self.find_key(&key) {
            Some(i) => {
                if self.entries[i].phase == Phase::Active {
                    Resolution::Existing(self.entries[i].backend)
                } else {
                    Resolution::Starting(self.entries[i].backend)
                }
            },
            None => {
                if self.next_backend == u64::MAX {
                    return Resolution::Exhausted;
                }
                let b = self.next_backend;
                let ghost o = self@;
                let ghost key_ghost = key;
                self.entries.push(Entry { key, backend: b, phase: Phase::Spawning, clients: 0, idle_since: 0 });
                self.next_backend = b + 1;
                proof {
                    lemma_resolved_wf(o, key_ghost);
                }
                Resolution::Spawn(b)
            },
        }
    }

    /// Replaces the status of the entry at `i`.
    fn set_status(&mut self, i: usize, phase: Phase, clients: u64, idle_since: u64)
        requires
            old(self)@.wf(),
            i < old(self)@.entries.len(),
        ensures
            final(self)@ == old(self)@.with_status(i as int, phase, clients, idle_since),
            final(self)@.wf(),
    {
        let mut e = self.entries.remove(i);
        e.phase = phase;
        e.clients = clients;
        e.idle_since = idle_since;
        self.entries.insert(i, e);
        proof {
            assert(self@.entries =~= old(self)@.with_status(i as int, phase, clients, idle_since).entries);
            lemma_status_wf(old(self)@, i as int, phase, clients, idle_since);
        }
    }

    /// The process of backend `b` started at `now`: it becomes active, with
    /// no clients yet. Returns whether `b` was registered and starting.
    pub fn mark_started(&mut self, b: u64, now: u64) -> (r: bool)
        requires
            old(self)@.wf(),
        ensures
            final(self)@.wf(),
            r == (old(self)@.has_backend(b) && old(self)@.entries[old(self)@.index_of(b)].phase == Phase::Spawning),
            r ==> final(self)@ == old(self)@.with_status(old(self)@.index_of(b), Phase::Active, 0, now),
            !r ==> final(self)@ == old(self)@,
    {
        match self.find_backend(b) {
            Some(i) => {
                if self.entries[i].phase == Phase::Spawning {
                    self.set_status(i, Phase::Active, 0, now);
                    true
                } else {
                    false
                }
            },
            None => false,
        }
    }

    /// A client attached to backend `b`. Returns whether `b` is active and
    /// its count could grow.
    pub fn client_attached(&mut self, b: u64) -> (r: bool)
        requires
            old(self)@.wf(),
        ensures
            final(self)@.wf(),
            ({
                let o = old(self)@;
                let e = o.entries[o.index_of(b)];
                &&& r == (o.has_backend(b) && e.phase == Phase::Active && e.clients < u64::MAX)
                &&& r ==> final(self)@ == o.with_status(o.index_of(b), e.phase, (e.clients + 1) as u64, e.idle_since)
                &&& !r ==> final(self)@ == o
            }),
    {
        match self.find_backend(b) {
            Some(i) => {
                let phase = self.entries[i].phase;
                let clients = self.entries[i].clients;
                let idle = self.entries[i].idle_since;
                if phase == Phase::Active && clients < u64::MAX {
                    self.set_status(i, phase, clients + 1, idle);
                    true
                } else {
                    false
                }
            },
            None => false,
        }
    }

    /// A client of backend `b` detached at `now`; when it was the last one,
    /// the backend's idle time starts at `now`. Returns whether `b` had a
    /// client to lose.
    pub fn client_detached(&mut self, b: u64, now: u64) -> (r: bool)
        requires
            old(self)@.wf(),
        ensures
            final(self)@.wf(),
            ({
                let o = old(self)@;
                let e = o.entries[o.index_of(b)];
                &&& r == (o.has_backend(b) && e.clients > 0)
                &&& r ==> final(self)@ == o.with_status(
                    o.index_of(b),
                    e.phase,
                    (e.clients - 1) as u64,
                    if e.clients == 1 { now } else { e.idle_since },
                )
                &&& !r ==> final(self)@ == o
            }),
    {
        match self.find_backend(b) {
            Some(i) => {
                let phase = self.entries[i].phase;
                let clients = self.entries[i].clients;
                let idle = self.entries[i].idle_since;
                if clients > 0 {
                    let idle2 = if clients == 1 { now } else { idle };
                    self.set_status(i, phase, clients - 1, idle2);
                    true
                } else {
                    false
                }
            },
            None => false,
        }
    }

    /// Drops backend `b`: its process could not start, or it exited.
    pub fn remove(&mut self, b: u64)
        requires
            old(self)@.wf(),
        ensures
            final(self)@.wf(),
            final(self)@ == old(self)@.removed(b),
    {
        let ghost o = self@;
        let mut rest: Vec<Entry> = Vec::new();
        core::mem::swap(&mut rest, &mut self.entries);
        let mut kept: Vec<Entry> = Vec::new();
        let ghost k: int = 0;
        while rest.len() > 0
            invariant
                0 <= k <= o.entries.len(),
                rest@ == o.entries.skip(k),
                kept@ == o.entries.take(k).filter(not_backend(b)),
            decreases rest@.len(),
        {
            proof {
                lemma_filter_step(o.entries, not_backend(b), k);
            }
            let e = rest.remove(0);
            proof {
                assert(e == o.entries[k]);
            }
            if e.backend != b {
                kept.push(e);
            }
            proof {
                k = k + 1;
                assert(rest@ =~= o.entries.skip(k));
            }
        }
        proof {
            assert(o.entries.take(k) =~= o.entries);
        }
        self.entries = kept;
        proof {
            lemma_filter_wf(o, not_backend(b));
        }
    }

    /// Removes every backend that has been without clients for longer than
    /// `timeout` at `now`, and returns them, in registry order, to be shut down.
    pub fn reap(&mut self, now: u64, timeout: u64) -> (r: Vec<u64>)
        requires
            old(self)@.wf(),
        ensures
            final(self)@.wf(),
            final(self)@ == old(self)@.reaped(now, timeout),
            r@ == old(self)@.entries.filter(expired_at(now, timeout)).map_values(|e: Entry| e.backend),
    {
        let ghost o = self@;
        let mut rest: Vec<Entry> = Vec::new();
        core::mem::swap(&mut rest, &mut self.entries);
        let mut kept: Vec<Entry> = Vec::new();
        let mut gone: Vec<u64> = Vec::new();
        let ghost k: int = 0;
        while rest.len() > 0
            invariant
                0 <= k <= o.entries.len(),
                rest@ == o.entries.skip(k),
                kept@ == o.entries.take(k).filter(kept_at(now, timeout)),
                gone@ == o.entries.take(k).filter(expired_at(now, timeout)).map_values(|e: Entry| e.backend),
            decreases rest@.len(),
        {
            proof {
                lemma_filter_step(o.entries, kept_at(now, timeout), k);
                lemma_filter_step(o.entries, expired_at(now, timeout), k);
            }
            let e = rest.remove(0);
            proof {
                assert(e == o.entries[k]);
            }
            if e.phase == Phase::Active && e.clients == 0 && now >= e.idle_since && now - e.idle_since > timeout {
                gone.push(e.backend);
                proof {
                    assert(gone@ =~= o.entries.take(k + 1).filter(expired_at(now, timeout)).map_values(
                        |e: Entry| e.backend,
                    ));
                }
            } else {
                kept.push(e);
            }
            proof {
                k = k + 1;
                assert(rest@ =~= o.entries.skip(k));
            }
        }
        proof {
            assert(o.entries.take(k) =~= o.entries);
        }
        self.entries = kept;
        proof {
            lemma_filter_wf(o, kept_at(now, timeout));
        }
        gone
    }
}

} // verus!
