//! The conductor's decisions: which position goes to which worker, who is
//! waiting on whom, and when the root position is done. The loop that
//! receives messages and sends jobs runs these one message at a time.
use vstd::prelude::*;
use std::collections::{HashMap, HashSet};
use crate::board::{Column, Score};
use crate::codec::GameHash;
use crate::store::{
    ClaimOutcome, GameState, GameStore, StoreError, claim_all, claim_spec, created_count, keeps_decided,
    lemma_single_creation,
};

verus! {

broadcast use vstd::std_specs::hash::group_hash_axioms;

/// A job for a worker: explore position `key`.
#[derive(PartialEq, Eq, Debug, Clone, Copy, Structural)]
pub struct Dispatch {
    pub key: GameHash,
    pub worker: usize,
}

/// What a completion report leads to: jobs to send, and the root's verdict
/// once it is known.
pub struct Completion {
    pub dispatches: Vec<Dispatch>,
    pub verdict: Option<(Score, Option<Column>)>,
}

/// A completion report that the protocol does not allow.
#[derive(PartialEq, Eq, Debug, Clone, Copy, Structural)]
pub enum ConductorError {
    /// The report names a worker that does not exist.
    UnknownWorker,
    /// The store refused the verdict.
    Store(StoreError),
}

/// A counter one higher, staying at the largest `u64`.
pub open spec fn bump(x: u64) -> u64 {
    if x < u64::MAX {
        (x + 1) as u64
    } else {
        x
    }
}

/// A counter one lower, staying at zero.
pub open spec fn drop_one(x: u64) -> u64 {
    if x > 0 {
        (x - 1) as u64
    } else {
        0
    }
}

/// The index of the first smallest of the first `n` counters.
pub open spec fn first_min(s: Seq<u64>, n: int) -> int
    decreases n,
{
    if n <= 1 {
        0
    } else {
        let w = first_min(s, n - 1);
        if s[n - 1] < s[w] {
            n - 1
        } else {
            w
        }
    }
}

/// The least-loaded worker; ties go to the lowest id.
pub open spec fn least_loaded(s: Seq<u64>) -> int {
    first_min(s, s.len() as int)
}

/// Claims each key of `ks` in turn and hands each one that must be explored
/// to the least-loaded worker: the store, the counters and the jobs.
pub open spec fn dispatch_all(m: Map<GameHash, GameState>, pending: Seq<u64>, ks: Seq<GameHash>) -> (Map<
    GameHash,
    GameState,
>, Seq<u64>, Seq<Dispatch>)
    decreases ks.len(),
{
    if ks.len() == 0 {
        (m, pending, Seq::empty())
    } else {
        let (m1, o) = claim_spec(m, ks[0]);
        if o is Created {
            let w = least_loaded(pending);
            let p1 = pending.update(w, bump(pending[w]));
            let (m2, p2, ds) = dispatch_all(m1, p1, ks.drop_first());
            (m2, p2, seq![Dispatch { key: ks[0], worker: w as usize }] + ds)
        } else {
            dispatch_all(m1, pending, ks.drop_first())
        }
    }
}

/// The waiting parents of `child`, with `parent` added once.
pub open spec fn add_parent(e: Map<GameHash, Seq<GameHash>>, child: GameHash, parent: GameHash) -> Map<
    GameHash,
    Seq<GameHash>,
> {
    if !e.contains_key(child) {
        e.insert(child, seq![parent])
    } else if e[child].contains(parent) {
        e
    } else {
        e.insert(child, e[child].push(parent))
    }
}

/// No position waits on itself, and none is recorded twice as waiting on the same child.
pub open spec fn edges_wf(e: Map<GameHash, Seq<GameHash>>) -> bool {
    forall|c: GameHash|
        #[trigger] e.contains_key(c) ==> e[c].no_duplicates() && !e[c].contains(c)
}

proof fn lemma_edges_wf_remove(e: Map<GameHash, Seq<GameHash>>, k: GameHash)
    requires
        edges_wf(e),
    ensures
        edges_wf(e.remove(k)),
{
    assert forall|c: GameHash| #[trigger] e.remove(k).contains_key(c) implies e.remove(k)[c].no_duplicates()
        && !e.remove(k)[c].contains(c) by {
        assert(e.contains_key(c));
    }
}

pub proof fn lemma_first_min(s: Seq<u64>, n: int)
    requires
        1 <= n <= s.len(),
    ensures
        0 <= first_min(s, n) < n,
        forall|j: int| 0 <= j < n ==> s[first_min(s, n)] <= #[trigger] s[j],
        forall|j: int| 0 <= j < first_min(s, n) ==> s[first_min(s, n)] < #[trigger] s[j],
    decreases n,
{
    if n > 1 {
        lemma_first_min(s, n - 1);
    }
}


/// How many of the jobs `ds` are for position `k`.
pub open spec fn dispatch_count(ds: Seq<Dispatch>, k: GameHash) -> nat
    decreases ds.len(),
{
    if ds.len() == 0 {
        0
    } else {
        (if ds[0].key == k {
            1nat
        } else {
            0nat
        }) + dispatch_count(ds.drop_first(), k)
    }
}

/// Handing out the claimed keys of `ks` leaves the store as claiming them
/// does, and hands out each key as often as its claims returned `Created`.
pub proof fn lemma_dispatches_are_creations(
    m: Map<GameHash, GameState>,
    pending: Seq<u64>,
    ks: Seq<GameHash>,
    k: GameHash,
)
    ensures
        dispatch_all(m, pending, ks).0 == claim_all(m, ks).0,
        dispatch_count(dispatch_all(m, pending, ks).2, k) == created_count(
            ks,
            claim_all(m, ks).1,
            k,
        ),
    decreases ks.len(),
{
    if ks.len() > 0 {
        let (m1, o) = claim_spec(m, ks[0]);
        let rest = ks.drop_first();
        let os = claim_all(m1, rest).1;
        assert((seq![o] + os).drop_first() =~= os);
        if o is Created {
            let w = least_loaded(pending);
            let p1 = pending.update(w, bump(pending[w]));
            lemma_dispatches_are_creations(m1, p1, rest, k);
            let ds = dispatch_all(m1, p1, rest).2;
            assert((seq![Dispatch { key: ks[0], worker: w as usize }] + ds).drop_first() =~= ds);
        } else {
            lemma_dispatches_are_creations(m1, pending, rest, k);
        }
    }
}

/// However many waiting positions a verdict releases, and in whatever order,
/// no position is handed out twice: at most one job per key.
pub proof fn lemma_released_once(
    m: Map<GameHash, GameState>,
    pending: Seq<u64>,
    ks: Seq<GameHash>,
    k: GameHash,
)
    ensures
        dispatch_count(dispatch_all(m, pending, ks).2, k) <= 1,
{
    lemma_dispatches_are_creations(m, pending, ks, k);
    lemma_single_creation(m, ks, k);
}

/// A decided entry kept by one step and then by the next is kept by both.
pub proof fn lemma_decided_stays(
    a: Map<GameHash, GameState>,
    b: Map<GameHash, GameState>,
    c: Map<GameHash, GameState>,
)
    requires
        keeps_decided(a, b),
        keeps_decided(b, c),
    ensures
        keeps_decided(a, c),
{
    assert forall|k: GameHash| a.contains_key(k) && (#[trigger] a[k]) is Decided implies c.contains_key(
        k,
    ) && c[k] == a[k] by {
        assert(b.contains_key(k) && b[k] == a[k]);
    }
}

/// `k` is claimed in `m`: an exploration of it is under way.
pub open spec fn claimed_in(m: Map<GameHash, GameState>, k: GameHash) -> bool {
    m.contains_key(k) && crate::store::is_claimed(m[k])
}

/// What handing out keys does to the claims: every job is for a key of
/// `ks` that was not claimed before and is claimed after, to an existing
/// worker; no key gets two jobs; claims only grow, and only by the jobs'
/// keys.
pub proof fn lemma_dispatch_facts(m: Map<GameHash, GameState>, pending: Seq<u64>, ks: Seq<GameHash>)
    requires
        pending.len() >= 1,
    ensures
        dispatch_all(m, pending, ks).1.len() == pending.len(),
        forall|i: int|
            0 <= i < dispatch_all(m, pending, ks).2.len() ==> (#[trigger] dispatch_all(m, pending, ks).2[i]).worker
                < pending.len() && claimed_in(dispatch_all(m, pending, ks).0, dispatch_all(m, pending, ks).2[i].key)
                && !claimed_in(m, dispatch_all(m, pending, ks).2[i].key) && ks.contains(dispatch_all(m, pending, ks).2[i].key),
        forall|i: int, j: int|
            0 <= i < j < dispatch_all(m, pending, ks).2.len() ==> (#[trigger] dispatch_all(m, pending, ks).2[i]).key
                != (#[trigger] dispatch_all(m, pending, ks).2[j]).key,
        forall|k: GameHash| #[trigger] claimed_in(m, k) ==> claimed_in(dispatch_all(m, pending, ks).0, k),
        forall|k: GameHash|
            #[trigger] claimed_in(dispatch_all(m, pending, ks).0, k) ==> claimed_in(m, k) || exists|i: int|
                0 <= i < dispatch_all(m, pending, ks).2.len() && (#[trigger] dispatch_all(m, pending, ks).2[i]).key == k,
    decreases ks.len(),
{
    if ks.len() > 0 {
        let (m1, o) = claim_spec(m, ks[0]);
        let rest = ks.drop_first();
        assert forall|k: GameHash| rest.contains(k) implies ks.contains(k) by {
            let i = choose|i: int| 0 <= i < rest.len() && rest[i] == k;
            assert(ks[i + 1] == k);
        }
        assert forall|k: GameHash| claimed_in(m, k) implies claimed_in(m1, k) by {}
        if o is Created {
            let w = least_loaded(pending);
            lemma_first_min(pending, pending.len() as int);
            let p1 = pending.update(w, bump(pending[w]));
            lemma_dispatch_facts(m1, p1, rest);
            let (m2, p2, ds2) = dispatch_all(m1, p1, rest);
            let d0 = Dispatch { key: ks[0], worker: w as usize };
            let ds = seq![d0] + ds2;
            assert(dispatch_all(m, pending, ks) == (m2, p2, ds));
            assert(claimed_in(m1, ks[0]));
            assert forall|k: GameHash| !claimed_in(m, k) && k != ks[0] implies !claimed_in(m1, k) by {}
            assert forall|i: int| 0 <= i < ds.len() implies (#[trigger] ds[i]).worker < pending.len()
                && claimed_in(m2, ds[i].key) && !claimed_in(m, ds[i].key) && ks.contains(
                ds[i].key,
            ) by {
                if i == 0 {
                    assert(ks[0] == ds[0].key);
                } else {
                    assert(ds[i] == ds2[i - 1]);
                }
            }
            assert forall|i: int, j: int| 0 <= i < j < ds.len() implies (#[trigger] ds[i]).key
                != (#[trigger] ds[j]).key by {
                if i == 0 {
                    assert(ds[j] == ds2[j - 1]);
                } else {
                    assert(ds[i] == ds2[i - 1]);
                    assert(ds[j] == ds2[j - 1]);
                }
            }
            assert forall|k: GameHash| #[trigger] claimed_in(m2, k) implies claimed_in(m, k)
                || exists|i: int| 0 <= i < ds.len() && (#[trigger] ds[i]).key == k by {
                if !claimed_in(m, k) {
                    if k == ks[0] {
                        assert(ds[0].key == k);
                    } else {
                        let i = choose|i: int| 0 <= i < ds2.len() && (#[trigger] ds2[i]).key == k;
                        assert(ds[i + 1] == ds2[i]);
                    }
                }
            }
            assert forall|k: GameHash| #[trigger] claimed_in(dispatch_all(m, pending, ks).0, k) implies claimed_in(m, k)
                || exists|i: int| 0 <= i < dispatch_all(m, pending, ks).2.len() && (#[trigger] dispatch_all(m, pending, ks).2[i]).key == k by {
                if !claimed_in(m, k) {
                    let i = choose|i: int| 0 <= i < ds.len() && (#[trigger] ds[i]).key == k;
                    assert(dispatch_all(m, pending, ks).2[i] == ds[i]);
                }
            }
        } else {
            assert(m1 == m);
            lemma_dispatch_facts(m1, pending, rest);
            let (m2, p2, ds) = dispatch_all(m1, pending, rest);
            assert(dispatch_all(m, pending, ks) == (m2, p2, ds));
            assert forall|i: int| 0 <= i < ds.len() implies ks.contains((#[trigger] ds[i]).key) by {
                assert(rest.contains(ds[i].key));
            }
            assert forall|k: GameHash| #[trigger] claimed_in(dispatch_all(m, pending, ks).0, k) implies claimed_in(m, k)
                || exists|i: int| 0 <= i < dispatch_all(m, pending, ks).2.len() && (#[trigger] dispatch_all(m, pending, ks).2[i]).key == k by {
                if !claimed_in(m, k) {
                    assert(claimed_in(m2, k));
                    let i = choose|i: int| 0 <= i < ds.len() && (#[trigger] ds[i]).key == k;
                    assert(dispatch_all(m, pending, ks).2[i] == ds[i]);
                }
            }
        }
    }
}

pub struct Conductor {
    interests: HashMap<GameHash, Vec<GameHash>>,
    rerun: HashSet<GameHash>,
    pending: Vec<u64>,
    principal: GameHash,
}

impl Conductor {
    /// For each position, the positions waiting on its verdict.
    pub closed spec fn edges(&self) -> Map<GameHash, Seq<GameHash>> {
        self.interests@.map_values(|v: Vec<GameHash>| v@)
    }

    /// Positions to explore again once their exploration under way ends open.
    pub closed spec fn reruns(&self) -> Set<GameHash> {
        self.rerun@
    }

    /// Jobs handed to each worker and not yet reported back.
    pub closed spec fn loads(&self) -> Seq<u64> {
        self.pending@
    }

    /// The position whose verdict the solve is for.
    pub closed spec fn root(&self) -> GameHash {
        self.principal
    }

    pub open spec fn wf(&self) -> bool {
        &&& self.loads().len() >= 1
        &&& edges_wf(self.edges())
    }

    /// A conductor for the root position `principal` and `nworkers` workers, none busy.
    pub fn new(principal: GameHash, nworkers: usize) -> (r: Conductor)
        requires
            nworkers >= 1,
        ensures
            r.wf(),
            r.edges() == Map::<GameHash, Seq<GameHash>>::empty(),
            r.reruns() == Set::<GameHash>::empty(),
            r.loads() == Seq::new(nworkers as nat, |i: int| 0u64),
            r.root() == principal,
    {
        let mut pending: Vec<u64> = Vec::with_capacity(nworkers);
        let mut i: usize = 0;
        while i < nworkers
            invariant
                i <= nworkers,
                pending@ == Seq::new(i as nat, |j: int| 0u64),
            decreases nworkers - i,
        {
            pending.push(0);
            i += 1;
            assert(pending@ =~= Seq::new(i as nat, |j: int| 0u64));
        }
        let r = Conductor {
            interests: HashMap::new(),
            rerun: HashSet::new(),
            pending,
            principal,
        };
        assert(r.edges() =~= Map::<GameHash, Seq<GameHash>>::empty());
        r
    }

    pub fn principal(&self) -> (r: GameHash)
        ensures
            r == self.root(),
    {
        self.principal
    }

    /// The worker with the fewest pending jobs, the lowest id among equals.
    fn least_loaded(&self) -> (w: usize)
        requires
            self.loads().len() >= 1,
        ensures
            w == least_loaded(self.loads()),
            w < self.loads().len(),
    {
        proof {
            lemma_first_min(self.pending@, self.pending@.len() as int);
        }
        let mut w: usize = 0;
        let mut i: usize = 1;
        while i < self.pending.len()
            invariant
                1 <= i <= self.pending@.len(),
                w == first_min(self.pending@, i as int),
            decreases self.pending@.len() - i,
        {
            proof {
                lemma_first_min(self.pending@, i as int);
            }
            if self.pending[i] < self.pending[w] {
                w = i;
            }
            i += 1;
        }
        w
    }

    /// Hands `key` to the least-loaded worker.
    fn assign(&mut self, key: GameHash) -> (d: Dispatch)
        requires
            old(self).loads().len() >= 1,
        ensures
            d == (Dispatch { key, worker: least_loaded(old(self).loads()) as usize }),
            0 <= least_loaded(old(self).loads()) < old(self).loads().len(),
            final(self).loads().len() == old(self).loads().len(),
            final(self).loads() == old(self).loads().update(
                least_loaded(old(self).loads()),
                bump(old(self).loads()[least_loaded(old(self).loads())]),
            ),
            final(self).edges() == old(self).edges(),
            final(self).reruns() == old(self).reruns(),
            final(self).root() == old(self).root(),
    {
        let w = self.least_loaded();
        if self.pending[w] < u64::MAX {
            self.pending.set(w, self.pending[w] + 1);
        }
        proof {
            assert(self.pending@ =~= old(self).pending@.update(
                w as int,
                bump(old(self).pending@[w as int]),
            ));
        }
        Dispatch { key, worker: w }
    }

    /// Claims each key of `ks` in turn and hands each one that must be
    /// explored to the least-loaded worker.
    fn dispatch_keys(&mut self, store: &mut GameStore, ks: &Vec<GameHash>) -> (r: Vec<Dispatch>)
        requires
            old(self).loads().len() >= 1,
        ensures
            (final(store)@, final(self).loads(), r@) == dispatch_all(
                old(store)@,
                old(self).loads(),
                ks@,
            ),
            keeps_decided(old(store)@, final(store)@),
            final(self).loads().len() == old(self).loads().len(),
            final(self).edges() == old(self).edges(),
            final(self).reruns() == old(self).reruns(),
            final(self).root() == old(self).root(),
    {
        let ghost m0 = store@;
        let ghost l0 = self.loads();
        let ghost e0 = self.edges();
        let ghost r0 = self.reruns();
        let ghost root0 = self.root();
        let mut out: Vec<Dispatch> = Vec::new();
        let mut i: usize = 0;
        proof {
            assert(ks@.subrange(0, ks@.len() as int) =~= ks@);
            let (m, p, d) = dispatch_all(m0, l0, ks@);
            assert(out@ + d =~= d);
        }
        while i < ks.len()
            invariant
                i <= ks@.len(),
                self.loads().len() == l0.len(),
                l0.len() >= 1,
                self.edges() == e0,
                self.reruns() == r0,
                self.root() == root0,
                keeps_decided(m0, store@),
                ({
                    let (m, p, d) = dispatch_all(
                        store@,
                        self.loads(),
                        ks@.subrange(i as int, ks@.len() as int),
                    );
                    (m, p, out@ + d) == dispatch_all(m0, l0, ks@)
                }),
            decreases ks@.len() - i,
        {
            let ghost rest = ks@.subrange(i as int, ks@.len() as int);
            assert(rest.drop_first() =~= ks@.subrange(i + 1, ks@.len() as int));
            let ghost before_out = out@;
            let k = ks[i];
            let o = store.claim(k);
            if let ClaimOutcome::Created = o {
                let d = self.assign(k);
                out.push(d);
                proof {
                    let (m2, p2, ds) = dispatch_all(store@, self.loads(), rest.drop_first());
                    assert(before_out + (seq![d] + ds) =~= out@ + ds);
                }
            }
            i += 1;
        }
        proof {
            assert(ks@.subrange(i as int, ks@.len() as int) =~= Seq::<GameHash>::empty());
            assert(out@ + Seq::<Dispatch>::empty() =~= out@);
        }
        out
    }

    fn vec_contains(v: &Vec<GameHash>, x: GameHash) -> (r: bool)
        ensures
            r == v@.contains(x),
    {
        let mut i: usize = 0;
        while i < v.len()
            invariant
                i <= v@.len(),
                forall|j: int| 0 <= j < i ==> v@[j] != x,
            decreases v@.len() - i,
        {
            if v[i] == x {
                return true;
            }
            i += 1;
        }
        false
    }

    /// Records that `parent` waits on `child`, once.
    fn add_edge(&mut self, child: GameHash, parent: GameHash)
        requires
            old(self).wf(),
            child != parent,
        ensures
            final(self).wf(),
            final(self).edges() == add_parent(old(self).edges(), child, parent),
            final(self).loads() == old(self).loads(),
            final(self).reruns() == old(self).reruns(),
            final(self).root() == old(self).root(),
    {
        let ghost e0 = self.edges();
        let mut v = match self.interests.remove(&child) {
            Some(v) => v,
            None => Vec::new(),
        };
        let ghost v0 = v@;
        assert(e0.contains_key(child) ==> v0 == e0[child]);
        assert(!e0.contains_key(child) ==> v0 == Seq::<GameHash>::empty());
        if !Self::vec_contains(&v, parent) {
            v.push(parent);
        }
        self.interests.insert(child, v);
        proof {
            let e1 = self.edges();
            if !e0.contains_key(child) {
                assert(v@ =~= seq![parent]);
                assert(e1 =~= e0.insert(child, seq![parent]));
            } else if e0[child].contains(parent) {
                assert(e1 =~= e0);
            } else {
                assert(e1 =~= e0.insert(child, e0[child].push(parent)));
            }
            assert forall|c: GameHash| #[trigger] e1.contains_key(c) implies e1[c].no_duplicates()
                && !e1[c].contains(c) by {
                if c == child {
                    if e0.contains_key(child) {
                        assert(e0[child].no_duplicates() && !e0[child].contains(child));
                    }
                    assert(!v@.contains(child)) by {
                        if v@.contains(child) {
                            let j = choose|j: int| 0 <= j < v@.len() && v@[j] == child;
                            if j < v0.len() {
                                assert(v0.contains(child));
                            }
                        }
                    }
                    assert(v@.no_duplicates()) by {
                        assert forall|a: int, b: int|
                            0 <= a < v@.len() && 0 <= b < v@.len() && a != b implies v@[a]
                            != v@[b] by {
                            if a < v0.len() && b < v0.len() {
                            } else if a < v0.len() {
                                assert(v0.contains(v@[a]));
                            } else if b < v0.len() {
                                assert(v0.contains(v@[b]));
                            }
                        }
                    }
                } else {
                    assert(e0.contains_key(c) && e1[c] == e0[c]);
                }
            }
        }
    }

    /// An interest in position `interesting`, from the position `parent`
    /// waiting on it, or from no one for the root. The position is claimed;
    /// if it must be explored it goes to the least-loaded worker. A parent
    /// is recorded as waiting on it unless it is decided already; then the
    /// parent is marked to be explored again once its current exploration ends.
    pub fn on_interest(
        &mut self,
        store: &mut GameStore,
        interesting: GameHash,
        parent: Option<GameHash>,
    ) -> (r: Option<Dispatch>)
        requires
            old(self).wf(),
        ensures
            final(self).wf(),
            final(self).root() == old(self).root(),
            keeps_decided(old(store)@, final(store)@),
            ({
                let (m1, o) = claim_spec(old(store)@, interesting);
                &&& final(store)@ == m1
                &&& o is Created ==> r == Some(
                    Dispatch { key: interesting, worker: least_loaded(old(self).loads()) as usize },
                ) && final(self).loads() == old(self).loads().update(
                    least_loaded(old(self).loads()),
                    bump(old(self).loads()[least_loaded(old(self).loads())]),
                )
                &&& !(o is Created) ==> r is None && final(self).loads() == old(self).loads()
                &&& final(self).edges() == (match parent {
                    Some(q) => if !(o is AlreadyDecided) && q != interesting {
                        add_parent(old(self).edges(), interesting, q)
                    } else {
                        old(self).edges()
                    },
                    None => old(self).edges(),
                })
                &&& final(self).reruns() == (match parent {
                    Some(q) => if o is AlreadyDecided {
                        old(self).reruns().insert(q)
                    } else {
                        old(self).reruns()
                    },
                    None => old(self).reruns(),
                })
            }),
    {
        let o = store.claim(interesting);
        match o {
            ClaimOutcome::AlreadyDecided(_, _) => {
                if let Some(q) = parent {
                    self.rerun.insert(q);
                }
            },
            _ => {
                if let Some(q) = parent {
                    if q != interesting {
                        self.add_edge(interesting, q);
                    }
                }
            },
        }
        match o {
            ClaimOutcome::Created => Some(self.assign(interesting)),
            _ => None,
        }
    }

    /// Worker `worker_id` reports what it found for `finished`. The report is
    /// recorded; a verdict releases every position waiting on `finished`,
    /// each claimed again and handed out if it must be explored. A root
    /// with a verdict and no one waiting ends the solve. An open result
    /// for a position marked to be explored again hands it out again.
    pub fn on_completion(
        &mut self,
        store: &mut GameStore,
        finished: GameHash,
        worker_id: usize,
        state: GameState,
    ) -> (r: Result<Completion, ConductorError>)
        requires
            old(self).wf(),
        ensures
            final(self).wf(),
            final(self).root() == old(self).root(),
            keeps_decided(old(store)@, final(store)@),
            worker_id >= old(self).loads().len() ==> r is Err && r->Err_0
                == ConductorError::UnknownWorker,
            worker_id < old(self).loads().len() && !(old(store)@.contains_key(finished)
                && crate::store::is_claimed(old(store)@[finished])) ==> r is Err && r->Err_0 is Store,
            r is Err ==> final(store)@ == old(store)@ && final(self).edges() == old(self).edges()
                && final(self).loads() == old(self).loads() && final(self).reruns()
                == old(self).reruns(),
            r is Ok <==> worker_id < old(self).loads().len() && old(store)@.contains_key(finished)
                && crate::store::is_claimed(old(store)@[finished]),
            r matches Ok(c) ==> ({
                let m1 = old(store)@.insert(finished, state);
                let l1 = old(self).loads().update(
                    worker_id as int,
                    drop_one(old(self).loads()[worker_id as int]),
                );
                let e = old(self).edges();
                let ks = if state is Decided {
                    if e.contains_key(finished) {
                        e[finished]
                    } else {
                        Seq::empty()
                    }
                } else if old(self).reruns().contains(finished) {
                    seq![finished]
                } else {
                    Seq::empty()
                };
                &&& (final(store)@, final(self).loads(), c.dispatches@) == dispatch_all(m1, l1, ks)
                &&& final(self).edges() == (if state is Decided {
                    e.remove(finished)
                } else {
                    e
                })
                &&& final(self).reruns() == (if state is Decided {
                    old(self).reruns()
                } else {
                    old(self).reruns().remove(finished)
                })
                &&& c.verdict == (if state is Decided && !e.contains_key(finished) && finished
                    == old(self).root() {
                    Some((state->Decided_0, state->Decided_1))
                } else {
                    None
                })
            }),
    {
        if worker_id >= self.pending.len() {
            return Err(ConductorError::UnknownWorker);
        }
        match store.record(finished, state) {
            Err(e) => {
                return Err(ConductorError::Store(e));
            },
            Ok(()) => {},
        }
        let left = self.pending[worker_id];
        if left > 0 {
            self.pending.set(worker_id, left - 1);
        }
        proof {
            assert(self.pending@ =~= old(self).pending@.update(
                worker_id as int,
                drop_one(old(self).pending@[worker_id as int]),
            ));
        }
        let ghost e0 = self.edges();
        match state {
            GameState::Decided(score, column) => {
                match self.interests.remove(&finished) {
                    Some(parents) => {
                        proof {
                            assert(parents@ == e0[finished]);
                            assert(self.edges() =~= e0.remove(finished));
                            lemma_edges_wf_remove(e0, finished);
                        }
                        let dispatches = self.dispatch_keys(store, &parents);
                        Ok(Completion { dispatches, verdict: None })
                    },
                    None => {
                        proof {
                            assert(self.edges() =~= e0.remove(finished));
                            lemma_edges_wf_remove(e0, finished);
                        }
                        let verdict = if finished == self.principal {
                            Some((score, column))
                        } else {
                            None
                        };
                        let dispatches = self.dispatch_keys(store, &Vec::new());
                        Ok(Completion { dispatches, verdict })
                    },
                }
            },
            _ => {
                let again = self.rerun.remove(&finished);
                let mut ks: Vec<GameHash> = Vec::new();
                if again {
                    ks.push(finished);
                }
                proof {
                    if again {
                        assert(ks@ =~= seq![finished]);
                    } else {
                        assert(ks@ =~= Seq::<GameHash>::empty());
                    }
                }
                let dispatches = self.dispatch_keys(store, &ks);
                Ok(Completion { dispatches, verdict: None })
            },
        }
    }
}

} // verus!
