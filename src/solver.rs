//! Solving a position: the conductor's protocol run to its end, one job at a time.
use vstd::prelude::*;
use crate::board::{Column, ConnectFour, Player, Score, WIDTH, col_index, playable};
use crate::codec::{GameHash, field_code, field_of, hash_from_game, lemma_hash_round_trip, lemma_key_nonneg};
use crate::conductor::{
    Completion, Conductor, Dispatch, claimed_in, lemma_dispatch_facts, lemma_first_min,
};
use crate::search::has_immediate_win;
use crate::store::{GameState, GameStore};
use crate::worker::{do_the_job, first_win_is};

verus! {

/// The solving engine: how many workers share the jobs.
pub struct BruteForceStrategy {
    pub nworkers: usize,
}

/// Why a solve ended without a verdict.
#[derive(PartialEq, Eq, Debug, Clone, Copy, Structural)]
pub enum SolveError {
    /// The budget of jobs ran out first.
    OutOfJobs,
    /// No job was left to run, and the root had no verdict yet.
    Stalled,
}

/// A verdict the solve ended with: a decided score and the column chosen.
pub open spec fn is_final_verdict(v: (Score, Option<Column>)) -> bool {
    !(v.0 is Undecided)
}

/// The jobs waiting in `jobs` from `next` on: each for a claimed key, no
/// key twice, to an existing worker; and every claimed key has its job.
pub open spec fn queue_wf(
    m: Map<GameHash, GameState>,
    jobs: Seq<Dispatch>,
    next: int,
    nworkers: int,
    current: Option<GameHash>,
) -> bool {
    &&& 0 <= next <= jobs.len()
    &&& forall|q: int|
        next <= q < jobs.len() ==> (#[trigger] jobs[q]).worker < nworkers && jobs[q].key >= 0
            && claimed_in(m, jobs[q].key) && current != Some(jobs[q].key)
    &&& forall|q1: int, q2: int|
        next <= q1 < q2 < jobs.len() ==> (#[trigger] jobs[q1]).key != (#[trigger] jobs[q2]).key
    &&& forall|k: GameHash|
        #[trigger] claimed_in(m, k) ==> current == Some(k) || exists|q: int|
            next <= q < jobs.len() && (#[trigger] jobs[q]).key == k
}

/// The keys waiting on others, and those marked to run again, are keys of positions.
pub open spec fn keys_nonneg(c: Conductor) -> bool {
    &&& forall|k: GameHash, i: int|
        c.edges().contains_key(k) && 0 <= i < c.edges()[k].len() ==> #[trigger] c.edges()[k][i] >= 0
    &&& forall|k: GameHash| #[trigger] c.reruns().contains(k) ==> k >= 0
}

impl BruteForceStrategy {
    pub fn new(nworkers: usize) -> (r: BruteForceStrategy)
        ensures
            r.nworkers == nworkers,
    {
        BruteForceStrategy { nworkers }
    }

    /// Solves `g` for `p` by the conductor's protocol, the jobs taken in the
    /// order they were handed out, each worker's job run to its end before
    /// the next. The protocol never breaks: every job runs on a claimed
    /// position and every report is taken. Without a verdict the solve ends
    /// only when `max_jobs` jobs have run, or when no job is left.
    #[verifier::loop_isolation(false)]
    #[verifier::rlimit(80)]
    pub fn solve_in_order(
        &self,
        g: &ConnectFour,
        p: &Player,
        moves_ahead: i32,
        limit_millis: u128,
        max_jobs: u64,
    ) -> (r: Result<(Score, Option<Column>), SolveError>)
        requires
            g.wf(),
            self.nworkers >= 1,
        ensures
            r matches Ok(v) ==> is_final_verdict(v) && (v.1 matches Some(c) ==> playable(
                g@,
                col_index(c) as int,
            )),
            has_immediate_win(g@, *p) && max_jobs >= 1 ==> (r matches Ok(
                (Score::Won(0), Some(c)),
            ) && first_win_is(g@, *p, c)),
            max_jobs == 0 ==> r == Err::<(Score, Option<Column>), SolveError>(SolveError::OutOfJobs),
    {
        let principal = hash_from_game(g);
        proof {
            lemma_hash_round_trip(g@);
        }
        let mut store = GameStore::new();
        let mut conductor = Conductor::new(principal, self.nworkers);
        let mut jobs: Vec<Dispatch> = Vec::new();
        proof {
            lemma_first_min(conductor.loads(), conductor.loads().len() as int);
        }
        match conductor.on_interest(&mut store, principal, None) {
            Some(d) => jobs.push(d),
            None => {},
        }
        let ghost nw = self.nworkers as int;
        proof {
            assert(jobs@.len() == 1 && jobs@[0].key == principal);
            assert(claimed_in(store@, principal));
            assert forall|k: GameHash| #[trigger] claimed_in(store@, k) implies None::<GameHash> == Some(k)
                || exists|q: int| 0 <= q < jobs@.len() && (#[trigger] jobs@[q]).key == k by {
                assert(k == principal);
                assert(jobs@[0].key == k);
            }
        }
        let mut next: usize = 0;
        let mut done: u64 = 0;
        while done < max_jobs && next < jobs.len()
            invariant
                conductor.wf(),
                conductor.loads().len() == nw,
                nw >= 1,
                keys_nonneg(conductor),
                queue_wf(store@, jobs@, next as int, nw, None),
                conductor.root() == principal,
                principal == field_code(g@),
                field_of(principal as int, WIDTH as nat) == g@,
                principal >= 0,
                has_immediate_win(g@, *p) ==> done == 0,
                done == 0 ==> next == 0 && jobs@.len() == 1 && jobs@[0].key == principal
                    && jobs@[0].worker < conductor.loads().len() && store@.contains_key(principal)
                    && store@[principal] == GameState::Novel && conductor.edges()
                    == Map::<i128, Seq<i128>>::empty(),
            decreases max_jobs - done,
        {
            let job = jobs[next];
            next += 1;
            done += 1;
            let jk = job.key;
            let (state, interests) = match do_the_job(&store, moves_ahead, limit_millis, jk, p) {
                Ok(found) => found,
                Err(_) => {
                    proof {
                        assert(false);
                    }
                    return Err(SolveError::Stalled);
                },
            };
            let ghost s0 = store@;
            let ghost e0 = conductor.edges();
            let ghost l0 = conductor.loads();
            let mut k: usize = 0;
            while k < interests.len()
                invariant
                    conductor.wf(),
                    conductor.loads().len() == nw,
                    keys_nonneg(conductor),
                    conductor.root() == principal,
                    jk >= 0,
                    claimed_in(store@, jk),
                    queue_wf(store@, jobs@, next as int, nw, Some(jk)),
                    crate::worker::genuine_interests(s0, field_of(jk as int, WIDTH as nat), *p, interests@),
                    k <= interests@.len(),
                    k == 0 ==> store@ == s0 && conductor.edges() == e0 && conductor.loads() == l0,
                decreases interests@.len() - k,
            {
                let ih = interests[k];
                proof {
                    let b = field_of(jk as int, WIDTH as nat);
                    assert(crate::worker::is_grandchild_key(b, *p, interests@[k as int]));
                    let (c, d) = choose|c: int, d: int|
                        #[trigger] playable(b, c) && #[trigger] playable(
                            crate::board::dropped(b, c, *p),
                            d,
                        ) && ih == field_code(
                            crate::board::dropped(
                                crate::board::dropped(b, c, *p),
                                d,
                                crate::board::opponent_of(*p),
                            ),
                        );
                    lemma_key_nonneg(
                        crate::board::dropped(
                            crate::board::dropped(b, c, *p),
                            d,
                            crate::board::opponent_of(*p),
                        ),
                    );
                    lemma_first_min(conductor.loads(), conductor.loads().len() as int);
                }
                let ghost sb = store@;
                let ghost jb = jobs@;
                match conductor.on_interest(&mut store, ih, Some(jk)) {
                    Some(d) => {
                        jobs.push(d);
                        proof {
                            assert(!claimed_in(sb, ih));
                            assert forall|q: int|
                                next <= q < jobs@.len() implies (#[trigger] jobs@[q]).worker < nw
                                && jobs@[q].key >= 0 && claimed_in(store@, jobs@[q].key) && Some(jk)
                                != Some(jobs@[q].key) by {
                                if q < jb.len() {
                                    assert(jobs@[q] == jb[q]);
                                }
                            }
                            assert forall|q1: int, q2: int|
                                next <= q1 < q2 < jobs@.len() implies (#[trigger] jobs@[q1]).key
                                != (#[trigger] jobs@[q2]).key by {
                                if q2 < jb.len() {
                                    assert(jobs@[q1] == jb[q1] && jobs@[q2] == jb[q2]);
                                } else {
                                    assert(jobs@[q1] == jb[q1]);
                                }
                            }
                            assert forall|kk: GameHash| #[trigger] claimed_in(store@, kk) implies Some(jk)
                                == Some(kk) || exists|q: int|
                                next <= q < jobs@.len() && (#[trigger] jobs@[q]).key == kk by {
                                if kk == ih {
                                    assert(jobs@[jb.len() as int].key == kk);
                                } else if kk != jk {
                                    assert(claimed_in(sb, kk));
                                    let q = choose|q: int| next <= q < jb.len() && (#[trigger] jb[q]).key == kk;
                                    assert(jobs@[q] == jb[q]);
                                }
                            }
                        }
                    },
                    None => {
                        proof {
                            assert forall|kk: GameHash| #[trigger] claimed_in(store@, kk) implies claimed_in(sb, kk) by {}
                        }
                    },
                }
                k += 1;
            }
            let ghost sc = store@;
            let ghost jc = jobs@;
            let ghost lc = conductor.loads();
            let ghost ec = conductor.edges();
            let ghost rc = conductor.reruns();
            match conductor.on_completion(&mut store, jk, job.worker, state) {
                Ok(Completion { dispatches, verdict }) => {
                    if let Some((score, column)) = verdict {
                        if let Score::Undecided = score {
                            return Err(SolveError::Stalled);
                        }
                        return Ok((score, column));
                    }
                    let ghost m1 = sc.insert(jk, state);
                    let ghost l1 = lc.update(job.worker as int, crate::conductor::drop_one(lc[job.worker as int]));
                    let ghost ks = if state is Decided {
                        if ec.contains_key(jk) {
                            ec[jk]
                        } else {
                            Seq::empty()
                        }
                    } else if rc.contains(jk) {
                        seq![jk]
                    } else {
                        Seq::empty()
                    };
                    let ghost ds = dispatches@;
                    proof {
                        assert((store@, conductor.loads(), ds) == crate::conductor::dispatch_all(m1, l1, ks));
                        lemma_dispatch_facts(m1, l1, ks);
                        assert(!claimed_in(m1, jk));
                        assert forall|kk: GameHash| ks.contains(kk) implies kk >= 0 by {
                            let i = choose|i: int| 0 <= i < ks.len() && ks[i] == kk;
                            if state is Decided {
                                assert(ec[jk][i] >= 0);
                            }
                        }
                    }
                    let ghost jd = jobs@;
                    let mut q: usize = 0;
                    while q < dispatches.len()
                        invariant
                            q <= dispatches@.len(),
                            jobs@ == jd + dispatches@.subrange(0, q as int),
                        decreases dispatches@.len() - q,
                    {
                        jobs.push(dispatches[q]);
                        q += 1;
                        assert(jobs@ =~= jd + dispatches@.subrange(0, q as int));
                    }
                    proof {
                        assert(dispatches@.subrange(0, dispatches@.len() as int) =~= dispatches@);
                        assert(jobs@ =~= jd + ds);
                        assert(jd == jc);
                        assert(l1.len() == nw);
                        assert(store@ == crate::conductor::dispatch_all(m1, l1, ks).0);
                        assert(ds == crate::conductor::dispatch_all(m1, l1, ks).2);
                        assert forall|qq: int|
                            next <= qq < jobs@.len() implies (#[trigger] jobs@[qq]).worker < nw
                            && jobs@[qq].key >= 0 && claimed_in(store@, jobs@[qq].key) && None::<GameHash>
                            != Some(jobs@[qq].key) by {
                            if qq < jd.len() {
                                assert(jobs@[qq] == jc[qq]);
                                assert(jc[qq].key != jk);
                                assert(claimed_in(sc, jc[qq].key));
                                assert(claimed_in(m1, jobs@[qq].key));
                            } else {
                                let i = qq - jd.len();
                                assert(jobs@[qq] == ds[i]);
                                assert(ds[i].worker < l1.len() && claimed_in(store@, ds[i].key) && ks.contains(ds[i].key));
                            }
                        }
                        assert forall|q1: int, q2: int|
                            next <= q1 < q2 < jobs@.len() implies (#[trigger] jobs@[q1]).key
                            != (#[trigger] jobs@[q2]).key by {
                            if q2 < jd.len() {
                                assert(jobs@[q1] == jc[q1] && jobs@[q2] == jc[q2]);
                            } else if q1 < jd.len() {
                                assert(jobs@[q1] == jc[q1]);
                                assert(jobs@[q2] == ds[q2 - jd.len()]);
                                assert(jc[q1].key != jk);
                                assert(claimed_in(sc, jc[q1].key));
                                assert(claimed_in(m1, jobs@[q1].key));
                                assert(!claimed_in(m1, ds[q2 - jd.len()].key));
                            } else {
                                assert(jobs@[q1] == ds[q1 - jd.len()]);
                                assert(jobs@[q2] == ds[q2 - jd.len()]);
                            }
                        }
                        assert forall|kk: GameHash| #[trigger] claimed_in(store@, kk) implies None::<GameHash>
                            == Some(kk) || exists|qq: int|
                            next <= qq < jobs@.len() && (#[trigger] jobs@[qq]).key == kk by {
                            if claimed_in(sc.insert(jk, state), kk) {
                                assert(claimed_in(sc, kk) && kk != jk);
                                let qq = choose|qq: int| next <= qq < jc.len() && (#[trigger] jc[qq]).key == kk;
                                assert(jobs@[qq] == jc[qq]);
                            } else {
                                let i = choose|i: int| 0 <= i < ds.len() && (#[trigger] ds[i]).key == kk;
                                assert(jobs@[jd.len() + i] == ds[i]);
                            }
                        }
                    }
                },
                Err(_) => {
                    proof {
                        assert(false);
                    }
                    return Err(SolveError::Stalled);
                },
            }
        }
        if done >= max_jobs {
            Err(SolveError::OutOfJobs)
        } else {
            Err(SolveError::Stalled)
        }
    }
}

} // verus!
