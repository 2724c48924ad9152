//! The course of a scan: which strategies run when, on what, and when the
//! gathering is over.
//!
//! A scan runs its strategies in three waves and then, where devices were
//! woken up, looks at the neighbor cache once more. What has to be done next
//! is decided here; doing it is up to the caller, who hands back what came of
//! it.

use vstd::prelude::*;
use vstd::string::*;

use crate::discovery::{AnyStrategy, Strategy, StrategyModel, StrategyOutcome};
use crate::model::{
    Interface, InterfaceModel, NeighborEntry, NeighborModel, ObservationModel, ReasonModel,
};
use crate::scanner::gather;
use crate::scanner::gather::{
    absorb_outcome, add_rechecks, enabled_strategies, in_wave, interface_network_key,
    select_strategies, subnet, wants_recheck, wave_candidates,
};
use crate::scanner::{Gathered, GatheredModel, ScanError, ScanOptions};
use crate::store::{networks, Store, StoreModel};
use crate::text::as_opt_str;

verus! {

/// Where a scan is in its course.
#[derive(Debug, Clone, Copy, PartialEq, Eq, Structural)]
pub enum Stage {
    /// A wave of strategies is to run: the first, the second or the third.
    Wave(u8),
    /// The neighbor cache is to be looked at once more.
    Recheck,
    /// The gathering is over.
    Done,
}

/// A scan in progress.
#[derive(Debug)]
pub struct Scan {
    pub stage: Stage,
    pub gathered: Gathered,
}

/// What a [`Scan`] says.
#[verifier::ext_equal]
pub struct ScanModel {
    pub stage: Stage,
    pub gathered: GatheredModel,
}

impl DeepView for Scan {
    type V = ScanModel;

    open spec fn deep_view(&self) -> ScanModel {
        ScanModel { stage: self.stage, gathered: self.gathered.deep_view() }
    }
}

/// What is to be done next.
#[derive(Debug)]
pub enum Action {
    /// Run these strategies, given these candidate addresses.
    Run { strategies: Vec<AnyStrategy>, candidates: Vec<String> },
    /// Look at the neighbor cache once more.
    Recheck,
    /// Nothing: the gathering is over.
    Finish,
}

/// What an [`Action`] says.
#[verifier::ext_equal]
pub enum ActionModel {
    Run { strategies: Seq<AnyStrategy>, candidates: Seq<Seq<char>> },
    Recheck,
    Finish,
}

impl DeepView for Action {
    type V = ActionModel;

    open spec fn deep_view(&self) -> ActionModel {
        match self {
            Action::Run { strategies, candidates } => ActionModel::Run {
                strategies: strategies@,
                candidates: candidates.deep_view(),
            },
            Action::Recheck => ActionModel::Recheck,
            Action::Finish => ActionModel::Finish,
        }
    }
}

/// A scan at its beginning.
pub open spec fn scan_begun(
    m: StoreModel,
    strategies: Option<Seq<Seq<char>>>,
    iface: InterfaceModel,
    started_at: i64,
) -> ScanModel {
    ScanModel {
        stage: Stage::Wave(1),
        gathered: GatheredModel {
            started_at,
            iface,
            network_key: gather::network_of(iface),
            strategies: gather::selected(gather::enabled_ids(strategies, m)),
            strategies_run: Seq::empty(),
            observations: Seq::empty(),
            problems: Seq::empty(),
            privilege_json: Seq::empty(),
            grace: crate::store::grace_of(m.settings) as u32,
        },
    }
}

/// The store after a scan's network was seen.
pub open spec fn network_noted(m: StoreModel, iface: InterfaceModel, t: i64) -> StoreModel {
    StoreModel {
        networks: networks::network_seen(
            m.networks,
            gather::network_of(iface),
            Some(gather::subnet_of(iface)),
            iface.gateway_mac,
            t,
        ),
        ..m
    }
}

/// What is to be done next, given the neighbors as they are now. Only the
/// second wave needs candidates: everything the first wave saw, the neighbors
/// and the gateway.
pub open spec fn next_action(s: ScanModel, neighbors: Seq<NeighborModel>) -> ActionModel {
    match s.stage {
        Stage::Wave(n) => ActionModel::Run {
            strategies: s.gathered.strategies.filter(gather::runs_in(n)),
            candidates: if n == 2 {
                gather::candidates_of(s.gathered.observations, neighbors, s.gathered.iface)
            } else {
                Seq::empty()
            },
        },
        Stage::Recheck => ActionModel::Recheck,
        Stage::Done => ActionModel::Finish,
    }
}

/// What was gathered after one more outcome.
pub open spec fn absorbed_one(
    g: GatheredModel,
    s: AnyStrategy,
    outcome: StrategyModel,
) -> GatheredModel {
    GatheredModel {
        strategies_run: g.strategies_run.push(s.id_text()),
        observations: g.observations + outcome.observations,
        problems: gather::problems_after(g.problems, s.id_text(), outcome.problem),
        ..g
    }
}

/// What was gathered after the outcomes of strategies, one for each.
pub open spec fn absorbed(
    g: GatheredModel,
    strategies: Seq<AnyStrategy>,
    outcomes: Seq<StrategyModel>,
) -> GatheredModel
    decreases strategies.len(),
{
    if strategies.len() == 0 || outcomes.len() == 0 {
        g
    } else {
        absorbed_one(
            absorbed(g, strategies.drop_last(), outcomes.drop_last()),
            strategies.last(),
            outcomes.last(),
        )
    }
}

/// Where a scan is after a wave.
pub open spec fn stage_after(n: u8, run: Seq<Seq<char>>) -> Stage {
    if n < 3 {
        Stage::Wave((n + 1) as u8)
    } else if gather::woke_devices(run) {
        Stage::Recheck
    } else {
        Stage::Done
    }
}

/// A scan after a wave with its outcomes, one for each strategy that ran.
pub open spec fn wave_absorbed(s: ScanModel, n: u8, outcomes: Seq<StrategyModel>) -> ScanModel {
    let g = absorbed(s.gathered, s.gathered.strategies.filter(gather::runs_in(n)), outcomes);
    ScanModel { stage: stage_after(n, g.strategies_run), gathered: g }
}

/// A scan after the last look at the neighbor cache.
pub open spec fn recheck_absorbed(s: ScanModel, neighbors: Seq<NeighborModel>) -> ScanModel {
    ScanModel {
        stage: Stage::Done,
        gathered: GatheredModel {
            observations: s.gathered.observations + gather::rechecks(
                s.gathered.strategies_run,
                neighbors,
            ),
            ..s.gathered
        },
    }
}

impl Scan {
    /// Begin a scan on an interface: note its network, and settle which
    /// strategies run and how many misses it takes to announce an absence.
    pub fn begin_at(
        store: &mut Store,
        options: &ScanOptions,
        iface: Interface,
        started_at: i64,
        t: i64,
    ) -> (r: Result<Scan, ScanError>)
        requires
            old(store).deep_view().wf(),
            iface.deep_view().wf(),
        ensures
            r is Ok,
            final(store).deep_view() == network_noted(
                old(store).deep_view(),
                iface.deep_view(),
                t,
            ),
            r.unwrap().deep_view() == scan_begun(
                old(store).deep_view(),
                options.strategies.deep_view(),
                iface.deep_view(),
                started_at,
            ),
            final(store).deep_view().wf(),
    {
        let network_key = interface_network_key(&iface);
        let net = subnet(&iface);
        if let Err(e) = store.upsert_network_at(
            network_key.as_str(),
            Some(net.as_str()),
            as_opt_str(&iface.gateway_mac),
            t,
        ) {
            return Err(ScanError::Store(e));
        }
        let enabled = enabled_strategies(&options.strategies, store);
        let strategies = select_strategies(&enabled);
        let grace: u32 = store.grace_scans();
        let scan = Scan {
            stage: Stage::Wave(1),
            gathered: Gathered {
                started_at,
                iface,
                network_key,
                strategies,
                strategies_run: Vec::new(),
                observations: Vec::new(),
                problems: Vec::new(),
                privilege_json: String::new(),
                grace,
            },
        };
        assert(scan.gathered.strategies_run.deep_view() == Seq::<Seq<char>>::empty());
        assert(scan.gathered.observations.deep_view() == Seq::<ObservationModel>::empty());
        assert(scan.gathered.problems.deep_view() == Seq::<ReasonModel>::empty());
        Ok(scan)
    }

    /// Decide what is to be done next, given the neighbors as they are now.
    pub fn action(&self, neighbors: &Vec<NeighborEntry>) -> (r: Action)
        requires
            self.deep_view().gathered.iface.wf(),
        ensures
            r.deep_view() == next_action(self.deep_view(), neighbors.deep_view()),
    {
        match self.stage {
            Stage::Wave(n) => {
                let strategies = in_wave(&self.gathered.strategies, n);
                let candidates: Vec<String> = if n == 2 {
                    wave_candidates(&self.gathered.observations, neighbors, &self.gathered.iface)
                } else {
                    Vec::new()
                };
                assert(n != 2 ==> candidates.deep_view() == Seq::<Seq<char>>::empty());
                Action::Run { strategies, candidates }
            },
            Stage::Recheck => Action::Recheck,
            Stage::Done => Action::Finish,
        }
    }

    /// Take in what the strategies of the present wave brought, one outcome
    /// for each, in the order in which they were handed out.
    pub fn wave_done(&mut self, outcomes: Vec<StrategyOutcome>)
        requires
            old(self).stage is Wave,
            outcomes@.len() == old(self).gathered.strategies@.filter(
                gather::runs_in(old(self).stage->Wave_0),
            ).len(),
        ensures
            final(self).deep_view() == wave_absorbed(
                old(self).deep_view(),
                old(self).stage->Wave_0,
                outcomes.deep_view(),
            ),
    {
        let n: u8 = match self.stage {
            Stage::Wave(n) => n,
            Stage::Recheck => 3,
            Stage::Done => 3,
        };
        let strategies = in_wave(&self.gathered.strategies, n);
        let ghost g = self.gathered.deep_view();
        let ghost wave = strategies@;
        let ghost all = outcomes.deep_view();
        let mut left = outcomes;
        let mut i: usize = 0;
        while i < strategies.len()
            invariant
                i <= strategies.len(),
                wave == strategies@,
                all.len() == wave.len(),
                left@.len() == wave.len() - i,
                left.deep_view() == all.skip(i as int),
                self.gathered.deep_view() == absorbed(g, wave.take(i as int), all.take(i as int)),
            decreases strategies.len() - i,
        {
            assert(left.deep_view()[0] == left@[0].deep_view());
            let ghost before = left@;
            let ghost model = left.deep_view();
            let outcome = left.remove(0);
            assert(outcome.deep_view() == all[i as int]);
            assert forall|k: int| 0 <= k < left@.len() implies left.deep_view()[k] == all.skip(
                i + 1,
            )[k] by {
                assert(left@[k] == before[k + 1]);
                assert(model[k + 1] == before[k + 1].deep_view());
            }
            assert(left.deep_view() == all.skip(i + 1));
            assert(wave.take(i + 1).drop_last() == wave.take(i as int));
            assert(all.take(i + 1).drop_last() == all.take(i as int));
            let id = strategies[i].id();
            let ghost run = self.gathered.strategies_run.deep_view();
            self.gathered.strategies_run.push(id.to_string());
            assert(self.gathered.strategies_run.deep_view() == run.push(id@));
            absorb_outcome(
                id,
                outcome,
                &mut self.gathered.observations,
                &mut self.gathered.problems,
            );
            assert(self.gathered.deep_view() == absorbed(g, wave.take(i + 1), all.take(i + 1)));
            i = i + 1;
        }
        assert(wave.take(wave.len() as int) == wave);
        assert(all.take(all.len() as int) == all);
        if n < 3 {
            self.stage = Stage::Wave(n + 1);
        } else if wants_recheck(&self.gathered.strategies_run) {
            self.stage = Stage::Recheck;
        } else {
            self.stage = Stage::Done;
        }
    }

    /// Take in the neighbors as they are after everything ran.
    pub fn rechecked(&mut self, neighbors: &Vec<NeighborEntry>)
        ensures
            final(self).deep_view() == recheck_absorbed(
                old(self).deep_view(),
                neighbors.deep_view(),
            ),
    {
        add_rechecks(
            &mut self.gathered.observations,
            &self.gathered.strategies_run,
            neighbors,
        );
        self.stage = Stage::Done;
    }

    /// What was gathered, with the privilege state for the record.
    pub fn into_gathered(self, privilege_json: String) -> (r: Gathered)
        ensures
            r.deep_view() == (GatheredModel {
                privilege_json: privilege_json@,
                ..self.deep_view().gathered
            }),
    {
        let g = self.gathered;
        Gathered {
            started_at: g.started_at,
            iface: g.iface,
            network_key: g.network_key,
            strategies: g.strategies,
            strategies_run: g.strategies_run,
            observations: g.observations,
            problems: g.problems,
            privilege_json,
            grace: g.grace,
        }
    }
}

// ----- what holds of every course -----

/// Every strategy that was handed out is on record as having run, after those
/// of the waves before, and nothing that was observed before is lost.
pub proof fn law_wave_is_recorded(
    g: GatheredModel,
    strategies: Seq<AnyStrategy>,
    outcomes: Seq<StrategyModel>,
)
    requires
        outcomes.len() == strategies.len(),
    ensures
        absorbed(g, strategies, outcomes).strategies_run == g.strategies_run
            + crate::discovery::ids_of(strategies),
        g.observations.is_prefix_of(absorbed(g, strategies, outcomes).observations),
        g.problems.is_prefix_of(absorbed(g, strategies, outcomes).problems),
        absorbed(g, strategies, outcomes).strategies == g.strategies,
        absorbed(g, strategies, outcomes).iface == g.iface,
        absorbed(g, strategies, outcomes).network_key == g.network_key,
    decreases strategies.len(),
{
    let a = absorbed(g, strategies, outcomes);
    if strategies.len() > 0 {
        law_wave_is_recorded(g, strategies.drop_last(), outcomes.drop_last());
        let b = absorbed(g, strategies.drop_last(), outcomes.drop_last());
        assert(crate::discovery::ids_of(strategies) == crate::discovery::ids_of(
            strategies.drop_last(),
        ).push(strategies.last().id_text()));
        assert(a.strategies_run == g.strategies_run + crate::discovery::ids_of(strategies));
        assert(a.observations == b.observations + outcomes.last().observations);
    } else {
        assert(g.strategies_run + crate::discovery::ids_of(strategies) == g.strategies_run);
    }
}

/// A strategy that had a problem keeps its evidence and costs the scan its
/// completeness: what it observed is there, and so is the problem.
pub proof fn law_failing_strategy_keeps_its_evidence(
    g: GatheredModel,
    s: AnyStrategy,
    outcome: StrategyModel,
    k: int,
)
    requires
        0 <= k < outcome.observations.len(),
        outcome.problem is Some,
    ensures
        absorbed_one(g, s, outcome).observations.contains(outcome.observations[k]),
        absorbed_one(g, s, outcome).problems.len() == g.problems.len() + 1,
        absorbed_one(g, s, outcome).problems.last() == (ReasonModel {
            strategy: s.id_text(),
            reason: outcome.problem.unwrap(),
        }),
{
    let a = absorbed_one(g, s, outcome);
    assert(a.observations[g.observations.len() + k] == outcome.observations[k]);
}

/// Every strategy that was selected was asked for and has its turn in one of
/// the three waves.
pub proof fn law_every_strategy_has_its_wave(ids: Seq<Seq<char>>, i: int)
    requires
        0 <= i < gather::selected(ids).len(),
    ensures
        1 <= gather::selected(ids)[i].turn() <= 3,
        ids.contains(gather::selected(ids)[i].id_text()),
{
    let all = crate::discovery::registered();
    let p = gather::enabled_in(ids);
    crate::seqs::lemma_filter_holds(all, p);
    lemma_turns(all, p, i);
}

/// Every strategy is handed out in its wave.
pub proof fn law_every_strategy_is_handed_out(strategies: Seq<AnyStrategy>, i: int)
    requires
        0 <= i < strategies.len(),
    ensures
        strategies.filter(gather::runs_in(strategies[i].turn())).contains(strategies[i]),
{
    assert(strategies.contains(strategies[i]));
    crate::seqs::lemma_filter_contains(
        strategies,
        gather::runs_in(strategies[i].turn()),
        strategies[i],
    );
}

/// What a filter keeps of the registered strategies has a turn.
proof fn lemma_turns(s: Seq<AnyStrategy>, p: spec_fn(AnyStrategy) -> bool, i: int)
    requires
        forall|k: int| 0 <= k < s.len() ==> 1 <= (#[trigger] s[k]).turn() <= 3,
        0 <= i < s.filter(p).len(),
    ensures
        1 <= s.filter(p)[i].turn() <= 3,
    decreases s.len(),
{
    reveal(Seq::filter);
    if s.len() > 0 {
        let init = s.drop_last();
        assert forall|k: int| 0 <= k < init.len() implies 1 <= (#[trigger] init[k]).turn()
            <= 3 by {
            assert(init[k] == s[k]);
        }
        if i < init.filter(p).len() {
            lemma_turns(init, p, i);
        } else {
            assert(s[s.len() - 1] == s.last());
        }
    }
}

/// What a strategy observed is kept, all of it, and so is its problem, under
/// its id, whichever of a wave it was.
pub proof fn law_every_outcome_is_kept(
    g: GatheredModel,
    strategies: Seq<AnyStrategy>,
    outcomes: Seq<StrategyModel>,
    i: int,
)
    requires
        outcomes.len() == strategies.len(),
        0 <= i < outcomes.len(),
    ensures
        forall|k: int|
            0 <= k < outcomes[i].observations.len() ==> absorbed(
                g,
                strategies,
                outcomes,
            ).observations.contains(#[trigger] outcomes[i].observations[k]),
        outcomes[i].problem is Some ==> absorbed(g, strategies, outcomes).problems.contains(
            ReasonModel {
                strategy: strategies[i].id_text(),
                reason: outcomes[i].problem.unwrap(),
            },
        ),
        (forall|j: int| 0 <= j < outcomes.len() ==> (#[trigger] outcomes[j]).problem is None)
            ==> absorbed(g, strategies, outcomes).problems == g.problems,
    decreases strategies.len(),
{
    let ss = strategies.drop_last();
    let os = outcomes.drop_last();
    let n = ss.len() as int;
    let b = absorbed(g, ss, os);
    let a = absorbed(g, strategies, outcomes);
    assert(outcomes[n] == outcomes.last());
    if i < n {
        law_every_outcome_is_kept(g, ss, os, i);
        assert(os[i] == outcomes[i] && ss[i] == strategies[i]);
        assert forall|k: int| 0 <= k < outcomes[i].observations.len() implies a.observations.contains(
            #[trigger] outcomes[i].observations[k],
        ) by {
            let o = os[i].observations[k];
            assert(b.observations.contains(o));
            let x = choose|x: int| 0 <= x < b.observations.len() && b.observations[x] == o;
            assert(a.observations[x] == o);
        }
        if outcomes[i].problem is Some {
            let p = ReasonModel {
                strategy: strategies[i].id_text(),
                reason: outcomes[i].problem.unwrap(),
            };
            let x = choose|x: int| 0 <= x < b.problems.len() && b.problems[x] == p;
            assert(a.problems[x] == p);
        }
    } else {
        assert forall|k: int| 0 <= k < outcomes[i].observations.len() implies a.observations.contains(
            #[trigger] outcomes[i].observations[k],
        ) by {
            assert(a.observations[b.observations.len() + k] == outcomes[i].observations[k]);
        }
        if outcomes[i].problem is Some {
            assert(a.problems[b.problems.len() as int] == (ReasonModel {
                strategy: strategies[i].id_text(),
                reason: outcomes[i].problem.unwrap(),
            }));
        }
    }
    if forall|j: int| 0 <= j < outcomes.len() ==> (#[trigger] outcomes[j]).problem is None {
        assert forall|j: int| 0 <= j < os.len() implies (#[trigger] os[j]).problem is None by {
            assert(os[j] == outcomes[j]);
        }
        if n > 0 {
            law_every_outcome_is_kept(g, ss, os, 0);
        }
    }
}

/// A wave hands out the strategies whose turn it is, in their order, and only
/// the second has candidates. After the third the neighbor cache is looked at
/// once more where a strategy that wakes devices up has run, and then the
/// gathering is over.
pub proof fn law_course_of_a_scan(s: ScanModel, n: u8, neighbors: Seq<NeighborModel>)
    requires
        s.stage == Stage::Wave(n),
        1 <= n <= 3,
    ensures
        next_action(s, neighbors) is Run,
        next_action(s, neighbors)->strategies == s.gathered.strategies.filter(
            |x: AnyStrategy| x.turn() == n,
        ),
        n != 2 ==> next_action(s, neighbors)->candidates.len() == 0,
        n == 2 ==> next_action(s, neighbors)->candidates == gather::candidates_of(
            s.gathered.observations,
            neighbors,
            s.gathered.iface,
        ),
        forall|run: Seq<Seq<char>>| #[trigger]
            stage_after(n, run) == if n == 1 {
                Stage::Wave(2)
            } else if n == 2 {
                Stage::Wave(3)
            } else if run.contains("ping-sweep"@) || run.contains("arp-ping"@) {
                Stage::Recheck
            } else {
                Stage::Done
            },
{
    assert(gather::runs_in(n) =~= (|x: AnyStrategy| x.turn() == n));
}

/// A scan begins with the first wave, on the interface's network, with the
/// strategies that are enabled and the grace that is set, and nothing gathered.
pub proof fn law_scan_begins_empty(
    m: StoreModel,
    asked: Option<Seq<Seq<char>>>,
    iface: InterfaceModel,
    t: i64,
)
    requires
        crate::store::grace_of(m.settings) <= u32::MAX,
    ensures
        ({
            let s = scan_begun(m, asked, iface, t);
            &&& s.stage == Stage::Wave(1)
            &&& s.gathered.started_at == t
            &&& s.gathered.iface == iface
            &&& s.gathered.network_key == gather::network_of(iface)
            &&& s.gathered.strategies == gather::selected(gather::enabled_ids(asked, m))
            &&& s.gathered.strategies_run.len() == 0
            &&& s.gathered.observations.len() == 0
            &&& s.gathered.problems.len() == 0
            &&& s.gathered.grace == crate::store::grace_of(m.settings)
        }),
{
}

/// The last look at the neighbor cache only adds what it shows, and ends the
/// gathering.
pub proof fn law_recheck_only_adds(s: ScanModel, neighbors: Seq<NeighborModel>)
    ensures
        ({
            let n = recheck_absorbed(s, neighbors);
            &&& n.stage == Stage::Done
            &&& s.gathered.observations.is_prefix_of(n.gathered.observations)
            &&& n.gathered.observations.skip(s.gathered.observations.len() as int)
                == gather::rechecks(s.gathered.strategies_run, neighbors)
            &&& n.gathered == (GatheredModel {
                observations: n.gathered.observations,
                ..s.gathered
            })
        }),
{
    let n = recheck_absorbed(s, neighbors);
    assert(n.gathered.observations.skip(s.gathered.observations.len() as int) =~= gather::rechecks(
        s.gathered.strategies_run,
        neighbors,
    ));
}

} // verus!
