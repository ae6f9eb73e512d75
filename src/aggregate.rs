use vstd::prelude::*;

verus! {

/// What one run of the game program for one seed came to.
#[derive(Debug, Clone, Copy)]
pub enum RunOutcome {
    /// The game exited normally and reported these scores, by player slot.
    Success { points: [u32; 4] },
    /// The game exited abnormally for this seed.
    Crash { seed: u32 },
}

/// Running totals of one player slot.
#[derive(Debug, Clone, Copy, PartialEq, Eq, Structural)]
pub struct PlayerResults {
    pub total_points: u32,
    pub total_wins: u32,
}

/// Aggregate statistics over any number of runs.
#[derive(Debug, Clone)]
pub struct TestResults {
    pub player_results: [PlayerResults; 4],
    pub failed_seeds: Vec<u32>,
}

/// Mathematical model of [`TestResults`]: unbounded totals by player slot and
/// the crashed seeds in the order they were folded in.
pub struct Tally {
    pub points: Seq<int>,
    pub wins: Seq<int>,
    pub failed: Seq<u32>,
}

impl View for TestResults {
    type V = Tally;

    open spec fn view(&self) -> Tally {
        Tally {
            points: Seq::new(4, |i: int| self.player_results@[i].total_points as int),
            wins: Seq::new(4, |i: int| self.player_results@[i].total_wins as int),
            failed: self.failed_seeds@,
        }
    }
}

pub open spec fn zeros() -> Seq<int> {
    seq![0int, 0int, 0int, 0int]
}

/// The tally of no runs at all: the identity of [`merge`].
pub open spec fn empty_tally() -> Tally {
    Tally { points: zeros(), wins: zeros(), failed: seq![] }
}

pub open spec fn tally_wf(t: Tally) -> bool {
    t.points.len() == 4 && t.wins.len() == 4
}

/// Slot-wise sums of the totals; crashed seeds of `a`, then those of `b`.
pub open spec fn merge(a: Tally, b: Tally) -> Tally {
    Tally {
        points: Seq::new(4, |i: int| a.points[i] + b.points[i]),
        wins: Seq::new(4, |i: int| a.wins[i] + b.wins[i]),
        failed: a.failed + b.failed,
    }
}

/// Two tallies that agree on every total and on which seeds crashed, how
/// often, whatever their order.
pub open spec fn equivalent(a: Tally, b: Tally) -> bool {
    &&& a.points == b.points
    &&& a.wins == b.wins
    &&& a.failed.to_multiset() == b.failed.to_multiset()
}

/// The best of four scores.
pub open spec fn best_score(p: [u32; 4]) -> u32 {
    let m01 = if p@[0] >= p@[1] { p@[0] } else { p@[1] };
    let m23 = if p@[2] >= p@[3] { p@[2] } else { p@[3] };
    if m01 >= m23 { m01 } else { m23 }
}

/// What a single outcome contributes: for a success each slot's score, and
/// one win to every slot whose score equals the best (ties all win); for a
/// crash nothing but its seed.
pub open spec fn outcome_tally(o: RunOutcome) -> Tally {
    match o {
        RunOutcome::Success { points } => Tally {
            points: Seq::new(4, |i: int| points@[i] as int),
            wins: Seq::new(4, |i: int| if points@[i] == best_score(points) { 1int } else { 0int }),
            failed: seq![],
        },
        RunOutcome::Crash { seed } => Tally { points: zeros(), wins: zeros(), failed: seq![seed] },
    }
}

/// The tally of a sequence of outcomes, folded from the left.
pub open spec fn tally_of(s: Seq<RunOutcome>) -> Tally
    decreases s.len(),
{
    if s.len() == 0 {
        empty_tally()
    } else {
        merge(tally_of(s.drop_last()), outcome_tally(s.last()))
    }
}

/// Whether every total of `t` fits the 32-bit counters of [`TestResults`].
pub open spec fn fits_counters(t: Tally) -> bool {
    forall|i: int| 0 <= i < 4 ==> t.points[i] <= u32::MAX && t.wins[i] <= u32::MAX
}

impl PlayerResults {
    fn zero() -> (r: PlayerResults)
        ensures
            r.total_points == 0,
            r.total_wins == 0,
    {
        PlayerResults { total_points: 0, total_wins: 0 }
    }

    fn sum(a: PlayerResults, b: PlayerResults) -> (r: PlayerResults)
        requires
            a.total_points + b.total_points <= u32::MAX,
            a.total_wins + b.total_wins <= u32::MAX,
        ensures
            r.total_points == a.total_points + b.total_points,
            r.total_wins == a.total_wins + b.total_wins,
    {
        PlayerResults {
            total_points: a.total_points + b.total_points,
            total_wins: a.total_wins + b.total_wins,
        }
    }
}

impl TestResults {
    /// Results of no runs: all totals zero and no crashed seed.
    pub fn empty() -> (r: TestResults)
        ensures
            r@ == empty_tally(),
    {
        let r = TestResults { player_results: [PlayerResults::zero(); 4], failed_seeds: Vec::new() };
        assert(r@.points =~= zeros());
        assert(r@.wins =~= zeros());
        r
    }

    /// The results of the single run that ended in `outcome`.
    pub fn from_outcome(outcome: &RunOutcome) -> (r: TestResults)
        ensures
            r@ == outcome_tally(*outcome),
    {
        match outcome {
            RunOutcome::Success { points } => {
                let p = *points;
                let m01 = if p[0] >= p[1] { p[0] } else { p[1] };
                let m23 = if p[2] >= p[3] { p[2] } else { p[3] };
                let best = if m01 >= m23 { m01 } else { m23 };
                let r = TestResults {
                    player_results: [
                        PlayerResults { total_points: p[0], total_wins: if p[0] == best { 1 } else { 0 } },
                        PlayerResults { total_points: p[1], total_wins: if p[1] == best { 1 } else { 0 } },
                        PlayerResults { total_points: p[2], total_wins: if p[2] == best { 1 } else { 0 } },
                        PlayerResults { total_points: p[3], total_wins: if p[3] == best { 1 } else { 0 } },
                    ],
                    failed_seeds: Vec::new(),
                };
                assert(r@.points =~= outcome_tally(*outcome).points);
                assert(r@.wins =~= outcome_tally(*outcome).wins);
                assert(r@.failed =~= outcome_tally(*outcome).failed);
                r
            },
            RunOutcome::Crash { seed } => {
                let r = TestResults {
                    player_results: [PlayerResults::zero(); 4],
                    failed_seeds: vec![*seed],
                };
                assert(r@.points =~= zeros());
                assert(r@.wins =~= zeros());
                assert(r@.failed =~= seq![*seed]);
                r
            },
        }
    }

    /// Results of the runs of `self` followed by those of `other`.
    pub fn combine(self, other: TestResults) -> (r: TestResults)
        requires
            fits_counters(merge(self@, other@)),
        ensures
            r@ == merge(self@, other@),
    {
        let a = self.player_results;
        let b = other.player_results;
        assert(a@[0].total_points + b@[0].total_points == merge(self@, other@).points[0]);
        assert(a@[1].total_points + b@[1].total_points == merge(self@, other@).points[1]);
        assert(a@[2].total_points + b@[2].total_points == merge(self@, other@).points[2]);
        assert(a@[3].total_points + b@[3].total_points == merge(self@, other@).points[3]);
        assert(a@[0].total_wins + b@[0].total_wins == merge(self@, other@).wins[0]);
        assert(a@[1].total_wins + b@[1].total_wins == merge(self@, other@).wins[1]);
        assert(a@[2].total_wins + b@[2].total_wins == merge(self@, other@).wins[2]);
        assert(a@[3].total_wins + b@[3].total_wins == merge(self@, other@).wins[3]);
        let mut failed_seeds = self.failed_seeds;
        let mut more = other.failed_seeds;
        failed_seeds.append(&mut more);
        let r = TestResults {
            player_results: [
                PlayerResults::sum(a[0], b[0]),
                PlayerResults::sum(a[1], b[1]),
                PlayerResults::sum(a[2], b[2]),
                PlayerResults::sum(a[3], b[3]),
            ],
            failed_seeds,
        };
        assert(r@.points =~= merge(self@, other@).points);
        assert(r@.wins =~= merge(self@, other@).wins);
        r
    }

    /// Whether every total of `self` combined with `other` still fits.
    pub fn can_combine(&self, other: &TestResults) -> (r: bool)
        ensures
            r == fits_counters(merge(self@, other@)),
    {
        let a = self.player_results;
        let b = other.player_results;
        let mut i: usize = 0;
        while i < 4
            invariant
                0 <= i <= 4,
                a == self.player_results,
                b == other.player_results,
                forall|k: int|
                    0 <= k < i ==> merge(self@, other@).points[k] <= u32::MAX && merge(
                        self@,
                        other@,
                    ).wins[k] <= u32::MAX,
            decreases 4 - i,
        {
            assert(merge(self@, other@).points[i as int] == a@[i as int].total_points
                + b@[i as int].total_points);
            assert(merge(self@, other@).wins[i as int] == a@[i as int].total_wins
                + b@[i as int].total_wins);
            if a[i].total_points as u64 + b[i].total_points as u64 > u32::MAX as u64 {
                return false;
            }
            if a[i].total_wins as u64 + b[i].total_wins as u64 > u32::MAX as u64 {
                return false;
            }
            i = i + 1;
        }
        true
    }

    /// Folds every outcome into one set of results; `None` exactly when some
    /// total would not fit its 32-bit counter.
    pub fn aggregate(outcomes: &[RunOutcome]) -> (r: Option<TestResults>)
        ensures
            r is Some <==> fits_counters(tally_of(outcomes@)),
            r is Some ==> r->Some_0@ == tally_of(outcomes@),
    {
        let mut acc = TestResults::empty();
        let mut k: usize = 0;
        while k < outcomes.len()
            invariant
                0 <= k <= outcomes@.len(),
                acc@ == tally_of(outcomes@.take(k as int)),
            decreases outcomes@.len() - k,
        {
            let part = TestResults::from_outcome(&outcomes[k]);
            proof {
                assert(outcomes@.take(k + 1).drop_last() =~= outcomes@.take(k as int));
                assert(outcomes@.take(k + 1).last() == outcomes@[k as int]);
                assert(tally_of(outcomes@.take(k + 1)) == merge(acc@, part@));
            }
            if !acc.can_combine(&part) {
                proof {
                    lemma_tally_prefix_bounded(outcomes@, k + 1);
                    let t = merge(acc@, part@);
                    let i0 = choose|i: int|
                        0 <= i < 4 && !(t.points[i] <= u32::MAX && t.wins[i] <= u32::MAX);
                    assert(tally_of(outcomes@).points[i0] >= t.points[i0]);
                    assert(tally_of(outcomes@).wins[i0] >= t.wins[i0]);
                }
                return None;
            }
            acc = acc.combine(part);
            k = k + 1;
        }
        proof {
            assert(outcomes@.take(k as int) =~= outcomes@);
        }
        Some(acc)
    }
}

proof fn lemma_tally_prefix_bounded(s: Seq<RunOutcome>, n: int)
    requires
        0 <= n <= s.len(),
    ensures
        forall|i: int|
            0 <= i < 4 ==> tally_of(s.take(n)).points[i] <= tally_of(s).points[i]
                && tally_of(s.take(n)).wins[i] <= tally_of(s).wins[i],
    decreases s.len() - n,
{
    if n < s.len() {
        lemma_tally_prefix_bounded(s, n + 1);
        assert(s.take(n + 1).drop_last() =~= s.take(n));
    } else {
        assert(s.take(n) =~= s);
    }
}

proof fn lemma_tally_nonnegative(s: Seq<RunOutcome>)
    ensures
        tally_wf(tally_of(s)),
        forall|i: int| 0 <= i < 4 ==> tally_of(s).points[i] >= 0 && tally_of(s).wins[i] >= 0,
    decreases s.len(),
{
    if s.len() > 0 {
        lemma_tally_nonnegative(s.drop_last());
    }
}

impl Default for RunOutcome {
    /// A normal exit in which every player scored zero.
    fn default() -> (r: RunOutcome)
        ensures
            r matches RunOutcome::Success { points } && forall|k: int|
                0 <= k < 4 ==> #[trigger] points@[k] == 0,
    {
        RunOutcome::Success { points: [0u32, 0, 0, 0] }
    }
}

impl Default for TestResults {
    /// Results of no runs.
    fn default() -> (r: TestResults)
        ensures
            r@ == empty_tally(),
    {
        TestResults::empty()
    }
}

/// Combining is associative: grouping the parts differently gives the same
/// results.
pub proof fn lemma_merge_associative(a: Tally, b: Tally, c: Tally)
    ensures
        merge(merge(a, b), c) == merge(a, merge(b, c)),
{
    assert(merge(merge(a, b), c).points =~= merge(a, merge(b, c)).points);
    assert(merge(merge(a, b), c).wins =~= merge(a, merge(b, c)).wins);
    assert(merge(merge(a, b), c).failed =~= merge(a, merge(b, c)).failed);
}

/// Combining is commutative: the totals are the same either way round and
/// the crashed seeds are the same, each as often.
pub proof fn lemma_merge_commutative(a: Tally, b: Tally)
    ensures
        equivalent(merge(a, b), merge(b, a)),
{
    broadcast use vstd::seq_lib::lemma_seq_union_to_multiset_commutative;

    assert(merge(a, b).points =~= merge(b, a).points);
    assert(merge(a, b).wins =~= merge(b, a).wins);
}

/// The empty results are a two-sided identity of combining.
pub proof fn lemma_merge_identity(t: Tally)
    requires
        tally_wf(t),
    ensures
        merge(empty_tally(), t) == t,
        merge(t, empty_tally()) == t,
{
    assert(merge(empty_tally(), t).points =~= t.points);
    assert(merge(empty_tally(), t).wins =~= t.wins);
    assert(merge(empty_tally(), t).failed =~= t.failed);
    assert(merge(t, empty_tally()).points =~= t.points);
    assert(merge(t, empty_tally()).wins =~= t.wins);
    assert(merge(t, empty_tally()).failed =~= t.failed);
}

/// Reducing two consecutive runs of outcomes separately and combining the
/// two results gives the results of reducing them all at once.
pub proof fn lemma_tally_concat(s1: Seq<RunOutcome>, s2: Seq<RunOutcome>)
    ensures
        tally_of(s1 + s2) == merge(tally_of(s1), tally_of(s2)),
    decreases s2.len(),
{
    lemma_tally_nonnegative(s1);
    if s2.len() == 0 {
        assert(s1 + s2 =~= s1);
        lemma_merge_identity(tally_of(s1));
    } else {
        assert((s1 + s2).drop_last() =~= s1 + s2.drop_last());
        lemma_tally_concat(s1, s2.drop_last());
        lemma_merge_associative(tally_of(s1), tally_of(s2.drop_last()), outcome_tally(s2.last()));
    }
}

/// Results of groups of outcomes, reduced group by group and then combined
/// in the order of the groups.
pub open spec fn reduce_groups(groups: Seq<Seq<RunOutcome>>) -> Tally
    decreases groups.len(),
{
    if groups.len() == 0 {
        empty_tally()
    } else {
        merge(tally_of(groups.first()), reduce_groups(groups.drop_first()))
    }
}

proof fn lemma_reduce_groups_flatten(groups: Seq<Seq<RunOutcome>>)
    ensures
        reduce_groups(groups) == tally_of(groups.flatten()),
    decreases groups.len(),
{
    if groups.len() > 0 {
        lemma_reduce_groups_flatten(groups.drop_first());
        lemma_tally_concat(groups.first(), groups.drop_first().flatten());
    }
}

/// Reordering the outcomes leaves the totals unchanged, and the crashed
/// seeds the same up to order.
pub proof fn lemma_tally_reorder(s1: Seq<RunOutcome>, s2: Seq<RunOutcome>)
    requires
        s1.to_multiset() == s2.to_multiset(),
    ensures
        equivalent(tally_of(s1), tally_of(s2)),
    decreases s1.len(),
{
    broadcast use vstd::seq_lib::to_multiset_build, vstd::seq_lib::to_multiset_remove,
        vstd::seq_lib::to_multiset_len, vstd::seq_lib::to_multiset_contains,
        vstd::seq_lib::lemma_multiset_commutative;
    broadcast use vstd::multiset::group_multiset_axioms;

    if s1.len() == 0 {
        assert(s2.to_multiset().len() == 0);
        assert(s2 =~= s1);
    } else {
        let x = s1.last();
        let rest1 = s1.drop_last();
        assert(rest1.push(x) =~= s1);
        assert(s1.to_multiset().count(x) > 0);
        assert(s2.contains(x));
        let j = choose|j: int| 0 <= j < s2.len() && s2[j] == x;
        let rest2 = s2.remove(j);
        assert(rest2.to_multiset() =~= rest1.to_multiset());
        lemma_tally_reorder(rest1, rest2);
        let a = s2.take(j);
        let b = s2.skip(j + 1);
        let one = seq![x];
        assert(s2 =~= a + (one + b));
        assert(rest2 =~= a + b);
        lemma_tally_concat(a, one + b);
        lemma_tally_concat(one, b);
        lemma_tally_concat(a, b);
        assert(one.drop_last() =~= Seq::<RunOutcome>::empty());
        lemma_tally_nonnegative(a);
        lemma_tally_nonnegative(b);
        let ta = tally_of(a);
        let tb = tally_of(b);
        let tx = outcome_tally(x);
        assert(tally_of(Seq::<RunOutcome>::empty()) == empty_tally());
        assert(one.last() == x);
        assert(tally_of(one) == merge(tally_of(one.drop_last()), tx));
        assert(tally_of(one) == merge(empty_tally(), tx));
        assert(tally_of(s2).points =~= merge(tally_of(rest2), tx).points);
        assert(tally_of(s2).wins =~= merge(tally_of(rest2), tx).wins);
        assert(tally_of(s2).failed =~= ta.failed + ((seq![] + tx.failed) + tb.failed));
        assert(merge(tally_of(rest2), tx).failed =~= (ta.failed + tb.failed) + tx.failed);
        let f1 = tally_of(rest1).failed;
        assert(tally_of(rest2).failed == ta.failed + tb.failed);
        assert(tally_of(s1).failed == f1 + tx.failed);
        assert((f1 + tx.failed).to_multiset() =~= f1.to_multiset().add(tx.failed.to_multiset()));
        assert((ta.failed + (tx.failed + tb.failed)).to_multiset() =~= ta.failed.to_multiset().add(
            tx.failed.to_multiset().add(tb.failed.to_multiset()),
        ));
        assert((ta.failed + tb.failed).to_multiset() =~= ta.failed.to_multiset().add(
            tb.failed.to_multiset(),
        ));
        assert(tally_of(s1).failed.to_multiset() =~= tally_of(s2).failed.to_multiset());
        assert(tally_of(s1).points =~= merge(tally_of(rest2), tx).points);
        assert(tally_of(s1).wins =~= merge(tally_of(rest2), tx).wins);
    }
}

/// However the outcomes are split into groups, and in whatever order the
/// groups hold them, reducing each group and then combining the groups gives
/// the totals of one full reduction and the same crashed seeds.
pub proof fn lemma_any_grouping(outcomes: Seq<RunOutcome>, groups: Seq<Seq<RunOutcome>>)
    requires
        groups.flatten().to_multiset() == outcomes.to_multiset(),
    ensures
        equivalent(reduce_groups(groups), tally_of(outcomes)),
{
    lemma_reduce_groups_flatten(groups);
    lemma_tally_reorder(groups.flatten(), outcomes);
}

} // verus!
