//! Exhaustive search for the fairest division of a roster into two teams.

use crate::chance::{choose_one, coin_flip};
use crate::combos::{
    complement, index_combinations, is_combination, is_enumeration, lemma_enumeration_unique,
    lemma_lex_less_asymmetric, lemma_lex_less_total, lemma_select, lemma_select_agrees,
    lemma_select_partition, lex_less, select, views,
};
use crate::cost::{assess, count_tagged, is_split_of, split_cost, CostModel};
use crate::models::{Player, TeamSplit, UNIT};
use crate::tag::Tag;
use vstd::prelude::*;

verus! {

/// Positions of the goalkeepers of `players`, in roster order.
pub open spec fn keeper_positions(players: Seq<Player>) -> Seq<usize> {
    select(players.len(), |i: int| players[i].is_keeper())
}

/// Positions of the players of `players` who are no goalkeepers, in roster
/// order.
pub open spec fn fielder_positions(players: Seq<Player>) -> Seq<usize> {
    select(players.len(), |i: int| !players[i].is_keeper())
}

/// Every position of `players`, in roster order.
pub open spec fn all_positions(players: Seq<Player>) -> Seq<usize> {
    select(players.len(), |i: int| true)
}

/// Whether the goalkeeper rules place players before the search: they do
/// with exactly one or exactly two goalkeepers on the roster.
pub open spec fn keepers_are_placed(players: Seq<Player>) -> bool {
    keeper_positions(players).len() == 1 || keeper_positions(players).len() == 2
}

/// The positions that the search chooses team A's remaining players from.
pub open spec fn pool(players: Seq<Player>) -> Seq<usize> {
    if keepers_are_placed(players) {
        fielder_positions(players)
    } else {
        all_positions(players)
    }
}

/// The positions placed on team A before the search: the first of two
/// goalkeepers, or a single goalkeeper who goes to team A.
pub open spec fn lead_a(players: Seq<Player>, keeper_on_a: bool) -> Seq<usize> {
    let keepers = keeper_positions(players);
    if keepers.len() == 2 || (keepers.len() == 1 && keeper_on_a) {
        seq![keepers[0]]
    } else {
        Seq::empty()
    }
}

/// The positions placed on team B before the search: the second of two
/// goalkeepers, or a single goalkeeper who goes to team B.
pub open spec fn lead_b(players: Seq<Player>, keeper_on_a: bool) -> Seq<usize> {
    let keepers = keeper_positions(players);
    if keepers.len() == 2 {
        seq![keepers[1]]
    } else if keepers.len() == 1 && !keeper_on_a {
        seq![keepers[0]]
    } else {
        Seq::empty()
    }
}

/// How many players the search chooses for team A: what is missing to half
/// the roster, rounded down.
pub open spec fn take(players: Seq<Player>, keeper_on_a: bool) -> nat {
    (players.len() / 2 - lead_a(players, keeper_on_a).len()) as nat
}

/// The entries of `from` at the places that `c` lists.
pub open spec fn pick(from: Seq<usize>, c: Seq<usize>) -> Seq<usize> {
    Seq::new(c.len(), |i: int| from[c[i] as int])
}

/// The players at the positions `at`.
pub open spec fn gather(players: Seq<Player>, at: Seq<usize>) -> Seq<Player> {
    Seq::new(at.len(), |i: int| players[at[i] as int])
}

/// Whether `c` is one of the choices that the search goes through.
pub open spec fn is_choice(players: Seq<Player>, keeper_on_a: bool, c: Seq<usize>) -> bool {
    is_combination(c, pool(players).len(), take(players, keeper_on_a))
}

/// The roster positions of team A under the choice `c`: those placed on it,
/// then the chosen.
pub open spec fn positions_a(players: Seq<Player>, keeper_on_a: bool, c: Seq<usize>) -> Seq<usize> {
    lead_a(players, keeper_on_a) + pick(pool(players), c)
}

/// The roster positions of team B under the choice `c`: those placed on it,
/// then everyone of the pool who was not chosen.
pub open spec fn positions_b(players: Seq<Player>, keeper_on_a: bool, c: Seq<usize>) -> Seq<usize> {
    lead_b(players, keeper_on_a) + pick(pool(players), complement(c, pool(players).len()))
}

/// Team A under the choice `c`.
pub open spec fn team_a_at(players: Seq<Player>, keeper_on_a: bool, c: Seq<usize>) -> Seq<Player> {
    gather(players, positions_a(players, keeper_on_a, c))
}

/// Team B under the choice `c`.
pub open spec fn team_b_at(players: Seq<Player>, keeper_on_a: bool, c: Seq<usize>) -> Seq<Player> {
    gather(players, positions_b(players, keeper_on_a, c))
}

/// Cost of the split that the choice `c` makes.
pub open spec fn choice_cost(
    players: Seq<Player>,
    model: CostModel,
    keeper_on_a: bool,
    c: Seq<usize>,
) -> int {
    split_cost(model, team_a_at(players, keeper_on_a, c), team_b_at(players, keeper_on_a, c))
}

/// The positions of `players` whose goalkeeper flag equals `keepers`.
fn positions(flags: &Vec<bool>, keepers: bool) -> (r: Vec<usize>)
    ensures
        r@ == select(flags.len() as nat, |i: int| flags@[i] == keepers),
{
    let n: usize = flags.len();
    let mut r: Vec<usize> = Vec::new();
    let mut i: usize = 0;
    while i < n
        invariant
            i <= n == flags.len(),
            r@ == select(i as nat, |j: int| flags@[j] == keepers),
        decreases n - i,
    {
        if flags[i] == keepers {
            r.push(i);
        }
        i += 1;
    }
    r
}

/// For each player, whether the player is tagged as a goalkeeper.
fn keeper_flags(players: &[Player]) -> (r: Vec<bool>)
    ensures
        r.len() == players.len(),
        forall|i: int| 0 <= i < r.len() ==> r@[i] == players@[i].is_keeper(),
{
    let n: usize = players.len();
    let mut r: Vec<bool> = Vec::new();
    let mut i: usize = 0;
    while i < n
        invariant
            i <= n == players.len(),
            r.len() == i,
            forall|j: int| 0 <= j < i ==> r@[j] == players@[j].is_keeper(),
        decreases n - i,
    {
        r.push(players[i].has_tag(Tag::Gk));
        i += 1;
    }
    r
}

/// The positions below `n` that the choice `c` leaves out.
fn complement_of(c: &Vec<usize>, n: usize) -> (r: Vec<usize>)
    requires
        is_combination(c@, n as nat, c.len() as nat),
    ensures
        r@ == complement(c@, n as nat),
        r.len() == n - c.len(),
{
    let k: usize = c.len();
    let mut r: Vec<usize> = Vec::new();
    let mut i: usize = 0;
    let mut j: usize = 0;
    let ghost keep = |p: int| !c@.contains(p as usize);
    while i < n
        invariant
            i <= n,
            j <= k == c.len(),
            is_combination(c@, n as nat, k as nat),
            keep == |p: int| !c@.contains(p as usize),
            r@ == select(i as nat, keep),
            r.len() + j == i,
            forall|q: int| 0 <= q < j ==> c@[q] < i,
            forall|q: int| j <= q < k ==> c@[q] >= i,
        decreases n - i,
    {
        if j < k && c[j] == i {
            assert(c@.contains(i));
            assert(!keep(i as int));
            j += 1;
        } else {
            assert(!c@.contains(i)) by {
                if c@.contains(i) {
                    let q = choose|q: int| 0 <= q < c@.len() && c@[q] == i;
                    if q > j {
                        assert(c@[j as int] < c@[q]);
                    }
                }
            }
            assert(keep(i as int));
            r.push(i);
        }
        i += 1;
    }
    assert(j == k) by {
        if j < k {
            assert(c@[j as int] < n);
        }
    }
    r
}

/// Gathering positions one after another gathers the players one after
/// another.
pub proof fn lemma_gather_concat(players: Seq<Player>, x: Seq<usize>, y: Seq<usize>)
    ensures
        gather(players, x + y) == gather(players, x) + gather(players, y),
{
    assert(gather(players, x + y) =~= gather(players, x) + gather(players, y));
}

/// Head counts add up over teams put one after another.
pub proof fn lemma_count_concat(x: Seq<Player>, y: Seq<Player>, tag: Tag)
    ensures
        count_tagged(x + y, tag) == count_tagged(x, tag) + count_tagged(y, tag),
    decreases y.len(),
{
    if y.len() == 0 {
        assert(x + y =~= x);
    } else {
        assert((x + y).drop_last() =~= x + y.drop_last());
        assert((x + y).last() == y.last());
        lemma_count_concat(x, y.drop_last(), tag);
    }
}

/// A team on which nobody carries `tag` counts none.
pub proof fn lemma_count_none(team: Seq<Player>, tag: Tag)
    requires
        forall|i: int| 0 <= i < team.len() ==> !(#[trigger] team[i]).tag_seq().contains(tag),
    ensures
        count_tagged(team, tag) == 0,
    decreases team.len(),
{
    if team.len() > 0 {
        let before = team.drop_last();
        assert forall|i: int| 0 <= i < before.len() implies !(#[trigger] before[i]).tag_seq().contains(
            tag,
        ) by {
            assert(before[i] == team[i]);
        }
        lemma_count_none(before, tag);
    }
}

/// How the search is laid out for one roster: who is placed beforehand, whom
/// the search chooses from, and how many it chooses.
struct Plan {
    pool: Vec<usize>,
    lead_a: Vec<usize>,
    lead_b: Vec<usize>,
    take: usize,
}

impl Plan {
    /// Whether the plan is the layout for `players`.
    spec fn fits(self, players: Seq<Player>, keeper_on_a: bool) -> bool {
        &&& self.pool@ == pool(players)
        &&& self.lead_a@ == lead_a(players, keeper_on_a)
        &&& self.lead_b@ == lead_b(players, keeper_on_a)
        &&& self.take == take(players, keeper_on_a)
    }

    /// Whether every position of the plan lies on the roster and the team
    /// sizes come out as half the roster, rounded down, and the rest.
    spec fn is_sound(self, players: Seq<Player>) -> bool {
        &&& forall|i: int| 0 <= i < self.pool@.len() ==> #[trigger] self.pool@[i] < players.len()
        &&& forall|i: int| 0 <= i < self.lead_a@.len() ==> #[trigger] self.lead_a@[i] < players.len()
        &&& forall|i: int| 0 <= i < self.lead_b@.len() ==> #[trigger] self.lead_b@[i] < players.len()
        &&& self.take <= self.pool@.len()
        &&& self.lead_a@.len() + self.take == players.len() / 2
        &&& self.lead_b@.len() + self.pool@.len() - self.take == players.len() - players.len() / 2
        &&& keeper_positions(players).len() == 2 ==> {
            &&& self.lead_a@.len() == 1
            &&& self.lead_b@.len() == 1
            &&& players[self.lead_a@[0] as int].is_keeper()
            &&& players[self.lead_b@[0] as int].is_keeper()
            &&& forall|i: int|
                0 <= i < self.pool@.len() ==> !players[#[trigger] self.pool@[i] as int].is_keeper()
        }
    }
}

/// Every position below `n`, in increasing order.
fn every_position(n: usize) -> (r: Vec<usize>)
    ensures
        r@ == select(n as nat, |i: int| true),
        r.len() == n,
        forall|i: int| 0 <= i < n ==> r@[i] == i,
{
    let mut r: Vec<usize> = Vec::new();
    let mut i: usize = 0;
    while i < n
        invariant
            i <= n,
            r@ == select(i as nat, |j: int| true),
            r.len() == i,
            forall|j: int| 0 <= j < i ==> r@[j] == j,
        decreases n - i,
    {
        r.push(i);
        i += 1;
    }
    r
}

/// Lays out the search for a roster of at least two players.
fn make_plan(players: &[Player], keeper_on_a: bool) -> (p: Plan)
    requires
        players.len() >= 2,
    ensures
        p.fits(players@, keeper_on_a),
        p.is_sound(players@),
{
    let n: usize = players.len();
    let half: usize = n / 2;
    let flags = keeper_flags(players);
    let keepers = positions(&flags, true);
    let fielders = positions(&flags, false);
    proof {
        let is_k = |i: int| players@[i].is_keeper();
        let not_k = |i: int| !players@[i].is_keeper();
        let flag_k = |i: int| flags@[i] == true;
        let flag_f = |i: int| flags@[i] == false;
        assert forall|i: int| 0 <= i < n implies #[trigger] flag_k(i) == is_k(i) by {}
        assert forall|i: int| 0 <= i < n implies #[trigger] flag_f(i) == not_k(i) by {}
        assert forall|i: int| 0 <= i < n implies #[trigger] is_k(i) != not_k(i) by {}
        lemma_select_agrees(n as nat, flag_k, is_k);
        lemma_select_agrees(n as nat, flag_f, not_k);
        lemma_select_partition(n as nat, is_k, not_k);
        lemma_select(n as nat, is_k);
        lemma_select(n as nat, not_k);
        assert(keepers@ == keeper_positions(players@));
        assert(fielders@ == fielder_positions(players@));
    }
    if keepers.len() == 2 {
        let first: usize = keepers[0];
        let second: usize = keepers[1];
        let p = Plan { pool: fielders, lead_a: vec![first], lead_b: vec![second], take: half - 1 };
        proof {
            assert(p.lead_a@ =~= seq![keepers@[0]]);
            assert(p.lead_b@ =~= seq![keepers@[1]]);
        }
        p
    } else if keepers.len() == 1 {
        let only: usize = keepers[0];
        if keeper_on_a {
            let p = Plan { pool: fielders, lead_a: vec![only], lead_b: Vec::new(), take: half - 1 };
            proof {
                assert(p.lead_a@ =~= seq![keepers@[0]]);
                assert(p.lead_b@ =~= Seq::<usize>::empty());
            }
            p
        } else {
            let p = Plan { pool: fielders, lead_a: Vec::new(), lead_b: vec![only], take: half };
            proof {
                assert(p.lead_a@ =~= Seq::<usize>::empty());
                assert(p.lead_b@ =~= seq![keepers@[0]]);
            }
            p
        }
    } else {
        let p = Plan { pool: every_position(n), lead_a: Vec::new(), lead_b: Vec::new(), take: half };
        proof {
            assert(p.lead_a@ =~= Seq::<usize>::empty());
            assert(p.lead_b@ =~= Seq::<usize>::empty());
        }
        p
    }
}

/// The players at the positions `lead`, then those at the places of `from`
/// that `chosen` lists.
fn build_team(players: &[Player], lead: &Vec<usize>, from: &Vec<usize>, chosen: &Vec<usize>) -> (r:
    Vec<Player>)
    requires
        forall|i: int| 0 <= i < lead@.len() ==> #[trigger] lead@[i] < players.len(),
        forall|i: int| 0 <= i < from@.len() ==> #[trigger] from@[i] < players.len(),
        forall|i: int| 0 <= i < chosen@.len() ==> #[trigger] chosen@[i] < from@.len(),
    ensures
        r@ == gather(players@, lead@ + pick(from@, chosen@)),
{
    let ghost at = lead@ + pick(from@, chosen@);
    let mut r: Vec<Player> = Vec::new();
    let mut i: usize = 0;
    while i < lead.len()
        invariant
            i <= lead.len(),
            at == lead@ + pick(from@, chosen@),
            forall|j: int| 0 <= j < lead@.len() ==> #[trigger] lead@[j] < players.len(),
            r@ == gather(players@, at.take(i as int)),
        decreases lead.len() - i,
    {
        r.push(players[lead[i]].clone());
        assert(gather(players@, at.take(i + 1)) =~= gather(players@, at.take(i as int)).push(
            players@[lead@[i as int] as int],
        ));
        i += 1;
    }
    let base: usize = lead.len();
    let mut j: usize = 0;
    while j < chosen.len()
        invariant
            j <= chosen.len(),
            base == lead.len(),
            at == lead@ + pick(from@, chosen@),
            forall|q: int| 0 <= q < from@.len() ==> #[trigger] from@[q] < players.len(),
            forall|q: int| 0 <= q < chosen@.len() ==> #[trigger] chosen@[q] < from@.len(),
            r@ == gather(players@, at.take(base + j)),
        decreases chosen.len() - j,
    {
        let place: usize = chosen[j];
        r.push(players[from[place]].clone());
        assert(at[base + j] == from@[chosen@[j as int] as int]);
        assert(gather(players@, at.take(base + j + 1)) =~= gather(players@, at.take(base + j)).push(
            players@[from@[place as int] as int],
        ));
        j += 1;
    }
    assert(at.take(base + j) =~= at);
    r
}

/// A goalkeeper followed by players who are none makes a team with exactly
/// one goalkeeper.
pub proof fn lemma_one_keeper(
    players: Seq<Player>,
    lead: Seq<usize>,
    from: Seq<usize>,
    chosen: Seq<usize>,
)
    requires
        lead.len() == 1,
        lead[0] < players.len(),
        players[lead[0] as int].is_keeper(),
        forall|i: int| 0 <= i < from.len() ==> #[trigger] from[i] < players.len(),
        forall|i: int| 0 <= i < from.len() ==> !players[#[trigger] from[i] as int].is_keeper(),
        forall|i: int| 0 <= i < chosen.len() ==> #[trigger] chosen[i] < from.len(),
    ensures
        count_tagged(gather(players, lead + pick(from, chosen)), Tag::Gk) == 1,
{
    let front = gather(players, lead);
    let back = gather(players, pick(from, chosen));
    lemma_gather_concat(players, lead, pick(from, chosen));
    lemma_count_concat(front, back, Tag::Gk);
    assert forall|i: int| 0 <= i < back.len() implies !(#[trigger] back[i]).tag_seq().contains(
        Tag::Gk,
    ) by {
        assert(chosen[i] < from.len());
        assert(back[i] == players[from[chosen[i] as int] as int]);
    }
    lemma_count_none(back, Tag::Gk);
    assert(front.drop_last() =~= Seq::<Player>::empty());
    assert(front.last() == players[lead[0] as int]);
    assert(count_tagged(front.drop_last(), Tag::Gk) == 0);
    assert(count_tagged(front, Tag::Gk) == 1);
    assert(gather(players, lead + pick(from, chosen)) == front + back);
}

/// Choosing no more positions than there are can be done in at least one way.
pub proof fn lemma_enumeration_nonempty(cs: Seq<Seq<usize>>, n: nat, k: nat)
    requires
        is_enumeration(cs, n, k),
        k <= n <= usize::MAX,
    ensures
        cs.len() > 0,
{
    let first = Seq::new(k, |i: int| i as usize);
    assert(is_combination(first, n, k));
}

/// Whether the teams of `s` have the sizes and the goalkeepers that every
/// split of `players` has: team A holds half the roster, rounded down, team B
/// the rest, and two goalkeepers stand on opposite teams.
pub open spec fn has_shape(players: Seq<Player>, s: TeamSplit) -> bool {
    &&& s.team_a@.len() == players.len() / 2
    &&& s.team_b@.len() == players.len() - players.len() / 2
    &&& keeper_positions(players).len() == 2 ==> {
        &&& count_tagged(s.team_a@, Tag::Gk) == 1
        &&& count_tagged(s.team_b@, Tag::Gk) == 1
    }
}

/// Whether `all` holds, for each choice of `cs` in turn, the split that the
/// choice makes of `players`, and `cs` lists every choice of the search in
/// lexicographic order.
pub open spec fn lists_choices(
    all: Seq<TeamSplit>,
    cs: Seq<Seq<usize>>,
    players: Seq<Player>,
    model: CostModel,
    keeper_on_a: bool,
) -> bool {
    &&& is_enumeration(cs, pool(players).len(), take(players, keeper_on_a))
    &&& all.len() == cs.len()
    &&& forall|i: int|
        0 <= i < all.len() ==> is_split_of(
            #[trigger] all[i],
            model,
            team_a_at(players, keeper_on_a, cs[i]),
            team_b_at(players, keeper_on_a, cs[i]),
        )
}

/// Whether `all` holds every candidate split of `players`, in search order.
pub open spec fn is_search(
    all: Seq<TeamSplit>,
    players: Seq<Player>,
    model: CostModel,
    keeper_on_a: bool,
) -> bool {
    exists|cs: Seq<Seq<usize>>| lists_choices(all, cs, players, model, keeper_on_a)
}

/// Every candidate split of a roster, in search order.
///
/// With exactly two goalkeepers, the first stands on team A and the second on
/// team B. With exactly one, the goalkeeper stands on team A if `keeper_on_a`
/// and on team B if not. The search then fills team A up to half the roster,
/// rounded down, from the remaining players in every possible way; team B
/// gets everyone else. The ways come in lexicographic order of the chosen
/// players' places. A roster of fewer than two players has no candidates.
///
/// Two goalkeepers never leave too few other players to fill both teams:
/// half the roster, rounded down, less the goalkeeper is at most half of
/// the others. So the goalkeeper rule applies whenever it can.
pub fn enumerate_splits(players: &[Player], model: CostModel, keeper_on_a: bool) -> (all: Vec<
    TeamSplit,
>)
    ensures
        players.len() < 2 ==> all.len() == 0,
        players.len() >= 2 ==> all.len() > 0 && is_search(all@, players@, model, keeper_on_a),
        forall|i: int| 0 <= i < all.len() ==> has_shape(players@, #[trigger] all@[i]),
{
    let n: usize = players.len();
    let mut all: Vec<TeamSplit> = Vec::new();
    if n < 2 {
        return all;
    }
    let plan = make_plan(players, keeper_on_a);
    let width: usize = plan.pool.len();
    let combos = index_combinations(width, plan.take);
    let ghost cs = views(combos@);
    let mut i: usize = 0;
    while i < combos.len()
        invariant
            i <= combos.len(),
            n == players.len(),
            n >= 2,
            width == plan.pool.len(),
            plan.fits(players@, keeper_on_a),
            plan.is_sound(players@),
            cs == views(combos@),
            is_enumeration(cs, width as nat, plan.take as nat),
            all.len() == i,
            forall|j: int|
                0 <= j < i ==> is_split_of(
                    #[trigger] all@[j],
                    model,
                    team_a_at(players@, keeper_on_a, cs[j]),
                    team_b_at(players@, keeper_on_a, cs[j]),
                ),
            forall|j: int| 0 <= j < i ==> has_shape(players@, #[trigger] all@[j]),
        decreases combos.len() - i,
    {
        let c = &combos[i];
        assert(c@ == cs[i as int]);
        assert(is_combination(cs[i as int], width as nat, plan.take as nat));
        let rest = complement_of(c, width);
        proof {
            lemma_select(width as nat, |p: int| !c@.contains(p as usize));
        }
        let team_a = build_team(players, &plan.lead_a, &plan.pool, c);
        let team_b = build_team(players, &plan.lead_b, &plan.pool, &rest);
        proof {
            if keeper_positions(players@).len() == 2 {
                lemma_one_keeper(players@, plan.lead_a@, plan.pool@, c@);
                lemma_one_keeper(players@, plan.lead_b@, plan.pool@, rest@);
            }
        }
        let split = assess(team_a, team_b, model);
        all.push(split);
        i += 1;
    }
    proof {
        lemma_enumeration_nonempty(cs, width as nat, plan.take as nat);
        assert(lists_choices(all@, cs, players@, model, keeper_on_a));
    }
    all
}

/// Whether `cost` is near enough to `best` to count as near-optimal: at most
/// a tenth above it, plus one point.
pub open spec fn within_tolerance(cost: int, best: int) -> bool {
    10 * cost <= 11 * best + 10 * UNIT
}

/// Whether `all[i]` is the first split of least cost.
pub open spec fn is_first_min(all: Seq<TeamSplit>, i: int) -> bool {
    &&& 0 <= i < all.len()
    &&& forall|j: int| 0 <= j < all.len() ==> all[i].cost <= (#[trigger] all[j]).cost
    &&& forall|j: int| 0 <= j < i ==> all[i].cost < (#[trigger] all[j]).cost
}

/// Whether `all[i]` is near-optimal among `all`.
pub open spec fn is_near_min(all: Seq<TeamSplit>, i: int) -> bool {
    &&& 0 <= i < all.len()
    &&& forall|j: int|
        0 <= j < all.len() ==> within_tolerance(all[i].cost as int, (#[trigger] all[j]).cost as int)
}

/// The place that a draw settles on: the drawn place if it is a place of a
/// near-optimal split, the place `best` otherwise.
pub open spec fn settled_place(all: Seq<TeamSplit>, best: int, draw: Option<usize>) -> int {
    match draw {
        Some(d) => if d < all.len() && within_tolerance(all[d as int].cost as int, all[best].cost as int) {
            d as int
        } else {
            best
        },
        None => best,
    }
}

/// Whether `cost` is near enough to `best` to count as near-optimal.
pub fn is_within_tolerance(cost: u128, best: u128) -> (r: bool)
    ensures
        r == within_tolerance(cost as int, best as int),
{
    if cost <= best {
        true
    } else {
        let over: u128 = cost - best;
        if over <= UNIT as u128 {
            true
        } else {
            over - UNIT as u128 <= best / 10
        }
    }
}

/// The place of the first split of least cost, if there is any split.
pub fn best_index(all: &Vec<TeamSplit>) -> (r: Option<usize>)
    ensures
        all.len() == 0 <==> r is None,
        r matches Some(i) ==> is_first_min(all@, i as int),
{
    if all.len() == 0 {
        return None;
    }
    let mut best: usize = 0;
    let mut i: usize = 1;
    while i < all.len()
        invariant
            1 <= i <= all.len(),
            best < i,
            forall|j: int| 0 <= j < i ==> all@[best as int].cost <= (#[trigger] all@[j]).cost,
            forall|j: int| 0 <= j < best ==> all@[best as int].cost < (#[trigger] all@[j]).cost,
        decreases all.len() - i,
    {
        if all[i].cost < all[best].cost {
            best = i;
        }
        i += 1;
    }
    Some(best)
}

/// The places of the splits that are near-optimal against `best_cost`, in
/// increasing order.
pub fn near_optimal(all: &Vec<TeamSplit>, best_cost: u128) -> (good: Vec<usize>)
    ensures
        good@ == select(
            all.len() as nat,
            |j: int| within_tolerance(all@[j].cost as int, best_cost as int),
        ),
{
    let mut good: Vec<usize> = Vec::new();
    let mut i: usize = 0;
    while i < all.len()
        invariant
            i <= all.len(),
            good@ == select(i as nat, |j: int| within_tolerance(all@[j].cost as int, best_cost as int)),
        decreases all.len() - i,
    {
        if is_within_tolerance(all[i].cost, best_cost) {
            good.push(i);
        }
        i += 1;
    }
    good
}

/// The split that a draw settles on, out of `all`.
///
/// Without a draw that is the first split of least cost. A draw names a
/// place in `all`; it is honoured if a near-optimal split stands there, and
/// otherwise the first split of least cost is returned all the same.
pub fn pick_split_at(all: Vec<TeamSplit>, draw: Option<usize>) -> (r: Option<TeamSplit>)
    ensures
        all.len() == 0 <==> r is None,
        r matches Some(s) ==> exists|best: int|
            #[trigger] is_first_min(all@, best) && s == all@[settled_place(all@, best, draw)],
{
    let mut all = all;
    let best: usize = match best_index(&all) {
        None => {
            return None;
        },
        Some(b) => b,
    };
    let ghost before = all@;
    let place: usize = match draw {
        Some(d) => if d < all.len() && is_within_tolerance(all[d].cost, all[best].cost) {
            d
        } else {
            best
        },
        None => best,
    };
    assert(place == settled_place(before, best as int, draw));
    let s = all.swap_remove(place);
    assert(is_first_min(before, best as int));
    Some(s)
}

/// Whether `s` is a split that may be picked out of `all`: a near-optimal
/// one, and without randomizing the first of least cost.
pub open spec fn is_pick(all: Seq<TeamSplit>, randomize: bool, s: TeamSplit) -> bool {
    exists|i: int|
        #![trigger all[i]]
        {
            &&& is_near_min(all, i)
            &&& !randomize ==> is_first_min(all, i)
            &&& s == all[i]
        }
}

/// Picks the split to play out of all candidates.
///
/// Without randomizing this is the first split of least cost. With it, one
/// split is drawn at random among those that are near-optimal: whose cost is
/// at most a tenth above the least cost, plus one point.
pub fn pick_split(all: Vec<TeamSplit>, randomize: bool) -> (r: Option<TeamSplit>)
    ensures
        all.len() == 0 <==> r is None,
        r matches Some(s) ==> is_pick(all@, randomize, s),
{
    let best: usize = match best_index(&all) {
        None => {
            return None;
        },
        Some(b) => b,
    };
    let draw: Option<usize> = if randomize {
        let good = near_optimal(&all, all[best].cost);
        choose_one(&good)
    } else {
        None
    };
    let ghost before = all@;
    let r = pick_split_at(all, draw);
    proof {
        let s = r.unwrap();
        let b = choose|b: int|
            #[trigger] is_first_min(before, b) && s == before[settled_place(before, b, draw)];
        let place = settled_place(before, b, draw);
        assert(before[b].cost == before[best as int].cost);
        if place != b {
            assert forall|j: int| 0 <= j < before.len() implies within_tolerance(
                before[place].cost as int,
                (#[trigger] before[j]).cost as int,
            ) by {
                assert(before[b].cost <= before[j].cost);
            }
            assert(randomize);
        }
        assert(is_near_min(before, place));
        assert(s == before[place]);
    }
    r
}

/// Whether `cost` is near-optimal among the candidates of one search: it
/// exceeds the cost of no candidate by more than a tenth plus one point.
pub open spec fn is_near_best(
    players: Seq<Player>,
    model: CostModel,
    keeper_on_a: bool,
    cost: int,
) -> bool {
    forall|d: Seq<usize>| #[trigger]
        is_choice(players, keeper_on_a, d) ==> within_tolerance(
            cost,
            choice_cost(players, model, keeper_on_a, d),
        )
}

/// Whether the choice `c`, with a single goalkeeper on team A if
/// `keeper_on_a`, makes the split `s` and is a choice that balancing may
/// return.
///
/// Every returned choice is near-optimal among the choices of the same
/// search. Without randomizing a single goalkeeper stands on team A, no
/// choice is cheaper, and every choice that the search meets earlier costs
/// strictly more.
pub open spec fn is_outcome(
    players: Seq<Player>,
    model: CostModel,
    randomize: bool,
    keeper_on_a: bool,
    c: Seq<usize>,
    s: TeamSplit,
) -> bool {
    &&& keeper_on_a || (randomize && keeper_positions(players).len() == 1)
    &&& is_choice(players, keeper_on_a, c)
    &&& is_split_of(
        s,
        model,
        team_a_at(players, keeper_on_a, c),
        team_b_at(players, keeper_on_a, c),
    )
    &&& is_near_best(players, model, keeper_on_a, choice_cost(players, model, keeper_on_a, c))
    &&& !randomize ==> forall|d: Seq<usize>| #[trigger]
        is_choice(players, keeper_on_a, d) ==> {
            &&& choice_cost(players, model, keeper_on_a, c) <= choice_cost(
                players,
                model,
                keeper_on_a,
                d,
            )
            &&& lex_less(d, c) ==> choice_cost(players, model, keeper_on_a, c) < choice_cost(
                players,
                model,
                keeper_on_a,
                d,
            )
        }
}

/// Whether `s` is a split that balancing `players` may return.
pub open spec fn is_balanced(
    players: Seq<Player>,
    model: CostModel,
    randomize: bool,
    s: TeamSplit,
) -> bool {
    exists|keeper_on_a: bool, c: Seq<usize>| #[trigger]
        is_outcome(players, model, randomize, keeper_on_a, c, s)
}

/// A pick out of a search is an outcome of balancing.
pub proof fn lemma_pick_is_outcome(
    players: Seq<Player>,
    model: CostModel,
    randomize: bool,
    keeper_on_a: bool,
    all: Seq<TeamSplit>,
    s: TeamSplit,
)
    requires
        keeper_on_a || (randomize && keeper_positions(players).len() == 1),
        is_search(all, players, model, keeper_on_a),
        is_pick(all, randomize, s),
    ensures
        is_balanced(players, model, randomize, s),
{
    let cs = choose|cs: Seq<Seq<usize>>| lists_choices(all, cs, players, model, keeper_on_a);
    let i = choose|i: int|
        #![trigger all[i]]
        {
            &&& is_near_min(all, i)
            &&& !randomize ==> is_first_min(all, i)
            &&& s == all[i]
        };
    let c = cs[i];
    assert(is_choice(players, keeper_on_a, c));
    assert(all[i].cost == choice_cost(players, model, keeper_on_a, c));
    assert forall|d: Seq<usize>| #[trigger] is_choice(players, keeper_on_a, d) implies {
        &&& within_tolerance(
            choice_cost(players, model, keeper_on_a, c),
            choice_cost(players, model, keeper_on_a, d),
        )
        &&& !randomize ==> {
            &&& choice_cost(players, model, keeper_on_a, c) <= choice_cost(
                players,
                model,
                keeper_on_a,
                d,
            )
            &&& lex_less(d, c) ==> choice_cost(players, model, keeper_on_a, c) < choice_cost(
                players,
                model,
                keeper_on_a,
                d,
            )
        }
    } by {
        let j = choose|j: int| 0 <= j < cs.len() && #[trigger] cs[j] == d;
        assert(all[j].cost == choice_cost(players, model, keeper_on_a, d));
        if !randomize && lex_less(d, c) {
            lemma_lex_less_asymmetric(d, c);
            if j > i {
                assert(lex_less(cs[i], cs[j]));
            }
            assert(j < i);
        }
    }
    assert(is_outcome(players, model, randomize, keeper_on_a, c, s));
}

/// How many players of the roster are tagged as goalkeepers.
pub fn count_keepers(players: &[Player]) -> (k: usize)
    ensures
        k == keeper_positions(players@).len(),
{
    let flags = keeper_flags(players);
    let keepers = positions(&flags, true);
    proof {
        let is_k = |i: int| players@[i].is_keeper();
        let flag_k = |i: int| flags@[i] == true;
        assert forall|i: int| 0 <= i < players.len() implies #[trigger] flag_k(i) == is_k(i) by {}
        lemma_select_agrees(players.len() as nat, flag_k, is_k);
    }
    keepers.len()
}

/// Divides a roster into two teams that are as fair as `model` can tell.
///
/// Fewer than two players cannot be divided: the result is `None`, and in no
/// other case. Otherwise the search goes through every candidate split (see
/// [`enumerate_splits`]) and returns the first of least cost. With
/// `randomize`, a single goalkeeper goes to either team on the toss of a
/// coin, and the result is drawn at random among the near-optimal candidates.
pub fn balance_teams_by(players: &[Player], randomize: bool, model: CostModel) -> (r: Option<
    TeamSplit,
>)
    ensures
        players.len() < 2 <==> r is None,
        r matches Some(s) ==> has_shape(players@, s) && is_balanced(players@, model, randomize, s),
{
    if players.len() < 2 {
        return None;
    }
    let keeper_on_a: bool = if randomize && count_keepers(players) == 1 {
        coin_flip()
    } else {
        true
    };
    let all = enumerate_splits(players, model, keeper_on_a);
    let ghost candidates = all@;
    let r = pick_split(all, randomize);
    proof {
        lemma_pick_is_outcome(players@, model, randomize, keeper_on_a, candidates, r.unwrap());
    }
    r
}

/// Divides a roster into two fair teams, pricing tag imbalance by the
/// teams' summed tag values.
///
/// See [`balance_teams_by`], of which this is the case
/// [`CostModel::TagValues`].
pub fn balance_teams(players: &[Player], randomize: bool) -> (r: Option<TeamSplit>)
    ensures
        players.len() < 2 <==> r is None,
        r matches Some(s) ==> has_shape(players@, s) && is_balanced(
            players@,
            CostModel::TagValues,
            randomize,
            s,
        ),
{
    balance_teams_by(players, randomize, CostModel::TagValues)
}

/// Whether `s` is the split that the draw `draw` settles on among the
/// candidates `all`: the split at the drawn place if a near-optimal split
/// stands there, the first split of least cost otherwise.
pub open spec fn is_settled(all: Seq<TeamSplit>, draw: Option<usize>, s: TeamSplit) -> bool {
    exists|best: int| #[trigger] is_first_min(all, best) && s == all[settled_place(all, best, draw)]
}

/// Divides a roster into two teams with the chance taken out: a single
/// goalkeeper goes to team A if `keeper_on_a` and to team B if not, and
/// `draw` says which candidate is to be returned.
///
/// The candidates are those of [`enumerate_splits`]. Without a draw the
/// first of least cost is returned. A draw names a place in the search
/// order; it is honoured if a near-optimal candidate stands there, and
/// otherwise the first of least cost is returned all the same. Fewer than
/// two players cannot be divided: the result is `None`, and in no other
/// case.
pub fn balance_teams_with(
    players: &[Player],
    model: CostModel,
    keeper_on_a: bool,
    draw: Option<usize>,
) -> (r: Option<TeamSplit>)
    ensures
        players.len() < 2 <==> r is None,
        r matches Some(s) ==> has_shape(players@, s) && exists|all: Seq<TeamSplit>|
            #![trigger is_search(all, players@, model, keeper_on_a)]
            is_search(all, players@, model, keeper_on_a) && is_settled(all, draw, s),
{
    let all = enumerate_splits(players, model, keeper_on_a);
    let ghost candidates = all@;
    let r = pick_split_at(all, draw);
    proof {
        if r is Some {
            let s = r.unwrap();
            let best = choose|best: int|
                #[trigger] is_first_min(candidates, best) && s == candidates[settled_place(
                    candidates,
                    best,
                    draw,
                )];
            assert(has_shape(players@, candidates[settled_place(candidates, best, draw)]));
            assert(is_search(candidates, players@, model, keeper_on_a) && is_settled(
                candidates,
                draw,
                s,
            ));
        }
    }
    r
}

/// Two searches over one roster list the same candidates in the same
/// order: the same teams, player for player, with the same figures.
pub proof fn lemma_search_is_unique(
    first: Seq<TeamSplit>,
    second: Seq<TeamSplit>,
    players: Seq<Player>,
    model: CostModel,
    keeper_on_a: bool,
)
    requires
        is_search(first, players, model, keeper_on_a),
        is_search(second, players, model, keeper_on_a),
    ensures
        first.len() == second.len(),
        forall|i: int|
            0 <= i < first.len() ==> {
                &&& (#[trigger] first[i]).team_a@ == second[i].team_a@
                &&& first[i].team_b@ == second[i].team_b@
                &&& first[i].cost == second[i].cost
                &&& first[i].elo_diff == second[i].elo_diff
                &&& first[i].tag_value_a == second[i].tag_value_a
                &&& first[i].tag_value_b == second[i].tag_value_b
            },
{
    let xs = choose|cs: Seq<Seq<usize>>| lists_choices(first, cs, players, model, keeper_on_a);
    let ys = choose|cs: Seq<Seq<usize>>| lists_choices(second, cs, players, model, keeper_on_a);
    lemma_enumeration_unique(xs, ys, pool(players).len(), take(players, keeper_on_a));
}

/// However the chance falls, balancing returns a near-optimal split: its
/// cost exceeds the cost of no candidate of the same search by more than a
/// tenth plus one point.
pub proof fn lemma_balanced_is_near_optimal(
    players: Seq<Player>,
    model: CostModel,
    randomize: bool,
    s: TeamSplit,
)
    requires
        is_balanced(players, model, randomize, s),
    ensures
        exists|keeper_on_a: bool| #[trigger] is_near_best(players, model, keeper_on_a, s.cost as int),
{
    let (k, c) = choose|k: bool, c: Seq<usize>| #[trigger]
        is_outcome(players, model, randomize, k, c, s);
    assert(is_near_best(players, model, k, s.cost as int));
}

/// Whether the entries of `s` grow strictly and stay below `bound`.
pub open spec fn climbs_below(s: Seq<usize>, bound: nat) -> bool {
    &&& forall|i: int| 0 <= i < s.len() ==> #[trigger] s[i] < bound
    &&& forall|i: int, j: int| 0 <= i < j < s.len() ==> s[i] < s[j]
}

/// Whether `rest` lists exactly the places below `m` that `c` leaves out.
pub open spec fn leaves_out(c: Seq<usize>, rest: Seq<usize>, m: nat) -> bool {
    &&& forall|j: int| 0 <= j < rest.len() ==> !c.contains(#[trigger] rest[j])
    &&& forall|x: int| 0 <= x < m && !c.contains(x as usize) ==> rest.contains(#[trigger] (x as usize))
}

/// Whether the positions `lead` and the entries of `from` are apart and
/// between them hold every position below `n`.
pub open spec fn shares_out(lead: Seq<usize>, from: Seq<usize>, n: nat) -> bool {
    &&& forall|i: int, x: int| 0 <= i < lead.len() && 0 <= x < from.len() ==> lead[i] != from[x]
    &&& forall|p: int|
        0 <= p < n ==> lead.contains(#[trigger] (p as usize)) || from.contains(p as usize)
}

/// The chosen entries of a pool, then the entries left out, hold each entry
/// of the pool once.
proof fn lemma_chosen_and_left(from: Seq<usize>, c: Seq<usize>, rest: Seq<usize>, n: nat)
    requires
        from.len() <= usize::MAX,
        climbs_below(from, n),
        climbs_below(c, from.len()),
        climbs_below(rest, from.len()),
        leaves_out(c, rest, from.len()),
    ensures
        (pick(from, c) + pick(from, rest)).no_duplicates(),
        forall|i: int|
            0 <= i < (pick(from, c) + pick(from, rest)).len() ==> from.contains(
                #[trigger] (pick(from, c) + pick(from, rest))[i],
            ),
        forall|x: int|
            0 <= x < from.len() ==> (pick(from, c) + pick(from, rest)).contains(#[trigger] from[x]),
{
    let both = pick(from, c) + pick(from, rest);
    let k = c.len() as int;
    // The place in the pool that each entry of `both` comes from.
    let origin = |i: int| if i < k { c[i] as int } else { rest[i - k] as int };
    assert forall|i: int| 0 <= i < both.len() implies 0 <= origin(i) < from.len() && #[trigger] both[i]
        == from[origin(i)] by {}
    assert forall|i: int, j: int| 0 <= i < j < both.len() implies #[trigger] origin(i)
        != #[trigger] origin(j) by {
        if i < k && j >= k {
            assert(c.contains(c[i]));
            assert(!c.contains(rest[j - k]));
        }
    }
    assert forall|i: int, j: int| 0 <= i < j < both.len() implies both[i] != both[j] by {
        let x = origin(i);
        let y = origin(j);
        assert(both[i] == from[x] && both[j] == from[y]);
        if x < y {
            assert(from[x] < from[y]);
        } else {
            assert(from[y] < from[x]);
        }
    }
    assert forall|i: int| 0 <= i < both.len() implies from.contains(#[trigger] both[i]) by {
        assert(both[i] == from[origin(i)]);
    }
    assert forall|x: int| 0 <= x < from.len() implies both.contains(#[trigger] from[x]) by {
        if c.contains(x as usize) {
            let i = choose|i: int| 0 <= i < c.len() && c[i] == x as usize;
            assert(both[i] == from[x]);
        } else {
            assert(rest.contains(x as usize));
            let j = choose|j: int| 0 <= j < rest.len() && rest[j] == x as usize;
            assert(both[k + j] == from[x]);
        }
    }
}

/// Two teams that share out the placed positions, and the pool between
/// the chosen and the rest, hold each position once.
proof fn lemma_teams_share_out(
    a1: Seq<usize>,
    b1: Seq<usize>,
    a2: Seq<usize>,
    b2: Seq<usize>,
    from: Seq<usize>,
    n: nat,
)
    requires
        (a1 + b1).no_duplicates(),
        climbs_below(from, n),
        forall|i: int| 0 <= i < (a1 + b1).len() ==> #[trigger] (a1 + b1)[i] < n,
        shares_out(a1 + b1, from, n),
        (a2 + b2).no_duplicates(),
        forall|i: int| 0 <= i < (a2 + b2).len() ==> from.contains(#[trigger] (a2 + b2)[i]),
        forall|x: int| 0 <= x < from.len() ==> (a2 + b2).contains(#[trigger] from[x]),
    ensures
        ((a1 + a2) + (b1 + b2)).no_duplicates(),
        forall|i: int|
            0 <= i < ((a1 + a2) + (b1 + b2)).len() ==> #[trigger] ((a1 + a2) + (b1 + b2))[i] < n,
        forall|p: int| 0 <= p < n ==> ((a1 + a2) + (b1 + b2)).contains(#[trigger] (p as usize)),
{
    let lead = a1 + b1;
    let body = a2 + b2;
    let all = (a1 + a2) + (b1 + b2);
    let s1 = a1.len() as int;
    let s2 = s1 + a2.len();
    let s3 = s2 + b1.len();
    // Each place of `all` is a place of `lead` or a place of `body`.
    let in_lead = |i: int| i < s1 || s2 <= i < s3;
    let twin = |i: int|
        if i < s1 {
            i
        } else if i < s2 {
            i - s1
        } else if i < s3 {
            i - s2 + s1
        } else {
            i - s3 + a2.len()
        };
    assert forall|i: int| 0 <= i < all.len() implies {
        &&& in_lead(i) ==> 0 <= twin(i) < lead.len() && #[trigger] all[i] == lead[twin(i)]
        &&& !in_lead(i) ==> 0 <= twin(i) < body.len() && all[i] == body[twin(i)]
    } by {}
    assert forall|i: int| 0 <= i < all.len() implies #[trigger] all[i] < n by {
        if in_lead(i) {
            assert(all[i] == lead[twin(i)]);
        } else {
            assert(all[i] == body[twin(i)]);
            assert(from.contains(body[twin(i)]));
        }
    }
    assert forall|i: int, j: int| 0 <= i < j < all.len() implies all[i] != all[j] by {
        assert(twin(i) != twin(j) || in_lead(i) != in_lead(j));
        if in_lead(i) && in_lead(j) {
            assert(all[i] == lead[twin(i)] && all[j] == lead[twin(j)]);
        } else if !in_lead(i) && !in_lead(j) {
            assert(all[i] == body[twin(i)] && all[j] == body[twin(j)]);
        } else if in_lead(i) {
            assert(all[i] == lead[twin(i)] && all[j] == body[twin(j)]);
            assert(from.contains(body[twin(j)]));
        } else {
            assert(all[i] == body[twin(i)] && all[j] == lead[twin(j)]);
            assert(from.contains(body[twin(i)]));
        }
    }
    assert forall|p: int| 0 <= p < n implies all.contains(#[trigger] (p as usize)) by {
        if lead.contains(p as usize) {
            let t = choose|t: int| 0 <= t < lead.len() && lead[t] == p as usize;
            if t < s1 {
                assert(all[t] == p as usize);
            } else {
                assert(all[t - s1 + s2] == p as usize);
            }
        } else {
            assert(from.contains(p as usize));
            let x = choose|x: int| 0 <= x < from.len() && from[x] == p as usize;
            assert(body.contains(from[x]));
            let t = choose|t: int| 0 <= t < body.len() && body[t] == p as usize;
            if t < a2.len() {
                assert(all[s1 + t] == p as usize);
            } else {
                assert(all[t - a2.len() + s3] == p as usize);
            }
        }
    }
}

/// The positions placed beforehand and the pool share out the roster.
proof fn lemma_leads_and_pool(players: Seq<Player>, keeper_on_a: bool)
    requires
        players.len() <= usize::MAX,
    ensures
        (lead_a(players, keeper_on_a) + lead_b(players, keeper_on_a)).no_duplicates(),
        pool(players).len() <= players.len(),
        climbs_below(pool(players), players.len()),
        forall|i: int|
            0 <= i < (lead_a(players, keeper_on_a) + lead_b(players, keeper_on_a)).len()
                ==> #[trigger] (lead_a(players, keeper_on_a) + lead_b(players, keeper_on_a))[i]
                < players.len(),
        shares_out(
            lead_a(players, keeper_on_a) + lead_b(players, keeper_on_a),
            pool(players),
            players.len(),
        ),
{
    let n = players.len();
    let is_k = |i: int| players[i].is_keeper();
    let not_k = |i: int| !players[i].is_keeper();
    let any = |i: int| true;
    let keepers = keeper_positions(players);
    let from = pool(players);
    let lead = lead_a(players, keeper_on_a) + lead_b(players, keeper_on_a);
    lemma_select(n, is_k);
    lemma_select(n, not_k);
    lemma_select(n, any);
    if keepers_are_placed(players) {
        assert(lead =~= keepers);
        assert forall|i: int, x: int| 0 <= i < lead.len() && 0 <= x < from.len() implies lead[i]
            != from[x] by {
            assert(is_k(keepers[i] as int));
            assert(not_k(from[x] as int));
        }
        assert forall|p: int| 0 <= p < n implies lead.contains(#[trigger] (p as usize))
            || from.contains(p as usize) by {
            if is_k(p) {
            } else {
                assert(not_k(p));
            }
        }
    } else {
        assert(lead =~= Seq::<usize>::empty());
        assert forall|p: int| 0 <= p < n implies lead.contains(#[trigger] (p as usize))
            || from.contains(p as usize) by {
            assert(any(p));
        }
    }
}

/// Every choice divides the roster: each roster position stands on exactly
/// one of the two teams, and stands there once.
pub proof fn lemma_choice_divides_roster(players: Seq<Player>, keeper_on_a: bool, c: Seq<usize>)
    requires
        players.len() <= usize::MAX,
        is_choice(players, keeper_on_a, c),
    ensures
        (positions_a(players, keeper_on_a, c) + positions_b(players, keeper_on_a, c)).no_duplicates(),
        forall|i: int|
            0 <= i < (positions_a(players, keeper_on_a, c) + positions_b(
                players,
                keeper_on_a,
                c,
            )).len() ==> #[trigger] (positions_a(players, keeper_on_a, c) + positions_b(
                players,
                keeper_on_a,
                c,
            ))[i] < players.len(),
        forall|p: int|
            0 <= p < players.len() ==> (positions_a(players, keeper_on_a, c) + positions_b(
                players,
                keeper_on_a,
                c,
            )).contains(#[trigger] (p as usize)),
{
    let n = players.len();
    let from = pool(players);
    let m = from.len();
    let rest = complement(c, m);
    lemma_leads_and_pool(players, keeper_on_a);
    assert(climbs_below(rest, m) && leaves_out(c, rest, m)) by {
        let absent = |i: int| !c.contains(i as usize);
        lemma_select(m, absent);
        assert forall|j: int| 0 <= j < rest.len() implies !c.contains(#[trigger] rest[j]) by {
            assert(absent(rest[j] as int));
        }
        assert forall|x: int| 0 <= x < m && !c.contains(x as usize) implies rest.contains(
            #[trigger] (x as usize),
        ) by {
            assert(absent(x));
        }
    }
    lemma_chosen_and_left(from, c, rest, n);
    lemma_teams_share_out(
        lead_a(players, keeper_on_a),
        lead_b(players, keeper_on_a),
        pick(from, c),
        pick(from, rest),
        from,
        n,
    );
}

/// Balancing without randomizing is a function of the roster: any two
/// splits that it may return for one roster hold the same teams, player for
/// player and in the same order, and the same figures.
pub proof fn lemma_balance_is_deterministic(
    players: Seq<Player>,
    model: CostModel,
    first: TeamSplit,
    second: TeamSplit,
)
    requires
        is_balanced(players, model, false, first),
        is_balanced(players, model, false, second),
    ensures
        first.team_a@ == second.team_a@,
        first.team_b@ == second.team_b@,
        first.cost == second.cost,
        first.elo_diff == second.elo_diff,
        first.tag_value_a == second.tag_value_a,
        first.tag_value_b == second.tag_value_b,
{
    let (k1, c1) = choose|k: bool, c: Seq<usize>| #[trigger]
        is_outcome(players, model, false, k, c, first);
    let (k2, c2) = choose|k: bool, c: Seq<usize>| #[trigger]
        is_outcome(players, model, false, k, c, second);
    assert(k1 && k2);
    assert(is_choice(players, true, c1));
    assert(is_choice(players, true, c2));
    if c1 != c2 {
        lemma_lex_less_total(c1, c2);
    }
}

/// The teams of a split of the right shape differ in size by at most one
/// player and together hold as many players as the roster.
pub proof fn lemma_shape_sizes(players: Seq<Player>, s: TeamSplit)
    requires
        has_shape(players, s),
    ensures
        s.team_a@.len() + s.team_b@.len() == players.len(),
        s.team_a@.len() <= s.team_b@.len() <= s.team_a@.len() + 1,
{
}

} // verus!
