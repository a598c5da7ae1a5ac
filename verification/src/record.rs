//! Judging the forms by which teams are drawn and results are recorded.

use crate::models::{Player, UNIT};
use crate::text::{chars_of, first_of, lemma_first_of_is, parse_i32, parse_int, texts};
use vstd::prelude::*;

verus! {

/// What the form for drawing teams holds: the checked-in players' ids, as
/// text.
#[derive(Debug)]
pub struct GenerateForm {
    pub player_ids: Vec<String>,
}

/// What the form for recording a result holds.
pub struct RecordForm {
    /// Names of team A's players, if any were sent.
    pub team_a: Option<Vec<String>>,
    /// Names of team B's players, if any were sent.
    pub team_b: Option<Vec<String>>,
    pub score_a: i32,
    pub score_b: i32,
    /// Whether teams of unequal size were confirmed.
    pub confirm_uneven: bool,
    /// Participation entries of the form `id=fraction`, if any were sent.
    pub participation: Option<Vec<String>>,
}

/// Why a result is not recorded as it was sent.
#[derive(Debug)]
pub enum RecordError {
    /// A team has no players.
    EmptyTeam,
    /// The named players stand on both teams.
    Overlap(Vec<String>),
    /// A named player is not on the roster.
    UnknownPlayer,
    /// The teams differ in size, and nobody confirmed that they should. The
    /// sizes are team A's, then team B's.
    UnevenTeams(usize, usize),
}

/// The integers that the texts write, in order; texts that write none are
/// dropped.
pub open spec fn parsed_ids(v: Seq<Seq<char>>) -> Seq<i32>
    decreases v.len(),
{
    if v.len() == 0 {
        Seq::empty()
    } else {
        let before = parsed_ids(v.drop_last());
        match parse_int(v.last()) {
            Some(id) => before.push(id),
            None => before,
        }
    }
}

/// The entries of `a` that occur in `b`, in the order of `a`.
pub open spec fn names_on_both(a: Seq<Seq<char>>, b: Seq<Seq<char>>) -> Seq<Seq<char>>
    decreases a.len(),
{
    if a.len() == 0 {
        Seq::empty()
    } else {
        let before = names_on_both(a.drop_last(), b);
        if b.contains(a.last()) {
            before.push(a.last())
        } else {
            before
        }
    }
}

/// The last player of `roster` who is called `name`, if there is one.
pub open spec fn last_named(roster: Seq<Player>, name: Seq<char>) -> Option<Player>
    decreases roster.len(),
{
    if roster.len() == 0 {
        None
    } else if roster.last().name@ == name {
        Some(roster.last())
    } else {
        last_named(roster.drop_last(), name)
    }
}

/// The players that `names` call, in order, if the roster knows them all.
pub open spec fn lineup_of(names: Seq<Seq<char>>, roster: Seq<Player>) -> Option<Seq<Player>>
    decreases names.len(),
{
    if names.len() == 0 {
        Some(Seq::empty())
    } else {
        match (lineup_of(names.drop_last(), roster), last_named(roster, names.last())) {
            (Some(before), Some(player)) => Some(before.push(player)),
            _ => None,
        }
    }
}

/// `x` held to the range from `lo` to `hi`.
pub open spec fn clamped(x: int, lo: int, hi: int) -> int {
    if x < lo {
        lo
    } else if x > hi {
        hi
    } else {
        x
    }
}

/// What a participation entry of the form `id=fraction` holds: the id that
/// stands before the first `=`, and the text after it. Entries without `=`
/// or without an integer before it hold nothing.
pub open spec fn entry_of(s: Seq<char>) -> Option<(i32, Seq<char>)> {
    let i = first_of(s, '=');
    if 0 <= i < s.len() {
        match parse_int(s.take(i)) {
            Some(id) => Some((id, s.skip(i + 1))),
            None => None,
        }
    } else {
        None
    }
}

/// Reads a participation entry of the form `id=fraction` into the id and
/// the text of the fraction.
pub fn participation_entry(entry: &str) -> (r: Option<(i32, String)>)
    ensures
        r is Some <==> entry_of(entry@) is Some,
        r matches Some(pair) ==> entry_of(entry@) == Some((pair.0, pair.1@)),
{
    let v = chars_of(entry);
    let n: usize = v.len();
    let mut at: usize = 0;
    while at < n && v[at] != '='
        invariant
            at <= n == v.len(),
            forall|i: int| 0 <= i < at ==> v@[i] != '=',
        decreases n - at,
    {
        at += 1;
    }
    proof {
        lemma_first_of_is(v@, '=', at as int);
    }
    if at == n {
        return None;
    }
    let key = entry.substring_char(0, at);
    assert(key@ =~= entry@.take(at as int));
    match parse_i32(key) {
        Some(id) => {
            let value = entry.substring_char(at + 1, n);
            assert(value@ =~= entry@.skip(at + 1));
            Some((id, value.to_owned()))
        },
        None => None,
    }
}

impl GenerateForm {
    /// The ids to draw teams from, if the form names at least two.
    pub fn selection(&self) -> (r: Option<Vec<i32>>)
        ensures
            r is Some <==> parsed_ids(texts(self.player_ids@)).len() >= 2,
            r matches Some(ids) ==> ids@ == parsed_ids(texts(self.player_ids@)),
    {
        let ids = self.selected_ids();
        if ids.len() < 2 {
            None
        } else {
            Some(ids)
        }
    }

    /// The ids that the form names; entries that write no integer are
    /// dropped.
    pub fn selected_ids(&self) -> (ids: Vec<i32>)
        ensures
            ids@ == parsed_ids(texts(self.player_ids@)),
    {
        let n: usize = self.player_ids.len();
        let ghost all = texts(self.player_ids@);
        let mut ids: Vec<i32> = Vec::new();
        let mut i: usize = 0;
        assert(all.take(0) =~= Seq::<Seq<char>>::empty());
        while i < n
            invariant
                i <= n == self.player_ids.len(),
                all == texts(self.player_ids@),
                ids@ == parsed_ids(all.take(i as int)),
            decreases n - i,
        {
            proof {
                assert(all.take(i + 1).drop_last() =~= all.take(i as int));
                assert(all.take(i + 1).last() == self.player_ids@[i as int]@);
            }
            match parse_i32(self.player_ids[i].as_str()) {
                Some(id) => {
                    ids.push(id);
                },
                None => {},
            }
            i += 1;
        }
        assert(all.take(n as int) =~= all);
        ids
    }
}

/// A score held to what a match can end with: from 0 to 50 goals.
pub fn clamp_score(score: i32) -> (r: i32)
    ensures
        r == clamped(score as int, 0, 50),
{
    if score < 0 {
        0
    } else if score > 50 {
        50
    } else {
        score
    }
}

/// A participation, in millionths, held to the range from none to all.
pub fn clamp_participation(millionths: i64) -> (r: u32)
    ensures
        r == clamped(millionths as int, 0, UNIT as int),
{
    if millionths < 0 {
        0
    } else if millionths > UNIT {
        UNIT as u32
    } else {
        millionths as u32
    }
}

/// Whether `names` holds `name`.
pub fn holds_name(names: &Vec<String>, name: &String) -> (r: bool)
    ensures
        r == texts(names@).contains(name@),
{
    let mut i: usize = 0;
    while i < names.len()
        invariant
            i <= names.len(),
            forall|j: int| 0 <= j < i ==> texts(names@)[j] != name@,
        decreases names.len() - i,
    {
        if names[i] == *name {
            assert(texts(names@)[i as int] == name@);
            return true;
        }
        i += 1;
    }
    false
}

/// The names of `a` that `b` holds too, in the order of `a`.
pub fn overlap(a: &Vec<String>, b: &Vec<String>) -> (r: Vec<String>)
    ensures
        texts(r@) == names_on_both(texts(a@), texts(b@)),
{
    let n: usize = a.len();
    let ghost all = texts(a@);
    let mut r: Vec<String> = Vec::new();
    let mut i: usize = 0;
    assert(all.take(0) =~= Seq::<Seq<char>>::empty());
    assert(texts(r@) =~= Seq::<Seq<char>>::empty());
    while i < n
        invariant
            i <= n == a.len(),
            all == texts(a@),
            texts(r@) == names_on_both(all.take(i as int), texts(b@)),
        decreases n - i,
    {
        proof {
            assert(all.take(i + 1).drop_last() =~= all.take(i as int));
            assert(all.take(i + 1).last() == a@[i as int]@);
        }
        if holds_name(b, &a[i]) {
            let ghost before = texts(r@);
            r.push(a[i].clone());
            assert(texts(r@) =~= before.push(a@[i as int]@));
        }
        i += 1;
    }
    assert(all.take(n as int) =~= all);
    r
}

/// Judges the names of a result before the roster is consulted: both teams
/// need players, and nobody may stand on both.
pub fn check_names(team_a: &Vec<String>, team_b: &Vec<String>) -> (r: Result<(), RecordError>)
    ensures
        r is Ok <==> team_a.len() > 0 && team_b.len() > 0 && names_on_both(
            texts(team_a@),
            texts(team_b@),
        ).len() == 0,
        r matches Err(RecordError::EmptyTeam) <==> team_a.len() == 0 || team_b.len() == 0,
        r matches Err(RecordError::Overlap(names)) ==> texts(names@) == names_on_both(
            texts(team_a@),
            texts(team_b@),
        ),
        !(r matches Err(RecordError::UnknownPlayer)),
        !(r matches Err(RecordError::UnevenTeams(_, _))),
{
    if team_a.len() == 0 || team_b.len() == 0 {
        return Err(RecordError::EmptyTeam);
    }
    let both = overlap(team_a, team_b);
    if both.len() > 0 {
        return Err(RecordError::Overlap(both));
    }
    Ok(())
}

/// The last player of the roster who is called `name`.
pub fn find_player(roster: &[Player], name: &String) -> (r: Option<Player>)
    ensures
        r == last_named(roster@, name@),
{
    let mut i: usize = roster.len();
    assert(roster@.take(i as int) =~= roster@);
    while i > 0
        invariant
            i <= roster.len(),
            last_named(roster@, name@) == last_named(roster@.take(i as int), name@),
        decreases i,
    {
        proof {
            assert(roster@.take(i as int).drop_last() =~= roster@.take(i - 1));
            assert(roster@.take(i as int).last() == roster@[i - 1]);
        }
        i -= 1;
        if roster[i].name == *name {
            return Some(roster[i].clone());
        }
    }
    None
}

/// The players that `names` call, in order, if the roster knows them all.
pub fn find_players(names: &Vec<String>, roster: &[Player]) -> (r: Option<Vec<Player>>)
    ensures
        r is Some <==> lineup_of(texts(names@), roster@) is Some,
        r matches Some(team) ==> Some(team@) == lineup_of(texts(names@), roster@),
{
    let n: usize = names.len();
    let ghost all = texts(names@);
    let mut team: Vec<Player> = Vec::new();
    let mut i: usize = 0;
    assert(all.take(0) =~= Seq::<Seq<char>>::empty());
    while i < n
        invariant
            i <= n == names.len(),
            all == texts(names@),
            lineup_of(all.take(i as int), roster@) == Some(team@),
        decreases n - i,
    {
        proof {
            assert(all.take(i + 1).drop_last() =~= all.take(i as int));
            assert(all.take(i + 1).last() == names@[i as int]@);
        }
        match find_player(roster, &names[i]) {
            Some(player) => {
                team.push(player);
            },
            None => {
                proof {
                    lemma_lineup_fails_for_good(all, roster@, i + 1);
                }
                return None;
            },
        }
        i += 1;
    }
    assert(all.take(n as int) =~= all);
    Some(team)
}

/// Once a name is unknown, no longer list of names has a lineup.
pub proof fn lemma_lineup_fails_for_good(names: Seq<Seq<char>>, roster: Seq<Player>, upto: int)
    requires
        0 <= upto <= names.len(),
        lineup_of(names.take(upto), roster) is None,
    ensures
        lineup_of(names, roster) is None,
    decreases names.len() - upto,
{
    if upto < names.len() {
        assert(names.take(upto + 1).drop_last() =~= names.take(upto));
        lemma_lineup_fails_for_good(names, roster, upto + 1);
    } else {
        assert(names.take(upto) =~= names);
    }
}

/// The names that a form field holds; none where the field was not sent.
pub open spec fn names_of(field: Option<Vec<String>>) -> Seq<Seq<char>> {
    match field {
        Some(names) => texts(names@),
        None => Seq::empty(),
    }
}

impl RecordForm {
    /// The scores of the form, each held to what a match can end with.
    pub fn scores(&self) -> (r: (i32, i32))
        ensures
            r.0 == clamped(self.score_a as int, 0, 50),
            r.1 == clamped(self.score_b as int, 0, 50),
    {
        (clamp_score(self.score_a), clamp_score(self.score_b))
    }

    /// Judges the names of the form before the roster is consulted: both
    /// teams need players, and nobody may stand on both.
    pub fn check_names(&self) -> (r: Result<(), RecordError>)
        ensures
            r is Ok <==> names_of(self.team_a).len() > 0 && names_of(self.team_b).len() > 0
                && names_on_both(names_of(self.team_a), names_of(self.team_b)).len() == 0,
            r matches Err(RecordError::EmptyTeam) <==> names_of(self.team_a).len() == 0 || names_of(
                self.team_b,
            ).len() == 0,
            r matches Err(RecordError::Overlap(names)) ==> texts(names@) == names_on_both(
                names_of(self.team_a),
                names_of(self.team_b),
            ),
            !(r matches Err(RecordError::UnknownPlayer)),
            !(r matches Err(RecordError::UnevenTeams(_, _))),
    {
        match (&self.team_a, &self.team_b) {
            (Some(a), Some(b)) => check_names(a, b),
            _ => Err(RecordError::EmptyTeam),
        }
    }

    /// Finds the players that the form names and judges the teams: everyone
    /// must be on the roster, and teams of unequal size must have been
    /// confirmed.
    pub fn resolve(&self, roster: &[Player]) -> (r: Result<(Vec<Player>, Vec<Player>), RecordError>)
        ensures
            r matches Ok(teams) ==> {
                &&& Some(teams.0@) == lineup_of(names_of(self.team_a), roster@)
                &&& Some(teams.1@) == lineup_of(names_of(self.team_b), roster@)
            },
            r is Ok <==> {
                &&& lineup_of(names_of(self.team_a), roster@) is Some
                &&& lineup_of(names_of(self.team_b), roster@) is Some
                &&& (names_of(self.team_a).len() == names_of(self.team_b).len()
                    || self.confirm_uneven)
            },
            r matches Err(RecordError::UnknownPlayer) <==> lineup_of(
                names_of(self.team_a),
                roster@,
            ) is None || lineup_of(names_of(self.team_b), roster@) is None,
            r matches Err(RecordError::UnevenTeams(a, b)) ==> a == names_of(self.team_a).len() && b
                == names_of(self.team_b).len(),
            !(r matches Err(RecordError::EmptyTeam)),
            !(r matches Err(RecordError::Overlap(_))),
    {
        let nobody: Vec<String> = Vec::new();
        assert(texts(nobody@) =~= Seq::<Seq<char>>::empty());
        let team_a: &Vec<String> = match &self.team_a {
            Some(names) => names,
            None => &nobody,
        };
        let team_b: &Vec<String> = match &self.team_b {
            Some(names) => names,
            None => &nobody,
        };
        resolve_lineup(team_a, team_b, roster, self.confirm_uneven)
    }
}

/// Finds the players that a result names and judges the teams: everyone must
/// be on the roster, and teams of unequal size must have been confirmed.
pub fn resolve_lineup(
    team_a: &Vec<String>,
    team_b: &Vec<String>,
    roster: &[Player],
    confirm_uneven: bool,
) -> (r: Result<(Vec<Player>, Vec<Player>), RecordError>)
    ensures
        r matches Ok(teams) ==> {
            &&& Some(teams.0@) == lineup_of(texts(team_a@), roster@)
            &&& Some(teams.1@) == lineup_of(texts(team_b@), roster@)
        },
        r is Ok <==> {
            &&& lineup_of(texts(team_a@), roster@) is Some
            &&& lineup_of(texts(team_b@), roster@) is Some
            &&& (team_a.len() == team_b.len() || confirm_uneven)
        },
        r matches Err(RecordError::UnknownPlayer) <==> lineup_of(texts(team_a@), roster@) is None
            || lineup_of(texts(team_b@), roster@) is None,
        r matches Err(RecordError::UnevenTeams(a, b)) ==> a == team_a.len() && b == team_b.len(),
        !(r matches Err(RecordError::EmptyTeam)),
        !(r matches Err(RecordError::Overlap(_))),
{
    let found_a = find_players(team_a, roster);
    let found_b = find_players(team_b, roster);
    match (found_a, found_b) {
        (Some(a), Some(b)) => {
            proof {
                lemma_lineup_len(texts(team_a@), roster@);
                lemma_lineup_len(texts(team_b@), roster@);
            }
            if a.len() != b.len() && !confirm_uneven {
                Err(RecordError::UnevenTeams(a.len(), b.len()))
            } else {
                Ok((a, b))
            }
        },
        _ => Err(RecordError::UnknownPlayer),
    }
}

/// A lineup holds one player for each name.
pub proof fn lemma_lineup_len(names: Seq<Seq<char>>, roster: Seq<Player>)
    ensures
        lineup_of(names, roster) matches Some(team) ==> team.len() == names.len(),
    decreases names.len(),
{
    if names.len() > 0 {
        lemma_lineup_len(names.drop_last(), roster);
    }
}

} // verus!
