use crate::game::Game;
use crate::lobby::{sizes_of, Lobby};
use crate::partition::{
    apart, kept_before, path_sum, picked, plan, remaining, reserve, reserved_by, resolved_path,
    search, search_from, sound_team, total, within, PathResolution,
};
use crate::partition_lemmas::{
    lemma_kept_after_flag, lemma_kept_grows, lemma_nothing_gone, lemma_path_sum_push,
    lemma_plan_prefix_none, lemma_plan_sound, lemma_remaining_len, lemma_remove_one,
    lemma_reserve, lemma_reserved_by, lemma_search_sound, lemma_total_push,
};
use crate::player::Player;
use crate::queue::{lobby_count, AdmissionError, Queue, QueueView};
use std::collections::VecDeque;
use vstd::prelude::*;

verus! {

/// The casual game mode and its queue: teams are made of any lobbies whose
/// player counts add up. The baseline mode admits every lobby; the stricter one
/// admits lobbies up to a size cap.
pub struct CasualGame {
    queue: VecDeque<Lobby>,
    // where the priority segment of the queue ends
    priority_idx: usize,
    size_cap: Option<u32>,
}

/// The positions of a team as numbers of the model.
pub open spec fn positions(indeces: Seq<usize>) -> Seq<int> {
    indeces.map_values(|i: usize| i as int)
}

/// The positions of all teams as numbers of the model.
pub open spec fn team_positions(teams: Seq<Vec<usize>>) -> Seq<Seq<int>> {
    teams.map_values(|team: Vec<usize>| positions(team@))
}

/// A copy of `items` with `last` behind it.
fn appended<T: Copy>(items: &Vec<T>, last: T) -> (longer: Vec<T>)
    ensures
        longer@ == items@.push(last),
{
    let mut longer: Vec<T> = Vec::new();
    let mut i: usize = 0;
    while i < items.len()
        invariant
            i <= items@.len(),
            longer@ == items@.take(i as int),
        decreases items@.len() - i,
    {
        longer.push(items[i]);
        assert(items@.take(i + 1) == items@.take(i as int).push(items@[i as int]));
        i = i + 1;
    }
    assert(items@.take(items@.len() as int) == items@);
    longer.push(last);
    longer
}

/// Walks the queue from `start_idx` on and tries to complete the path with each
/// lobby that is not reserved: the first complete path wins, a path that stays
/// under is followed further behind the lobby that made it, one that overshoots
/// is dropped.
fn _pick_out(
    queue: &VecDeque<Lobby>,
    tree_path: &Vec<u32>,
    indeces: &Vec<usize>,
    tree_nesting: u32,
    start_idx: usize,
    reserved_indeces: &Vec<bool>,
) -> (found: Option<Vec<usize>>)
    requires
        reserved_indeces@.len() == queue@.len(),
        start_idx <= queue@.len(),
    ensures
        match search_from(
            sizes_of(queue@),
            reserved_indeces@,
            start_idx as int,
            tree_nesting as nat,
            path_sum(tree_path@),
        ) {
            None => found is None,
            Some(rest) => found is Some && positions(found->0@) == positions(indeces@) + rest,
        },
    decreases queue@.len() - start_idx,
{
    let ghost sizes = sizes_of(queue@);
    let ghost so_far = path_sum(tree_path@);
    let mut i: usize = start_idx;
    while i < queue.len()
        invariant
            start_idx <= i <= queue@.len(),
            reserved_indeces@.len() == queue@.len(),
            sizes == sizes_of(queue@),
            so_far == path_sum(tree_path@),
            search_from(sizes, reserved_indeces@, start_idx as int, tree_nesting as nat, so_far)
                == search_from(sizes, reserved_indeces@, i as int, tree_nesting as nat, so_far),
        decreases queue@.len() - i,
    {
        let player_count = queue[i].player_count();
        assert(sizes[i as int] == player_count);
        // a lobby larger than the whole team overshoots whatever the path holds
        if !reserved_indeces[i] && player_count <= tree_nesting as usize {
            let subtree_path = appended(tree_path, player_count as u32);
            proof {
                lemma_path_sum_push(tree_path@, player_count as u32);
            }
            match resolved_path(tree_nesting, subtree_path.as_slice()) {
                PathResolution::Nil => {},
                PathResolution::Complete => {
                    let complete = appended(indeces, i);
                    assert(positions(complete@) == positions(indeces@) + seq![i as int]);
                    return Some(complete);
                },
                PathResolution::Incomplete => {
                    let longer = appended(indeces, i);
                    let result = _pick_out(
                        queue,
                        &subtree_path,
                        &longer,
                        tree_nesting,
                        i + 1,
                        reserved_indeces,
                    );
                    if result.is_some() {
                        proof {
                            let rest = search_from(
                                sizes,
                                reserved_indeces@,
                                i + 1,
                                tree_nesting as nat,
                                so_far + sizes[i as int],
                            )->0;
                            assert(positions(longer@) + rest == positions(indeces@) + (seq![
                                i as int,
                            ] + rest));
                        }
                        return result;
                    }
                },
            }
        }
        i = i + 1;
    }
    None
}

/// Looks for lobbies that are not reserved and whose player counts add up to
/// `tree_nesting`, and gives their positions in rising order.
fn pick_out(queue: &VecDeque<Lobby>, tree_nesting: u32, reserved_indeces: &Vec<bool>) -> (found:
    Option<Vec<usize>>)
    requires
        reserved_indeces@.len() == queue@.len(),
    ensures
        match search(sizes_of(queue@), reserved_indeces@, tree_nesting as nat) {
            None => found is None,
            Some(team) => found is Some && positions(found->0@) == team,
        },
{
    let tree_path: Vec<u32> = Vec::new();
    let indeces: Vec<usize> = Vec::new();
    assert(path_sum(tree_path@) == 0) by {
        assert(tree_path@.map_values(|size: u32| size as nat).len() == 0);
    }
    let found = _pick_out(queue, &tree_path, &indeces, tree_nesting, 0, reserved_indeces);
    proof {
        if found is Some {
            let team = search(sizes_of(queue@), reserved_indeces@, tree_nesting as nat)->0;
            assert(positions(indeces@) + team == team);
        }
    }
    found
}

/// The number of players in the queue.
fn queued_players(queue: &VecDeque<Lobby>) -> (players: u128)
    ensures
        players == total(sizes_of(queue@)),
{
    let mut players: u128 = 0;
    let mut i: usize = 0;
    while i < queue.len()
        invariant
            i <= queue@.len(),
            players == total(sizes_of(queue@.take(i as int))),
            players <= i * 0xffff_ffff_ffff_ffff,
        decreases queue@.len() - i,
    {
        proof {
            lemma_total_push(sizes_of(queue@.take(i as int)), queue@[i as int].size());
            assert(sizes_of(queue@.take(i + 1)) == sizes_of(queue@.take(i as int)).push(
                queue@[i as int].size(),
            ));
        }
        players = players + queue[i].player_count() as u128;
        i = i + 1;
    }
    assert(queue@.take(queue@.len() as int) == queue@);
    players
}

/// The number of players that teams of these sizes need.
fn requested_players(team_sizes: &[u32]) -> (players: u128)
    ensures
        players == path_sum(team_sizes@),
{
    let mut players: u128 = 0;
    let mut i: usize = 0;
    while i < team_sizes.len()
        invariant
            i <= team_sizes@.len(),
            players == path_sum(team_sizes@.take(i as int)),
            players <= i * 0xffff_ffff,
        decreases team_sizes@.len() - i,
    {
        proof {
            lemma_path_sum_push(team_sizes@.take(i as int), team_sizes@[i as int]);
            assert(team_sizes@.take(i + 1) == team_sizes@.take(i as int).push(
                team_sizes@[i as int],
            ));
        }
        players = players + team_sizes[i] as u128;
        i = i + 1;
    }
    assert(team_sizes@.take(team_sizes@.len() as int) == team_sizes@);
    players
}

/// One flag for each of `len` positions, none of them set.
fn no_flags(len: usize) -> (flags: Vec<bool>)
    ensures
        flags@ == Seq::new(len as nat, |i: int| false),
{
    let mut flags: Vec<bool> = Vec::new();
    let mut i: usize = 0;
    while i < len
        invariant
            i <= len,
            flags@ == Seq::new(i as nat, |i: int| false),
        decreases len - i,
    {
        flags.push(false);
        assert(flags@ == Seq::new((i + 1) as nat, |i: int| false));
        i = i + 1;
    }
    flags
}

/// Sets the flags of the positions in `indeces`.
fn flag_all(flags: &mut Vec<bool>, indeces: &Vec<usize>)
    requires
        forall|j: int| 0 <= j < indeces@.len() ==> (#[trigger] indeces@[j]) < old(flags)@.len(),
    ensures
        final(flags)@ == reserve(old(flags)@, positions(indeces@)),
        final(flags)@.len() == old(flags)@.len(),
{
    let ghost team = positions(indeces@);
    let mut j: usize = 0;
    while j < indeces.len()
        invariant
            j <= indeces@.len(),
            team == positions(indeces@),
            flags@.len() == old(flags)@.len(),
            forall|j: int| 0 <= j < indeces@.len() ==> (#[trigger] indeces@[j]) < flags@.len(),
            flags@ == reserve(old(flags)@, team.take(j as int)),
        decreases indeces@.len() - j,
    {
        assert(team.take(j + 1).drop_last() == team.take(j as int));
        flags.set(indeces[j], true);
        j = j + 1;
    }
    assert(team.take(indeces@.len() as int) == team);
}

/// The number of set flags below position `below`.
fn flags_below(flags: &Vec<bool>, below: usize) -> (count: usize)
    requires
        below <= flags@.len(),
    ensures
        count + kept_before(flags@, below as int) == below,
{
    let mut count: usize = 0;
    let mut i: usize = 0;
    while i < below
        invariant
            i <= below <= flags@.len(),
            count + kept_before(flags@, i as int) == i,
        decreases below - i,
    {
        if flags[i] {
            count = count + 1;
        }
        i = i + 1;
    }
    count
}

impl CasualGame {
    /// The largest lobby the mode admits, if it caps the size at all.
    pub closed spec fn size_cap(&self) -> Option<u32> {
        self.size_cap
    }

    /// An empty queue of the baseline mode, which admits every lobby.
    pub fn new() -> (game: CasualGame)
        ensures
            game.model() == (QueueView { lobbies: Seq::empty(), priority: 0 }),
            game.size_cap() is None,
    {
        CasualGame { queue: VecDeque::new(), priority_idx: 0, size_cap: None }
    }

    /// An empty queue of the stricter mode, which admits lobbies of up to `cap`
    /// players.
    pub fn with_size_cap(cap: u32) -> (game: CasualGame)
        ensures
            game.model() == (QueueView { lobbies: Seq::empty(), priority: 0 }),
            game.size_cap() == Some(cap),
    {
        CasualGame { queue: VecDeque::new(), priority_idx: 0, size_cap: Some(cap) }
    }

    /// The number of lobbies that wait.
    pub fn len(&self) -> (len: usize)
        ensures
            len == self.model().lobbies.len(),
    {
        self.queue.len()
    }

    /// Whether no lobby waits.
    pub fn is_empty(&self) -> (empty: bool)
        ensures
            empty == (self.model().lobbies.len() == 0),
    {
        self.queue.len() == 0
    }

    /// The length of the priority segment.
    pub fn priority_len(&self) -> (len: usize)
        ensures
            len == self.model().priority,
    {
        self.priority_idx
    }

    /// The lobby that waits at `position`, counted from the head.
    pub fn get(&self, position: usize) -> (lobby: Option<&Lobby>)
        ensures
            lobby is Some <==> position < self.model().lobbies.len(),
            lobby matches Some(l) ==> *l == self.model().lobbies[position as int],
    {
        if position < self.queue.len() {
            Some(&self.queue[position])
        } else {
            None
        }
    }
}

/// The search phase: finds a team for each of `team_sizes` in turn, each among
/// the lobbies that the teams before it left, and gives the positions of each
/// team; nothing as soon as one team cannot be found.
fn plan_teams(queue: &VecDeque<Lobby>, team_sizes: &[u32]) -> (planned: Option<Vec<Vec<usize>>>)
    ensures
        match plan(sizes_of(queue@), team_sizes@) {
            None => planned is None,
            Some(teams) => planned is Some && team_positions(planned->0@) == teams,
        },
{
    let ghost sizes = sizes_of(queue@);
    let mut teams: Vec<Vec<usize>> = Vec::new();
    let mut reserved_indeces = no_flags(queue.len());
    let mut served: usize = 0;
    assert(team_positions(teams@) == Seq::<Seq<int>>::empty());
    while served < team_sizes.len()
        invariant
            served <= team_sizes@.len(),
            teams@.len() == served,
            sizes == sizes_of(queue@),
            plan(sizes, team_sizes@.take(served as int)) == Some(team_positions(teams@)),
            reserved_indeces@ == reserved_by(sizes.len(), team_positions(teams@)),
            reserved_indeces@.len() == sizes.len(),
        decreases team_sizes@.len() - served,
    {
        let ghost next_sizes = team_sizes@.take(served + 1);
        assert(next_sizes.drop_last() == team_sizes@.take(served as int));
        assert(next_sizes.last() == team_sizes@[served as int]);
        let result = pick_out(queue, team_sizes[served], &reserved_indeces);
        match result {
            None => {
                proof {
                    lemma_plan_prefix_none(sizes, team_sizes@, served + 1);
                }
                return None;
            },
            Some(indeces) => {
                proof {
                    lemma_search_sound(
                        sizes,
                        reserved_indeces@,
                        0,
                        team_sizes@[served as int] as nat,
                        0,
                    );
                    assert forall|j: int| 0 <= j < indeces@.len() implies (#[trigger] indeces@[j])
                        < reserved_indeces@.len() by {
                        assert(positions(indeces@)[j] == indeces@[j]);
                    }
                    assert(team_positions(teams@.push(indeces)) == team_positions(teams@).push(
                        positions(indeces@),
                    ));
                    assert(team_positions(teams@).push(positions(indeces@)).drop_last()
                        == team_positions(teams@));
                }
                flag_all(&mut reserved_indeces, &indeces);
                teams.push(indeces);
            },
        }
        served = served + 1;
    }
    assert(team_sizes@.take(team_sizes@.len() as int) == team_sizes@);
    Some(teams)
}

/// A position of team `t` that stands neither in a team before it nor earlier
/// in its own team is not flagged while the positions before it are.
proof fn lemma_not_popped_yet(len: nat, planned: Seq<Seq<int>>, t: int, j: int)
    requires
        within(len, planned),
        apart(planned),
        0 <= t < planned.len(),
        0 <= j < planned[t].len(),
    ensures
        reserved_by(len, planned.take(t)).len() == len,
        reserve(reserved_by(len, planned.take(t)), planned[t].take(j)).len() == len,
        !reserve(reserved_by(len, planned.take(t)), planned[t].take(j))[planned[t][j]],
{
    let earlier_teams = planned.take(t);
    let earlier = reserved_by(len, earlier_teams);
    let team = planned[t];
    let index = team[j];
    assert forall|a: int, b: int|
        0 <= a < earlier_teams.len() && 0 <= b < earlier_teams[a].len() implies 0
        <= #[trigger] earlier_teams[a][b] < len by {
        assert(earlier_teams[a][b] == planned[a][b]);
    }
    lemma_reserved_by(len, earlier_teams);
    assert forall|k: int| 0 <= k < team.take(j).len() implies 0 <= #[trigger] team.take(j)[k]
        < earlier.len() by {
        assert(team.take(j)[k] == planned[t][k]);
    }
    lemma_reserve(earlier, team.take(j));
    if earlier[index] {
        let u = choose|u: int|
            0 <= u < earlier_teams.len() && (#[trigger] earlier_teams[u]).contains(index);
        let k = choose|k: int| 0 <= k < earlier_teams[u].len() && earlier_teams[u][k] == index;
        assert(planned[u][k] == planned[t][j]);
    }
    if team.take(j).contains(index) {
        let k = choose|k: int| 0 <= k < team.take(j).len() && team.take(j)[k] == index;
        assert(planned[t][k] == planned[t][j]);
    }
}

impl CasualGame {
    /// The removal phase: takes the lobbies at the planned positions out of the
    /// queue, team by team and in each team's order. A position counts from the
    /// head of the queue as it was, so each removal steps back by the number
    /// of lobbies ahead of it that have left; a lobby that leaves the priority
    /// segment shortens it.
    fn remove_teams(&mut self, teams: &Vec<Vec<usize>>) -> (lobbies: Vec<Vec<Lobby>>)
        requires
            old(self).model().wf(),
            within(old(self).model().lobbies.len(), team_positions(teams@)),
            apart(team_positions(teams@)),
        ensures
            final(self).model() == old(self).model().without(team_positions(teams@)),
            final(self).model().wf(),
            final(self).size_cap() == old(self).size_cap(),
            lobbies@.len() == teams@.len(),
            forall|t: int|
                0 <= t < teams@.len() ==> (#[trigger] lobbies@[t])@ == picked(
                    old(self).model().lobbies,
                    team_positions(teams@)[t],
                ),
            final(self).model().lobbies.len() + lobby_count(lobbies@) == old(
                self,
            ).model().lobbies.len(),
    {
        let ghost before = self.model();
        let ghost len = before.lobbies.len();
        let ghost planned = team_positions(teams@);
        let boundary = self.priority_idx;
        let mut lobbies: Vec<Vec<Lobby>> = Vec::new();
        // as lobbies leave, the ones behind them move up: a position is set
        // back by the number of popped positions below it
        let mut popped_indeces = no_flags(self.queue.len());
        let mut t: usize = 0;
        proof {
            assert(planned.take(0) == Seq::<Seq<int>>::empty());
            lemma_nothing_gone(before.lobbies, popped_indeces@, boundary as int);
        }
        while t < teams.len()
            invariant
                t <= teams@.len(),
                planned == team_positions(teams@),
                within(len, planned),
                apart(planned),
                len == before.lobbies.len(),
                before.wf(),
                boundary == before.priority,
                popped_indeces@ == reserved_by(len, planned.take(t as int)),
                popped_indeces@.len() == len,
                self.queue@ == remaining(before.lobbies, popped_indeces@),
                self.priority_idx == kept_before(popped_indeces@, boundary as int),
                self.size_cap == old(self).size_cap,
                lobbies@.len() == t,
                forall|u: int|
                    0 <= u < t ==> (#[trigger] lobbies@[u])@ == picked(before.lobbies, planned[u]),
                self.queue@.len() + lobby_count(lobbies@) == len,
            decreases teams@.len() - t,
        {
            let mut team_lobbies: Vec<Lobby> = Vec::new();
            let ghost team = planned[t as int];
            let ghost earlier = popped_indeces@;
            assert(team == positions(teams@[t as int]@));
            let mut j: usize = 0;
            assert(picked(before.lobbies, team.take(0)) == Seq::<Lobby>::empty());
            while j < teams[t].len()
                invariant
                    t < teams@.len(),
                    j <= teams@[t as int]@.len(),
                    planned == team_positions(teams@),
                    within(len, planned),
                    apart(planned),
                    team == planned[t as int],
                    team == positions(teams@[t as int]@),
                    len == before.lobbies.len(),
                    before.wf(),
                    boundary == before.priority,
                    earlier == reserved_by(len, planned.take(t as int)),
                    popped_indeces@ == reserve(earlier, team.take(j as int)),
                    popped_indeces@.len() == len,
                    self.queue@ == remaining(before.lobbies, popped_indeces@),
                    self.priority_idx == kept_before(popped_indeces@, boundary as int),
                    self.size_cap == old(self).size_cap,
                    team_lobbies@ == picked(before.lobbies, team.take(j as int)),
                    self.queue@.len() + lobby_count(lobbies@) + j == len,
                decreases teams@[t as int]@.len() - j,
            {
                let index = teams[t][j];
                proof {
                    assert(team[j as int] == index);
                    lemma_not_popped_yet(len, planned, t as int, j as int);
                    lemma_remove_one(before.lobbies, popped_indeces@, index as int);
                    lemma_kept_after_flag(popped_indeces@, index as int, boundary as int);
                    assert(team.take(j + 1).drop_last() == team.take(j as int));
                    assert(picked(before.lobbies, team.take(j + 1)) == picked(
                        before.lobbies,
                        team.take(j as int),
                    ).push(before.lobbies[index as int]));
                }
                let mov = flags_below(&popped_indeces, index);
                let lobby = self.queue.remove(index - mov);
                team_lobbies.push(lobby.unwrap());
                popped_indeces.set(index, true);
                if index < boundary {
                    self.priority_idx = self.priority_idx - 1;
                }
                j = j + 1;
            }
            proof {
                assert(team.take(team.len() as int) == team);
                assert(planned.take(t + 1).drop_last() == planned.take(t as int));
                assert(lobbies@.push(team_lobbies).drop_last() == lobbies@);
            }
            lobbies.push(team_lobbies);
            t = t + 1;
        }
        proof {
            assert(planned.take(planned.len() as int) == planned);
            lemma_remaining_len(before.lobbies, popped_indeces@);
            lemma_kept_grows(popped_indeces@, boundary as int, len as int);
        }
        lobbies
    }
}

impl Game for CasualGame {
    /// Without a cap every lobby is admitted, with one the lobbies that do not
    /// exceed it.
    open spec fn admissible(&self, lobby: &Lobby) -> bool {
        match self.size_cap() {
            None => true,
            Some(cap) => lobby.size() <= cap,
        }
    }

    fn valid_lobby(&self, lobby: &Lobby) -> (valid: bool) {
        match self.size_cap {
            None => lobby.player_count() > 0,
            Some(cap) => lobby.player_count() <= cap as usize,
        }
    }

    /// The casual mode leaves every player all their slots.
    open spec fn reduced_roles(&self, lobby: &Lobby) -> Seq<Player> {
        lobby@
    }

    fn reduced_roles_lobby(&self, lobby: &Lobby) -> (reduced: Lobby)
        ensures
            reduced.rating_flag() == lobby.rating_flag(),
    {
        lobby.clone()
    }
}

impl Queue for CasualGame {
    closed spec fn model(&self) -> QueueView {
        QueueView { lobbies: self.queue@, priority: self.priority_idx as nat }
    }

    open spec fn admits(&self, lobby: &Lobby) -> bool {
        self.admissible(lobby)
    }

    fn feed(&mut self, lobby: Lobby) -> (fed: Result<(), AdmissionError>)
        ensures
            final(self).size_cap() == old(self).size_cap(),
    {
        if !self.valid_lobby(&lobby) {
            return Err(AdmissionError::InvalidAdmission);
        }
        self.queue.push_back(lobby);
        Ok(())
    }

    fn feed_priority(&mut self, lobby: Lobby) -> (fed: Result<(), AdmissionError>)
        ensures
            final(self).size_cap() == old(self).size_cap(),
    {
        if !self.valid_lobby(&lobby) {
            return Err(AdmissionError::InvalidAdmission);
        }
        self.queue.insert(self.priority_idx, lobby);
        assert(self.queue@.len() == self.queue.len());
        self.priority_idx = self.priority_idx + 1;
        Ok(())
    }

    fn take(&mut self, team_sizes: &[u32]) -> (taken: Option<Vec<Vec<Lobby>>>)
        ensures
            final(self).size_cap() == old(self).size_cap(),
    {
        let ghost before = self.model();
        let ghost sizes = sizes_of(self.queue@);
        let total_player_amount_in_queue = queued_players(&self.queue);
        let least_req_player_amount = requested_players(team_sizes);
        if total_player_amount_in_queue < least_req_player_amount {
            return None;
        }
        match plan_teams(&self.queue, team_sizes) {
            None => None,
            Some(teams) => {
                let ghost planned = team_positions(teams@);
                proof {
                    lemma_plan_sound(sizes, team_sizes@);
                }
                let lobbies = self.remove_teams(&teams);
                proof {
                    assert forall|t: int| 0 <= t < lobbies@.len() implies total(
                        sizes_of((#[trigger] lobbies@[t])@),
                    ) == team_sizes@[t] by {
                        assert(sound_team(
                            sizes,
                            reserved_by(sizes.len(), planned.take(t)),
                            team_sizes@[t] as nat,
                            planned[t],
                        ));
                        assert(sizes_of(picked(before.lobbies, planned[t])) == picked(
                            sizes,
                            planned[t],
                        ));
                    }
                }
                Some(lobbies)
            },
        }
    }
}

} // verus!
