use crate::lobby::{sizes_of, Lobby};
use crate::partition::{
    apart, fits, kept_before, leftmost, path_sum, picked, plan, position_count, remaining,
    reserved_by, selection, total, within,
};
use crate::partition_lemmas::{
    lemma_kept_grows, lemma_plan_sound, lemma_remaining_len, lemma_remaining_sizes,
    lemma_reserved_by, lemma_search_leftmost, lemma_selection_is_plan, lemma_teams_kept,
    lemma_teams_total,
};
use vstd::prelude::*;

verus! {

/// Why a lobby was not let into a queue.
#[derive(Debug, Copy, Clone, PartialEq, Eq, Structural)]
pub enum AdmissionError {
    /// The game mode of the queue does not admit the lobby.
    InvalidAdmission,
}

/// A queue as contracts see it: the waiting lobbies from head to tail, and the
/// length of the priority segment at the head.
pub struct QueueView {
    pub lobbies: Seq<Lobby>,
    pub priority: nat,
}

impl QueueView {
    /// The priority segment lies within the queue.
    pub open spec fn wf(self) -> bool {
        self.priority <= self.lobbies.len()
    }

    /// The player counts of the waiting lobbies, from head to tail.
    pub open spec fn sizes(self) -> Seq<nat> {
        sizes_of(self.lobbies)
    }

    /// The queue with `lobby` at its tail.
    pub open spec fn fed(self, lobby: Lobby) -> QueueView {
        QueueView { lobbies: self.lobbies.push(lobby), priority: self.priority }
    }

    /// The queue with `lobby` at the end of its priority segment.
    pub open spec fn fed_priority(self, lobby: Lobby) -> QueueView {
        QueueView {
            lobbies: self.lobbies.insert(self.priority as int, lobby),
            priority: self.priority + 1,
        }
    }

    /// The lobbies of the priority segment, from the head on.
    pub open spec fn priority_segment(self) -> Seq<Lobby> {
        self.lobbies.take(self.priority as int)
    }

    /// The lobbies behind the priority segment.
    pub open spec fn normal_segment(self) -> Seq<Lobby> {
        self.lobbies.skip(self.priority as int)
    }

    /// The queue once the lobbies at the positions of `teams` have left it: the
    /// others keep their order, and the priority segment keeps those of its
    /// lobbies that stay.
    pub open spec fn without(self, teams: Seq<Seq<int>>) -> QueueView {
        let gone = reserved_by(self.lobbies.len(), teams);
        QueueView {
            lobbies: remaining(self.lobbies, gone),
            priority: kept_before(gone, self.priority as int),
        }
    }
}

/// The number of lobbies in all of `groups`.
pub open spec fn lobby_count(groups: Seq<Vec<Lobby>>) -> nat
    decreases groups.len(),
{
    if groups.len() == 0 {
        0
    } else {
        lobby_count(groups.drop_last()) + groups.last()@.len()
    }
}

/// A matchmaking queue: lobbies go in at the tail or at the end of the priority
/// segment, and leave as teams of exact sizes.
pub trait Queue {
    /// The queue as contracts see it.
    spec fn model(&self) -> QueueView;

    /// Whether the game mode of the queue admits `lobby`.
    spec fn admits(&self, lobby: &Lobby) -> bool;

    /// Puts an admissible lobby at the tail of the queue; any other is refused
    /// and the queue stays as it is.
    fn feed(&mut self, lobby: Lobby) -> (fed: Result<(), AdmissionError>)
        requires
            old(self).model().wf(),
        ensures
            final(self).model().wf(),
            old(self).admits(&lobby) ==> fed is Ok && final(self).model() == old(
                self,
            ).model().fed(lobby),
            !old(self).admits(&lobby) ==> fed == Err::<(), AdmissionError>(
                AdmissionError::InvalidAdmission,
            ) && final(self).model() == old(self).model(),
    ;

    /// Puts an admissible lobby behind the last lobby of the priority segment,
    /// ahead of the rest; any other is refused and the queue stays as it is.
    fn feed_priority(&mut self, lobby: Lobby) -> (fed: Result<(), AdmissionError>)
        requires
            old(self).model().wf(),
        ensures
            final(self).model().wf(),
            old(self).admits(&lobby) ==> fed is Ok && final(self).model() == old(
                self,
            ).model().fed_priority(lobby),
            !old(self).admits(&lobby) ==> fed == Err::<(), AdmissionError>(
                AdmissionError::InvalidAdmission,
            ) && final(self).model() == old(self).model(),
    ;

    /// Takes one team for each of `team_sizes` out of the queue, or nothing at
    /// all: which positions leave is what `selection` says of the queue's sizes.
    fn take(&mut self, team_sizes: &[u32]) -> (taken: Option<Vec<Vec<Lobby>>>)
        requires
            old(self).model().wf(),
        ensures
            final(self).model().wf(),
            taken is None ==> final(self).model() == old(self).model(),
            match selection(old(self).model().sizes(), team_sizes@) {
                None => taken is None,
                Some(teams) => {
                    &&& taken is Some
                    &&& taken->0@.len() == teams.len()
                    &&& forall|t: int|
                        0 <= t < teams.len() ==> (#[trigger] taken->0@[t])@ == picked(
                            old(self).model().lobbies,
                            teams[t],
                        )
                    &&& final(self).model() == old(self).model().without(teams)
                    &&& within(old(self).model().lobbies.len(), teams)
                    &&& apart(teams)
                },
            },
            taken matches Some(groups) ==> {
                &&& groups@.len() == team_sizes@.len()
                &&& forall|t: int|
                    0 <= t < groups@.len() ==> total(sizes_of((#[trigger] groups@[t])@))
                        == team_sizes@[t]
                &&& final(self).model().lobbies.len() + lobby_count(groups@) == old(
                    self,
                ).model().lobbies.len()
            },
    ;
}

/// A plain feed lengthens the normal segment at its end and leaves the priority
/// segment alone; a priority feed lengthens the priority segment at its end and
/// leaves the normal segment alone. A queue is its priority segment followed by
/// its normal segment, so no plainly fed lobby ever stands ahead of one fed with
/// priority.
pub proof fn law_feed_segments(queue: QueueView, lobby: Lobby)
    requires
        queue.wf(),
    ensures
        queue.lobbies == queue.priority_segment() + queue.normal_segment(),
        queue.fed(lobby).wf(),
        queue.fed(lobby).priority_segment() == queue.priority_segment(),
        queue.fed(lobby).normal_segment() == queue.normal_segment().push(lobby),
        queue.fed_priority(lobby).wf(),
        queue.fed_priority(lobby).priority_segment() == queue.priority_segment().push(lobby),
        queue.fed_priority(lobby).normal_segment() == queue.normal_segment(),
{
}

/// Of two lobbies fed with priority one after the other, the first stands right
/// ahead of the second, both behind the lobbies that had priority before and
/// ahead of every lobby of the normal segment, which stays as it was.
pub proof fn law_priority_order(queue: QueueView, first: Lobby, second: Lobby)
    requires
        queue.wf(),
    ensures
        ({
            let after = queue.fed_priority(first).fed_priority(second);
            &&& after.wf()
            &&& after.priority_segment() == queue.priority_segment().push(first).push(second)
            &&& after.normal_segment() == queue.normal_segment()
            &&& after.lobbies == after.priority_segment() + after.normal_segment()
            &&& after.lobbies[queue.priority as int] == first
            &&& after.lobbies[queue.priority as int + 1] == second
        }),
{
    law_feed_segments(queue, first);
    law_feed_segments(queue.fed_priority(first), second);
}

/// Every team that a selection gives adds up to the size asked for it, and
/// there is one team for each size.
pub proof fn law_exact_sum(queue: QueueView, team_sizes: Seq<u32>)
    requires
        selection(queue.sizes(), team_sizes) is Some,
    ensures
        ({
            let teams = selection(queue.sizes(), team_sizes)->0;
            &&& teams.len() == team_sizes.len()
            &&& forall|t: int|
                0 <= t < teams.len() ==> total(
                    sizes_of(picked(queue.lobbies, #[trigger] teams[t])),
                ) == team_sizes[t]
        }),
{
    let teams = selection(queue.sizes(), team_sizes)->0;
    lemma_plan_sound(queue.sizes(), team_sizes);
    assert forall|t: int| 0 <= t < teams.len() implies total(
        sizes_of(picked(queue.lobbies, #[trigger] teams[t])),
    ) == team_sizes[t] by {
        assert(sizes_of(picked(queue.lobbies, teams[t])) == picked(queue.sizes(), teams[t]));
    }
}

/// A selection takes each lobby at most once: the positions of its teams lie in
/// the queue and no two of them are the same, a lobby leaves the queue exactly
/// when its position stands in a team, and the lobbies that stay and those that
/// leave number as many as the queue held.
pub proof fn law_conservation(queue: QueueView, team_sizes: Seq<u32>)
    requires
        queue.wf(),
        selection(queue.sizes(), team_sizes) is Some,
    ensures
        ({
            let teams = selection(queue.sizes(), team_sizes)->0;
            let gone = reserved_by(queue.lobbies.len(), teams);
            &&& within(queue.lobbies.len(), teams)
            &&& apart(teams)
            &&& gone.len() == queue.lobbies.len()
            &&& forall|i: int|
                0 <= i < queue.lobbies.len() ==> #[trigger] gone[i] == (exists|t: int|
                    0 <= t < teams.len() && (#[trigger] teams[t]).contains(i))
            &&& queue.without(teams).wf()
            &&& queue.without(teams).lobbies.len() + position_count(teams)
                == queue.lobbies.len()
        }),
{
    let teams = selection(queue.sizes(), team_sizes)->0;
    let len = queue.lobbies.len();
    let gone = reserved_by(len, teams);
    lemma_plan_sound(queue.sizes(), team_sizes);
    lemma_reserved_by(len, teams);
    lemma_teams_kept(queue.sizes(), team_sizes, teams);
    lemma_remaining_len(queue.lobbies, gone);
    lemma_kept_grows(gone, queue.priority as int, len as int);
}

/// A selection takes exactly the players asked for: those that stay and those
/// asked for make up the players that were queued. So the queue holds at least
/// as many players as any plan needs, and the look at the totals ahead of the
/// searches turns no plan away.
pub proof fn law_players_conserved(queue: QueueView, team_sizes: Seq<u32>)
    ensures
        selection(queue.sizes(), team_sizes) == plan(queue.sizes(), team_sizes),
        selection(queue.sizes(), team_sizes) matches Some(teams) ==> total(
            queue.without(teams).sizes(),
        ) + path_sum(team_sizes) == total(queue.sizes()),
{
    lemma_selection_is_plan(queue.sizes(), team_sizes);
    if selection(queue.sizes(), team_sizes) is Some {
        let teams = selection(queue.sizes(), team_sizes)->0;
        let gone = reserved_by(queue.lobbies.len(), teams);
        lemma_plan_sound(queue.sizes(), team_sizes);
        lemma_reserved_by(queue.lobbies.len(), teams);
        lemma_teams_total(queue.sizes(), team_sizes, teams);
        lemma_remaining_sizes(queue.lobbies, gone, |lobby: Lobby| lobby.size());
    }
}

/// The search for the first team leaves no combination out and prefers the
/// leftmost: where lobbies of the queue at rising positions add up to the
/// first size asked for, the selection gives a team for that size, and that
/// team comes no later than those lobbies in the order of `leftmost`.
pub proof fn law_first_team_leftmost(queue: QueueView, target: u32, team: Seq<int>)
    requires
        fits(
            queue.sizes(),
            reserved_by(queue.lobbies.len(), Seq::empty()),
            0,
            target as nat,
            0,
            team,
        ),
    ensures
        selection(queue.sizes(), seq![target]) matches Some(teams) && teams.len() == 1
            && leftmost(teams[0], team),
{
    let sizes = queue.sizes();
    let team_sizes = seq![target];
    lemma_selection_is_plan(sizes, team_sizes);
    lemma_search_leftmost(
        sizes,
        reserved_by(queue.lobbies.len(), Seq::empty()),
        0,
        target as nat,
        0,
        team,
    );
    assert(team_sizes.drop_last() == Seq::<u32>::empty());
    assert(plan(sizes, team_sizes.drop_last()) == Some(Seq::<Seq<int>>::empty()));
}

} // verus!
