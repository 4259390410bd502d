use crate::player::Player;
use crate::roles::{lemma_selected_shows_mode, some_rated, some_rating_free, Role};
use vstd::prelude::*;

verus! {

/// Among the first `n` players, someone has a slot that bears a rating.
pub open spec fn rated_before(players: Seq<Player>, n: int) -> bool {
    exists|i: int| 0 <= i < n && i < players.len() && some_rated(#[trigger] players[i].roles@)
}

/// Among the first `n` players, someone has a rating-free slot.
pub open spec fn rating_free_before(players: Seq<Player>, n: int) -> bool {
    exists|i: int|
        0 <= i < n && i < players.len() && some_rating_free(#[trigger] players[i].roles@)
}

/// Someone in the group has a slot that bears a rating.
pub open spec fn any_rated(players: Seq<Player>) -> bool {
    rated_before(players, players.len() as int)
}

/// Someone in the group has a rating-free slot.
pub open spec fn any_rating_free(players: Seq<Player>) -> bool {
    rating_free_before(players, players.len() as int)
}

/// A group of players forms a lobby when it is not empty and its selected slots
/// do not mix slots that bear a rating with rating-free ones.
pub open spec fn forms_lobby(players: Seq<Player>) -> bool {
    players.len() >= 1 && !(any_rated(players) && any_rating_free(players))
}

/// Every selected slot of every player meets `wanted`.
pub open spec fn every_selected(players: Seq<Player>, wanted: spec_fn(Role) -> bool) -> bool {
    forall|i: int, k: int|
        0 <= i < players.len() && 0 <= k < players[i].roles@.len() && (
        #[trigger] players[i].roles@[k]).is_selected() ==> wanted(players[i].roles@[k])
}

/// A group forms a lobby exactly when it is not empty and its selected slots
/// are of one mode: every one of them bears a rating, or every one is
/// rating-free.
pub proof fn lemma_forms_lobby_one_mode(players: Seq<Player>)
    ensures
        forms_lobby(players) <==> players.len() >= 1 && (every_selected(
            players,
            |role: Role| role.bears_rating(),
        ) || every_selected(players, |role: Role| role.rating_free())),
{
    let rated = |role: Role| role.bears_rating();
    let free = |role: Role| role.rating_free();
    if any_rated(players) {
        let i = choose|i: int|
            0 <= i < players.len() && some_rated(#[trigger] players[i].roles@);
        let k = choose|k: int|
            0 <= k < players[i].roles@.len() && (#[trigger] players[i].roles@[k]).bears_rating();
        assert(players[i].roles@[k].is_selected() && !free(players[i].roles@[k]));
    }
    if any_rating_free(players) {
        let i = choose|i: int|
            0 <= i < players.len() && some_rating_free(#[trigger] players[i].roles@);
        let k = choose|k: int|
            0 <= k < players[i].roles@.len() && (#[trigger] players[i].roles@[k]).rating_free();
        assert(players[i].roles@[k].is_selected() && !rated(players[i].roles@[k]));
    }
    if !any_rating_free(players) {
        assert forall|i: int, k: int|
            0 <= i < players.len() && 0 <= k < players[i].roles@.len() && (
            #[trigger] players[i].roles@[k]).is_selected() implies rated(
            players[i].roles@[k],
        ) by {
            if players[i].roles@[k].rating_free() {
                assert(some_rating_free(players[i].roles@));
            }
        }
    }
    if !any_rated(players) {
        assert forall|i: int, k: int|
            0 <= i < players.len() && 0 <= k < players[i].roles@.len() && (
            #[trigger] players[i].roles@[k]).is_selected() implies free(
            players[i].roles@[k],
        ) by {
            if players[i].roles@[k].bears_rating() {
                assert(some_rated(players[i].roles@));
            }
        }
    }
}

/// The player counts of `lobbies`, in their order.
pub open spec fn sizes_of(lobbies: Seq<Lobby>) -> Seq<nat> {
    lobbies.map_values(|lobby: Lobby| lobby.size())
}

/// Puts the players of `more` behind those of `players`.
fn push_all(players: &mut Vec<Player>, more: &Vec<Player>)
    ensures
        final(players)@ == old(players)@ + more@,
{
    let mut i: usize = 0;
    while i < more.len()
        invariant
            i <= more@.len(),
            players@ == old(players)@ + more@.take(i as int),
        decreases more@.len() - i,
    {
        players.push(more[i]);
        assert(more@.take(i + 1) == more@.take(i as int).push(more@[i as int]));
        i = i + 1;
    }
    assert(more@.take(more@.len() as int) == more@);
}

/// A group of players who queue together.
#[derive(Debug)]
pub struct Lobby {
    players: Vec<Player>,
    rating: bool,
}

impl View for Lobby {
    type V = Seq<Player>;

    closed spec fn view(&self) -> Seq<Player> {
        self.players@
    }
}

impl Lobby {
    /// Whether the lobby's slots bear ratings, as recorded when it was made.
    pub closed spec fn rating_flag(self) -> bool {
        self.rating
    }

    /// The number of players, as a number of the model.
    pub open spec fn size(self) -> nat {
        self@.len()
    }

    /// The players form a lobby, each of them has a selected slot, and the
    /// recorded flag says whether their slots bear ratings.
    #[verifier::type_invariant]
    pub open spec fn wf(self) -> bool {
        &&& forms_lobby(self@)
        &&& self.rating_flag() == any_rated(self@)
        &&& forall|i: int| 0 <= i < self@.len() ==> (#[trigger] self@[i]).roles.wf()
    }

    /// The number of players, which is at least one.
    pub fn player_count(&self) -> (count: usize)
        ensures
            count == self.size(),
            count >= 1,
    {
        proof {
            use_type_invariant(self);
        }
        self.players.len()
    }

    /// Whether the lobby has no player, which no lobby does.
    pub fn empty(&self) -> (empty: bool)
        ensures
            empty == (self.size() == 0),
            !empty,
    {
        self.player_count() == 0
    }

    /// Whether the lobby is a single player.
    pub fn solo(&self) -> (solo: bool)
        ensures
            solo == (self.size() == 1),
    {
        self.player_count() == 1
    }

    /// Whether the lobby's slots bear ratings.
    pub fn rating_applicable(&self) -> (applicable: bool)
        ensures
            applicable == self.rating_flag(),
            applicable == any_rated(self@),
            applicable == !any_rating_free(self@),
    {
        proof {
            use_type_invariant(self);
            lemma_shows_mode(self@);
        }
        self.rating
    }

    /// The players of the lobby, in the order in which they were given: they
    /// form a lobby, and each of them has a selected slot.
    pub fn players(&self) -> (players: &Vec<Player>)
        ensures
            players@ == self@,
            forms_lobby(self@),
            forall|i: int| 0 <= i < self@.len() ==> (#[trigger] self@[i]).roles.wf(),
    {
        proof {
            use_type_invariant(self);
        }
        &self.players
    }

    /// Makes a lobby of `players` exactly when they form one: the group is not
    /// empty and does not mix slots that bear a rating with rating-free slots.
    pub fn new(players: Vec<Player>) -> (lobby: Option<Lobby>)
        ensures
            lobby is Some <==> forms_lobby(players@),
            lobby matches Some(l) ==> l@ == players@ && l.rating_flag() == any_rated(players@),
    {
        let mut rating: Option<bool> = None;
        let n: usize = players.len();
        let mut i: usize = 0;
        while i < n
            invariant
                i <= n,
                n == players@.len(),
                i > 0 ==> rating is Some,
                forall|j: int| 0 <= j < i ==> (#[trigger] players@[j]).roles.wf(),
                rating is None ==> !rated_before(players@, i as int) && !rating_free_before(
                    players@,
                    i as int,
                ),
                rating == Some(true) ==> rated_before(players@, i as int) && !rating_free_before(
                    players@,
                    i as int,
                ),
                rating == Some(false) ==> !rated_before(players@, i as int) && rating_free_before(
                    players@,
                    i as int,
                ),
            decreases n - i,
        {
            let roles = players[i].roles;
            proof {
                use_type_invariant(&roles);
                lemma_selected_shows_mode(roles@);
            }
            let ghost here = i as int;
            assert(players@[here].roles@ == roles@);
            if roles.rated() {
                match rating {
                    None => {
                        rating = Some(true);
                    },
                    Some(true) => {},
                    Some(false) => {
                        return None;
                    },
                }
            }
            if roles.rating_free() {
                match rating {
                    None => {
                        rating = Some(false);
                    },
                    Some(true) => {
                        return None;
                    },
                    Some(false) => {},
                }
            }
            i = i + 1;
        }
        match rating {
            None => None,
            Some(applicable) => Some(Lobby { players, rating: applicable }),
        }
    }

    /// Joins two lobbies of the same rating mode into one, the players of `self` first.
    pub fn merge(&self, other: &Lobby) -> (merged: Lobby)
        requires
            self.rating_flag() == other.rating_flag(),
        ensures
            merged@ == self@ + other@,
            merged.rating_flag() == self.rating_flag(),
    {
        proof {
            use_type_invariant(self);
            use_type_invariant(other);
            lemma_shows_mode(self@);
            lemma_shows_mode(other@);
        }
        let mut joined_players: Vec<Player> = Vec::new();
        push_all(&mut joined_players, &self.players);
        push_all(&mut joined_players, &other.players);
        assert(joined_players@ == self@ + other@);
        proof {
            lemma_joined_modes(self@, other@);
        }
        let merged = Lobby::new(joined_players);
        merged.unwrap()
    }
}

impl Clone for Lobby {
    /// A lobby of the same players in the same order.
    fn clone(&self) -> (copy: Lobby)
        ensures
            copy@ == self@,
            copy.rating_flag() == self.rating_flag(),
    {
        proof {
            use_type_invariant(self);
        }
        let mut players: Vec<Player> = Vec::new();
        push_all(&mut players, &self.players);
        assert(players@ == self@);
        Lobby { players, rating: self.rating }
    }
}

/// A group that is not empty shows a mode: someone has a slot that bears a rating
/// or a rating-free slot, because every player has a selected slot.
pub proof fn lemma_shows_mode(players: Seq<Player>)
    requires
        players.len() >= 1,
        forall|i: int| 0 <= i < players.len() ==> (#[trigger] players[i]).roles.wf(),
    ensures
        any_rated(players) || any_rating_free(players),
{
    lemma_selected_shows_mode(players[0].roles@);
}

/// What a joined group shows is what either part shows.
pub proof fn lemma_joined_modes(a: Seq<Player>, b: Seq<Player>)
    ensures
        any_rated(a + b) == (any_rated(a) || any_rated(b)),
        any_rating_free(a + b) == (any_rating_free(a) || any_rating_free(b)),
{
    let ab = a + b;
    assert forall|i: int| 0 <= i < ab.len() implies (#[trigger] ab[i]) == (if i < a.len() {
        a[i]
    } else {
        b[i - a.len()]
    }) by {}
    if any_rated(a) {
        let i = choose|i: int| 0 <= i < a.len() && some_rated(#[trigger] a[i].roles@);
        assert(some_rated(ab[i].roles@));
    }
    if any_rated(b) {
        let i = choose|i: int| 0 <= i < b.len() && some_rated(#[trigger] b[i].roles@);
        assert(some_rated(ab[i + a.len()].roles@));
    }
    if any_rated(ab) {
        let i = choose|i: int| 0 <= i < ab.len() && some_rated(#[trigger] ab[i].roles@);
        if i < a.len() {
            assert(some_rated(a[i].roles@));
        } else {
            assert(some_rated(b[i - a.len()].roles@));
        }
    }
    if any_rating_free(a) {
        let i = choose|i: int| 0 <= i < a.len() && some_rating_free(#[trigger] a[i].roles@);
        assert(some_rating_free(ab[i].roles@));
    }
    if any_rating_free(b) {
        let i = choose|i: int| 0 <= i < b.len() && some_rating_free(#[trigger] b[i].roles@);
        assert(some_rating_free(ab[i + a.len()].roles@));
    }
    if any_rating_free(ab) {
        let i = choose|i: int| 0 <= i < ab.len() && some_rating_free(#[trigger] ab[i].roles@);
        if i < a.len() {
            assert(some_rating_free(a[i].roles@));
        } else {
            assert(some_rating_free(b[i - a.len()].roles@));
        }
    }
}

} // verus!
