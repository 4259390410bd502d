use crate::lobby::Lobby;
use crate::player::Player;
use crate::roles::Role;
use vstd::prelude::*;

verus! {

/// The role-queue mode: a team is one tank, two damage and two support players,
/// and a lobby is admitted when its players can share such a team.
pub struct OneTwoTwoGame {}

/// The largest lobby the mode admits.
pub const TEAM_SIZE: u32 = 5;

/// How many players of a team may play slot `slot` (0 tank, 1 damage, 2 support).
pub open spec fn seats(slot: u32) -> nat {
    if slot == 0 {
        1
    } else if slot == 1 || slot == 2 {
        2
    } else {
        0
    }
}

/// The numbers of the selected slots of one player, in rising order.
pub open spec fn slot_row(slots: Seq<Role>) -> Seq<u32> {
    (if slots[0].is_selected() {
        seq![0u32]
    } else {
        Seq::<u32>::empty()
    }) + (if slots[1].is_selected() {
        seq![1u32]
    } else {
        Seq::<u32>::empty()
    }) + (if slots[2].is_selected() {
        seq![2u32]
    } else {
        Seq::<u32>::empty()
    })
}

/// The rows of selected slots of `players`, one row for each player.
pub open spec fn slot_rows(players: Seq<Player>) -> Seq<Seq<u32>> {
    players.map_values(|player: Player| slot_row(player.roles@))
}

/// How often `slot` is picked in `picks`.
pub open spec fn times_picked(picks: Seq<u32>, slot: u32) -> nat
    decreases picks.len(),
{
    if picks.len() == 0 {
        0
    } else {
        times_picked(picks.drop_last(), slot) + if picks.last() == slot {
            1nat
        } else {
            0nat
        }
    }
}

/// `picks` gives every player one of the slots of their row and fills no slot
/// beyond its seats.
pub open spec fn covers(rows: Seq<Seq<u32>>, picks: Seq<u32>) -> bool {
    &&& picks.len() == rows.len()
    &&& forall|i: int| 0 <= i < rows.len() ==> (#[trigger] rows[i]).contains(picks[i])
    &&& forall|slot: u32| #[trigger] times_picked(picks, slot) <= seats(slot)
}

/// The mode admits a group of one to five players who can share a team.
pub open spec fn shares_team(players: Seq<Player>) -> bool {
    &&& 1 <= players.len() <= TEAM_SIZE
    &&& exists|picks: Seq<u32>| covers(slot_rows(players), picks)
}

/// A single player can take any slot they selected.
pub proof fn lemma_solo_shares_team(players: Seq<Player>)
    requires
        players.len() == 1,
        players[0].roles.wf(),
    ensures
        shares_team(players),
{
    let slots = players[0].roles@;
    let k = choose|k: int| 0 <= k < slots.len() && (#[trigger] slots[k]).is_selected();
    let row = slot_row(slots);
    let picks = seq![k as u32];
    if k == 0 {
        assert(row[0] == 0u32);
    } else if k == 1 {
        assert(row[row.len() - 1 - (if slots[2].is_selected() {
            1int
        } else {
            0int
        })] == 1u32);
    } else {
        assert(row[row.len() - 1] == 2u32);
    }
    assert(row.contains(k as u32));
    assert(slot_rows(players)[0] == row);
    assert forall|slot: u32| #[trigger] times_picked(picks, slot) <= seats(slot) by {
        assert(picks.drop_last().len() == 0);
        assert(times_picked(picks.drop_last(), slot) == 0);
        assert(picks.last() == k as u32);
    }
    assert(covers(slot_rows(players), picks));
}

impl OneTwoTwoGame {
    /// The selected slots of each player of the lobby, by number.
    pub fn slot_rows(&self, lobby: &Lobby) -> (rows: Vec<Vec<u32>>)
        ensures
            rows@.len() == lobby@.len(),
            forall|i: int| 0 <= i < rows@.len() ==> (#[trigger] rows@[i])@ == slot_row(
                lobby@[i].roles@,
            ),
    {
        let players = lobby.players();
        let mut rows: Vec<Vec<u32>> = Vec::new();
        let mut i: usize = 0;
        while i < players.len()
            invariant
                i <= players@.len(),
                players@ == lobby@,
                rows@.len() == i,
                forall|j: int| 0 <= j < i ==> (#[trigger] rows@[j])@ == slot_row(
                    lobby@[j].roles@,
                ),
            decreases players@.len() - i,
        {
            let roles = players[i].roles;
            let mut row: Vec<u32> = Vec::new();
            if roles.tank().selected() {
                row.push(0);
            }
            if roles.damage().selected() {
                row.push(1);
            }
            if roles.support().selected() {
                row.push(2);
            }
            assert(row@ == slot_row(roles@));
            rows.push(row);
            i = i + 1;
        }
        rows
    }

    /// Decides the lobbies whose size alone settles the matter: a single player
    /// is admitted, more than five players are not.
    pub fn valid_lobby(&self, lobby: &Lobby) -> (valid: bool)
        requires
            lobby.size() == 1 || lobby.size() > TEAM_SIZE,
        ensures
            valid == shares_team(lobby@),
    {
        let players = lobby.players();
        if players.len() == 1 {
            proof {
                lemma_solo_shares_team(players@);
            }
            return true;
        }
        false
    }
}

} // verus!
