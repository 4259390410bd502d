use crate::lobby::Lobby;
use crate::player::Player;
use vstd::prelude::*;

verus! {

/// The rules of one game mode on the lobbies it lets into its queue.
pub trait Game {
    /// Whether the mode admits `lobby`.
    spec fn admissible(&self, lobby: &Lobby) -> bool;

    /// Decides whether the mode admits `lobby`.
    fn valid_lobby(&self, lobby: &Lobby) -> (valid: bool)
        ensures
            valid == self.admissible(lobby),
    ;

    /// The players of `lobby` with the slots that the mode leaves them.
    spec fn reduced_roles(&self, lobby: &Lobby) -> Seq<Player>;

    /// The lobby with the slots that the mode leaves its players.
    fn reduced_roles_lobby(&self, lobby: &Lobby) -> (reduced: Lobby)
        ensures
            reduced@ == self.reduced_roles(lobby),
    ;
}

} // verus!
