use crate::roles::{Role, Roles};
use vstd::prelude::*;

verus! {

/// One player, known by the roles they ask for.
#[derive(Debug, Copy, Clone)]
pub struct Player {
    pub roles: Roles,
}

impl Default for Player {
    /// A player who selects every slot in a mode without ratings.
    fn default() -> (player: Player)
        ensures
            player.roles@ == seq![
                Role::RatingNonApplicable,
                Role::RatingNonApplicable,
                Role::RatingNonApplicable,
            ],
    {
        let ghost slots = seq![
            Role::RatingNonApplicable,
            Role::RatingNonApplicable,
            Role::RatingNonApplicable,
        ];
        assert(slots[0].is_selected());
        let roles = Roles::new(
            Role::RatingNonApplicable,
            Role::RatingNonApplicable,
            Role::RatingNonApplicable,
        );
        Player { roles: roles.unwrap() }
    }
}

} // verus!
