use crate::rating::Rating;
use vstd::prelude::*;

verus! {

/// What a player asks for in one role slot.
#[derive(Debug, Copy, Clone)]
pub enum Role {
    /// Plays the slot with a public rating.
    Ranked(Rating),
    /// Plays the slot with a rating that is known but not shown.
    Unranked(Rating),
    /// Plays the slot in a mode that has no ratings.
    RatingNonApplicable,
    /// Does not play the slot.
    NoSelect,
}

impl Role {
    /// A slot is selected unless it is `NoSelect`.
    pub open spec fn is_selected(self) -> bool {
        !(self is NoSelect)
    }

    /// A slot bears a rating when it is `Ranked` or `Unranked`.
    pub open spec fn bears_rating(self) -> bool {
        self is Ranked || self is Unranked
    }

    /// A slot is rating-free when it is `RatingNonApplicable`.
    pub open spec fn rating_free(self) -> bool {
        self is RatingNonApplicable
    }

    /// Whether the slot is selected.
    pub fn selected(&self) -> (selected: bool)
        ensures
            selected == self.is_selected(),
    {
        !matches!(self, Role::NoSelect)
    }
}

/// A lobby that can be brought down to the roles it really needs.
pub trait ReduceRoles: Sized {
    fn reduced_roles_lobby(&self) -> Self;
}

/// The three role slots of one player: tank, damage and support, in that order.
/// At least one of them is selected.
#[derive(Debug, Copy, Clone)]
pub struct Roles {
    tank: Role,
    damage: Role,
    support: Role,
}

impl View for Roles {
    type V = Seq<Role>;

    closed spec fn view(&self) -> Seq<Role> {
        seq![self.tank, self.damage, self.support]
    }
}

/// Some slot of `slots` is selected.
pub open spec fn some_selected(slots: Seq<Role>) -> bool {
    exists|k: int| 0 <= k < slots.len() && (#[trigger] slots[k]).is_selected()
}

/// Some slot of `slots` bears a rating.
pub open spec fn some_rated(slots: Seq<Role>) -> bool {
    exists|k: int| 0 <= k < slots.len() && (#[trigger] slots[k]).bears_rating()
}

/// Some slot of `slots` is played in a mode without ratings.
pub open spec fn some_rating_free(slots: Seq<Role>) -> bool {
    exists|k: int| 0 <= k < slots.len() && (#[trigger] slots[k]).rating_free()
}

/// A selected slot either bears a rating or is rating-free, so a player with a
/// selected slot shows at least one of the two.
pub proof fn lemma_selected_shows_mode(slots: Seq<Role>)
    requires
        some_selected(slots),
    ensures
        some_rated(slots) || some_rating_free(slots),
{
    let k = choose|k: int| 0 <= k < slots.len() && (#[trigger] slots[k]).is_selected();
    if slots[k].bears_rating() {
    } else {
        assert(slots[k].rating_free());
    }
}

impl Roles {
    /// Three slots, one of them selected.
    #[verifier::type_invariant]
    pub open spec fn wf(self) -> bool {
        self@.len() == 3 && some_selected(self@)
    }

    /// Accepts the three slots unless none of them is selected.
    pub fn new(tank: Role, damage: Role, support: Role) -> (roles: Option<Roles>)
        ensures
            roles is Some <==> some_selected(seq![tank, damage, support]),
            roles matches Some(r) ==> r@ == seq![tank, damage, support],
    {
        let ghost slots = seq![tank, damage, support];
        if !tank.selected() && !damage.selected() && !support.selected() {
            None
        } else {
            proof {
                let k: int = if tank.is_selected() {
                    0
                } else if damage.is_selected() {
                    1
                } else {
                    2
                };
                assert(slots[k].is_selected());
            }
            Some(Roles { tank, damage, support })
        }
    }

    /// Whether any of the three slots bears a rating.
    pub fn rated(&self) -> (rated: bool)
        ensures
            rated == some_rated(self@),
    {
        let found = matches!(self.tank, Role::Ranked(_) | Role::Unranked(_)) || matches!(
            self.damage,
            Role::Ranked(_) | Role::Unranked(_)
        ) || matches!(self.support, Role::Ranked(_) | Role::Unranked(_));
        proof {
            if found {
                let k: int = if self.tank.bears_rating() {
                    0
                } else if self.damage.bears_rating() {
                    1
                } else {
                    2
                };
                assert(self@[k].bears_rating());
            }
        }
        found
    }

    /// Whether any of the three slots is played in a mode without ratings.
    pub fn rating_free(&self) -> (free: bool)
        ensures
            free == some_rating_free(self@),
    {
        let found = matches!(self.tank, Role::RatingNonApplicable) || matches!(
            self.damage,
            Role::RatingNonApplicable
        ) || matches!(self.support, Role::RatingNonApplicable);
        proof {
            if found {
                let k: int = if self.tank.rating_free() {
                    0
                } else if self.damage.rating_free() {
                    1
                } else {
                    2
                };
                assert(self@[k].rating_free());
            }
        }
        found
    }

    /// The tank slot.
    pub fn tank(&self) -> (role: Role)
        ensures
            role == self@[0],
    {
        self.tank
    }

    /// The damage slot.
    pub fn damage(&self) -> (role: Role)
        ensures
            role == self@[1],
    {
        self.damage
    }

    /// The support slot.
    pub fn support(&self) -> (role: Role)
        ensures
            role == self@[2],
    {
        self.support
    }
}

} // verus!
