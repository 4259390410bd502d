//! The names that most users of the crate need.

pub use crate::casual_game::CasualGame;
pub use crate::game::Game;
pub use crate::lobby::Lobby;
pub use crate::one_two_two_game::OneTwoTwoGame;
pub use crate::partition::{resolved_path, PathResolution};
pub use crate::player::Player;
pub use crate::queue::{AdmissionError, Queue};
pub use crate::rating::Rating;
pub use crate::roles::{ReduceRoles, Role, Roles};
pub use crate::tree::{build_tree, Tree};
