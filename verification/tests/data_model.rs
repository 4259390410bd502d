use ow_role_q::prelude::{Lobby, Player, Rating, Role, Roles};
use rand::rngs::ThreadRng;
use rand::seq::SliceRandom;

fn pick_random<T>(rng: &mut ThreadRng, value: &[T]) -> T
where
    T: Copy,
{
    *value.choose_multiple(rng, 1).next().unwrap()
}

fn rating(value: u32) -> Rating {
    Rating::new(value).unwrap()
}

fn create_composition() {
    let mut rng = rand::thread_rng();
    let ratings = (Rating::MIN..=Rating::MAX).collect::<Vec<_>>();

    let mut random_rating_value = || pick_random(&mut rng, &ratings);
    let mut random_rating = || {
        Rating::new(random_rating_value())
            .expect("must not fail because random rating value is in valid range")
    };

    let player = Player {
        roles: Roles::new(
            Role::Ranked(random_rating()),
            Role::Ranked(rating(Rating::MAX)),
            Role::Ranked(rating(Rating::MIN)),
        )
        .expect("all ranked, so valid comb"),
    };

    let lobby = Lobby::new(vec![player]).unwrap();
    assert_eq!(lobby.player_count(), 1);
    assert!(lobby.rating_applicable());
}

#[test]
fn lib_test_create_composition() {
    create_composition();
}

#[test]
fn lobby_test_create_composition() {
    create_composition();
}

#[test]
fn lib_empty_lobby() {
    assert!(Lobby::new(vec![]).is_none());
}

#[test]
fn lobby_empty_lobby() {
    assert!(Lobby::new(vec![]).is_none());
}

#[test]
fn lib_no_roles_selected() {
    assert!(Roles::new(Role::NoSelect, Role::NoSelect, Role::NoSelect).is_none());
}

#[test]
fn roles_no_roles_selected() {
    assert!(Roles::new(Role::NoSelect, Role::NoSelect, Role::NoSelect).is_none());
}

#[test]
fn lib_invalid_rating_value() {
    assert!(Rating::new(5001).is_none());
}

#[test]
fn rating_invalid_rating_value() {
    assert!(Rating::new(5001).is_none());
}

#[test]
fn lib_cmp_rating() {
    assert!(rating(Rating::MAX) > rating(Rating::MIN));
    assert!(rating(Rating::MAX) == rating(Rating::MAX));
}

#[test]
fn rating_cmp_rating() {
    assert!(rating(Rating::MAX) > rating(Rating::MIN));
    assert!(rating(Rating::MAX) == rating(Rating::MAX));
}

#[test]
fn rating_bounds_are_accepted() {
    assert_eq!(Rating::new(0).unwrap().value(), 0);
    assert_eq!(Rating::new(5000).unwrap().value(), 5000);
    assert_eq!(Rating::new(2500).unwrap().value(), 2500);
    assert!(Rating::new(u32::MAX).is_none());
    assert!(rating(17) < rating(18));
}

#[test]
fn role_selected_unless_no_select() {
    assert!(Role::Ranked(rating(1)).selected());
    assert!(Role::Unranked(rating(1)).selected());
    assert!(Role::RatingNonApplicable.selected());
    assert!(!Role::NoSelect.selected());
}

#[test]
fn roles_keep_their_slots() {
    let roles = Roles::new(Role::NoSelect, Role::Ranked(rating(7)), Role::NoSelect).unwrap();
    assert!(matches!(roles.tank(), Role::NoSelect));
    assert!(matches!(roles.damage(), Role::Ranked(r) if r.value() == 7));
    assert!(matches!(roles.support(), Role::NoSelect));
    assert!(roles.rated());
    assert!(!roles.rating_free());
    let free = Roles::new(Role::RatingNonApplicable, Role::NoSelect, Role::NoSelect).unwrap();
    assert!(!free.rated());
    assert!(free.rating_free());
}

#[test]
fn default_player_selects_all_slots_without_rating() {
    let player = Player::default();
    assert!(matches!(player.roles.tank(), Role::RatingNonApplicable));
    assert!(matches!(player.roles.damage(), Role::RatingNonApplicable));
    assert!(matches!(player.roles.support(), Role::RatingNonApplicable));
}

fn ranked_player() -> Player {
    Player { roles: Roles::new(Role::Ranked(rating(100)), Role::NoSelect, Role::NoSelect).unwrap() }
}

fn unranked_player() -> Player {
    let roles = Roles::new(Role::NoSelect, Role::Unranked(rating(200)), Role::NoSelect);
    Player { roles: roles.unwrap() }
}

#[test]
fn lobby_rejects_mixed_rating_modes() {
    assert!(Lobby::new(vec![ranked_player(), Player::default()]).is_none());
    assert!(Lobby::new(vec![Player::default(), unranked_player()]).is_none());
    let mixed_in_one = Player {
        roles: Roles::new(Role::Ranked(rating(1)), Role::RatingNonApplicable, Role::NoSelect)
            .unwrap(),
    };
    assert!(Lobby::new(vec![mixed_in_one]).is_none());
}

#[test]
fn lobby_accepts_one_rating_mode() {
    let rated = Lobby::new(vec![ranked_player(), unranked_player()]).unwrap();
    assert!(rated.rating_applicable());
    assert_eq!(rated.player_count(), 2);
    assert!(!rated.solo());
    assert!(!rated.empty());
    let free = Lobby::new(vec![Player::default()]).unwrap();
    assert!(!free.rating_applicable());
    assert_eq!(free.player_count(), 1);
    assert!(free.solo());
    assert_eq!(free.players().len(), 1);
}

#[test]
fn lobby_merge_joins_players_in_order() {
    let a = Lobby::new(vec![ranked_player()]).unwrap();
    let b = Lobby::new(vec![unranked_player(), ranked_player()]).unwrap();
    let merged = a.merge(&b);
    assert_eq!(merged.player_count(), 3);
    assert!(merged.rating_applicable());
    assert!(matches!(merged.players()[0].roles.tank(), Role::Ranked(_)));
    assert!(matches!(merged.players()[1].roles.damage(), Role::Unranked(_)));
    assert!(matches!(merged.players()[2].roles.tank(), Role::Ranked(_)));
    let copy = merged.clone();
    assert_eq!(copy.player_count(), 3);
    assert!(copy.rating_applicable());
}
