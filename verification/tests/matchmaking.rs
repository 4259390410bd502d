use ow_role_q::casual_game::CasualGame;
use ow_role_q::prelude::{
    resolved_path, AdmissionError, Game, Lobby, PathResolution, Player, Queue, Rating, Role,
    Roles,
};

fn gen_default_player_lobby(player_number: usize) -> Lobby {
    let players = (0..player_number).map(|_| Player::default()).collect::<Vec<_>>();
    Lobby::new(players).unwrap()
}

fn assert_take_happy_path(game: &mut CasualGame, team_sizes: &[u32]) {
    let initial_queue_len = game.len();
    let r = game.take(team_sizes);
    assert!(r.is_some());
    let r = r.unwrap();
    let taken_out_lobby_count = r.iter().flatten().count();
    assert_eq!(game.len(), initial_queue_len - taken_out_lobby_count);
    assert_eq!(r.len(), team_sizes.len());
    assert!(r.iter().zip(team_sizes).all(|(team, team_size)| {
        team.iter().map(|lobby| lobby.player_count()).sum::<usize>() == *team_size as usize
    }));
}

fn _feed_lobbies(game: &mut CasualGame, team_sizes: &[usize], priority: bool) {
    for lobby_size in team_sizes {
        let lobby = gen_default_player_lobby(*lobby_size);
        let fed = if priority { game.feed_priority(lobby) } else { game.feed(lobby) };
        assert_eq!(fed, Ok(()));
    }
}

fn feed_lobbies(game: &mut CasualGame, team_sizes: &[usize]) {
    _feed_lobbies(game, team_sizes, false);
}

fn feed_lobbies_priority(game: &mut CasualGame, team_sizes: &[usize]) {
    _feed_lobbies(game, team_sizes, true);
}

fn queued_sizes(game: &CasualGame) -> Vec<usize> {
    (0..game.len()).map(|i| game.get(i).unwrap().player_count()).collect()
}

fn team_sizes_of(teams: &[Vec<Lobby>]) -> Vec<Vec<usize>> {
    teams.iter().map(|team| team.iter().map(|lobby| lobby.player_count()).collect()).collect()
}

#[test]
fn casual_game_resolve_paths() {
    assert!(matches!(resolved_path(5, &[5]), PathResolution::Complete));
    assert!(matches!(resolved_path(5, &[1, 1, 1, 1, 1]), PathResolution::Complete));
    assert!(matches!(resolved_path(5, &[1, 1, 1]), PathResolution::Incomplete));
    assert!(matches!(resolved_path(5, &[3, 3]), PathResolution::Nil));
}

#[test]
fn lib_resolve_paths() {
    assert!(matches!(resolved_path(5, &[5]), PathResolution::Complete));
    assert!(matches!(resolved_path(5, &[1, 1, 1, 1, 1]), PathResolution::Complete));
    assert!(matches!(resolved_path(5, &[1, 1, 1]), PathResolution::Incomplete));
    assert!(matches!(resolved_path(5, &[3, 3]), PathResolution::Nil));
}

#[test]
fn resolved_path_does_not_wrap_on_large_sums() {
    assert_eq!(resolved_path(u32::MAX, &[u32::MAX, 1]), PathResolution::Nil);
    assert_eq!(resolved_path(0, &[u32::MAX, u32::MAX, 2]), PathResolution::Nil);
    assert_eq!(resolved_path(u32::MAX, &[u32::MAX - 1, 1]), PathResolution::Complete);
    assert_eq!(resolved_path(0, &[0]), PathResolution::Complete);
}

#[test]
fn test_casual_game_cont_scenario() {
    let mut game = CasualGame::new();

    feed_lobbies(&mut game, &[4, 3, 2, 1]);
    // 4 3 2 1

    assert_take_happy_path(&mut game, &[5, 5]); // -> [4 1] [3 2]
                                                // empty

    feed_lobbies(&mut game, &[3, 4, 4, 1]);
    // 3 4 4 1

    assert_take_happy_path(&mut game, &[5]); // -> [4 1]
                                             // 3 4

    feed_lobbies(&mut game, &[2]);
    // 3 4 2

    assert_take_happy_path(&mut game, &[5]); // -> [3 2]
                                             // 4

    feed_lobbies(&mut game, &[1]);
    // 4 1

    assert_take_happy_path(&mut game, &[5]); // -> [4 1]
                                             // empty

    assert!(game.is_empty());
}

#[test]
fn test_casual_game_no_panic_on_any_lobby_length() {
    let mut game = CasualGame::new();
    // should not panic when queue has lobbies larger in size than
    // any provided requirement for fulfillment
    feed_lobbies(&mut game, &[6]);
    assert!(game.take(&[5]).is_none());
}

#[test]
fn test_priority_queue() {
    let mut game = CasualGame::new();

    feed_lobbies(&mut game, &[1]);
    // 1
    feed_lobbies_priority(&mut game, &[2]);
    // 2 1
    feed_lobbies_priority(&mut game, &[3]);
    // 2 3 1
    game.take(&[5]); // -> [2 3]
                     // 1
    game.take(&[1]); // -> [1]
                     // empty
    assert!(game.is_empty());
}

#[test]
fn test_casual_game() {
    let mut game = CasualGame::new();

    assert_eq!(game.feed(gen_default_player_lobby(4)), Ok(()));
    assert_eq!(game.feed(gen_default_player_lobby(3)), Ok(()));
    assert_eq!(game.feed(gen_default_player_lobby(2)), Ok(()));
    assert_eq!(game.feed(gen_default_player_lobby(1)), Ok(()));

    assert!(game.len() == 4);
    assert!(game.take(&[5, 5]).is_some());
    assert!(game.len() == 0);
}

#[test]
fn take_two_teams_of_five_empties_the_queue() {
    let mut game = CasualGame::new();
    feed_lobbies(&mut game, &[4, 3, 2, 1]);
    let teams = game.take(&[5, 5]).unwrap();
    assert_eq!(team_sizes_of(&teams), vec![vec![4, 1], vec![3, 2]]);
    assert!(game.is_empty());
    assert_eq!(game.priority_len(), 0);
}

#[test]
fn take_prefers_the_leftmost_combination() {
    let mut game = CasualGame::new();
    feed_lobbies(&mut game, &[3, 4, 4, 1]);
    let teams = game.take(&[5]).unwrap();
    assert_eq!(team_sizes_of(&teams), vec![vec![4, 1]]);
    assert_eq!(queued_sizes(&game), vec![3, 4]);
}

#[test]
fn take_leaves_the_queue_alone_when_nothing_fits() {
    let mut game = CasualGame::new();
    feed_lobbies_priority(&mut game, &[6]);
    feed_lobbies(&mut game, &[6]);
    assert!(game.take(&[5]).is_none());
    assert_eq!(queued_sizes(&game), vec![6, 6]);
    assert_eq!(game.priority_len(), 1);
    assert!(game.take(&[6, 5]).is_none());
    assert_eq!(queued_sizes(&game), vec![6, 6]);
    assert_eq!(game.priority_len(), 1);
}

#[test]
fn priority_lobbies_stand_ahead_in_their_own_order() {
    let mut game = CasualGame::new();
    feed_lobbies(&mut game, &[1]);
    feed_lobbies_priority(&mut game, &[2]);
    feed_lobbies_priority(&mut game, &[3]);
    assert_eq!(queued_sizes(&game), vec![2, 3, 1]);
    assert_eq!(game.priority_len(), 2);
    let teams = game.take(&[5]).unwrap();
    assert_eq!(team_sizes_of(&teams), vec![vec![2, 3]]);
    assert_eq!(queued_sizes(&game), vec![1]);
    assert_eq!(game.priority_len(), 0);
    feed_lobbies_priority(&mut game, &[4]);
    assert_eq!(queued_sizes(&game), vec![4, 1]);
    assert_eq!(game.priority_len(), 1);
}

#[test]
fn take_from_an_empty_queue_finds_nothing() {
    let mut game = CasualGame::new();
    assert!(game.take(&[1]).is_none());
    assert!(game.is_empty());
    assert_eq!(game.take(&[]).map(|teams| teams.len()), Some(0));
}

#[test]
fn take_is_greedy_team_by_team() {
    // [2] and [1] would serve both teams, but the first search settles on [1 1]
    let mut game = CasualGame::new();
    feed_lobbies(&mut game, &[1, 1, 2]);
    assert!(game.take(&[2, 1]).is_none());
    assert_eq!(queued_sizes(&game), vec![1, 1, 2]);
    let teams = game.take(&[1, 2]).unwrap();
    assert_eq!(team_sizes_of(&teams), vec![vec![1], vec![2]]);
    assert_eq!(queued_sizes(&game), vec![1]);
}

#[test]
fn take_follows_a_path_three_lobbies_deep() {
    let mut game = CasualGame::new();
    feed_lobbies(&mut game, &[1, 1, 3]);
    let teams = game.take(&[5]).unwrap();
    assert_eq!(team_sizes_of(&teams), vec![vec![1, 1, 3]]);
    assert!(game.is_empty());
}

#[test]
fn take_backtracks_out_of_a_dead_end() {
    let mut game = CasualGame::new();
    feed_lobbies(&mut game, &[2, 2, 4, 3]);
    // 2 -> 2 -> (4 over, 3 over); 2 -> 4 over; 2 -> 3 exact
    let teams = game.take(&[5]).unwrap();
    assert_eq!(team_sizes_of(&teams), vec![vec![2, 3]]);
    assert_eq!(queued_sizes(&game), vec![2, 4]);
}

#[test]
fn take_counts_down_the_priority_segment() {
    let mut game = CasualGame::new();
    feed_lobbies_priority(&mut game, &[3, 2, 3]);
    feed_lobbies(&mut game, &[2, 1]);
    assert_eq!(game.priority_len(), 3);
    // 3 2 3 | 2 1: the first team is [3 2], the second [3 2] of what is left
    let teams = game.take(&[5, 5]).unwrap();
    assert_eq!(team_sizes_of(&teams), vec![vec![3, 2], vec![3, 2]]);
    assert_eq!(queued_sizes(&game), vec![1]);
    assert_eq!(game.priority_len(), 0);
}

#[test]
fn take_keeps_the_priority_lobbies_that_stay() {
    let mut game = CasualGame::new();
    feed_lobbies_priority(&mut game, &[4, 2]);
    feed_lobbies(&mut game, &[3, 1]);
    // 4 2 | 3 1: a team of 3 is [2 1]
    let teams = game.take(&[3]).unwrap();
    assert_eq!(team_sizes_of(&teams), vec![vec![2, 1]]);
    assert_eq!(queued_sizes(&game), vec![4, 3]);
    assert_eq!(game.priority_len(), 1);
}

#[test]
fn take_of_size_zero_finds_nothing() {
    let mut game = CasualGame::new();
    feed_lobbies(&mut game, &[1]);
    assert!(game.take(&[0]).is_none());
    assert_eq!(queued_sizes(&game), vec![1]);
}

#[test]
fn casual_game_admits_every_lobby() {
    let game = CasualGame::new();
    let lobby = gen_default_player_lobby(9);
    assert!(game.valid_lobby(&lobby));
    let reduced = game.reduced_roles_lobby(&lobby);
    assert_eq!(reduced.player_count(), 9);
    assert!(game.get(0).is_none());
    assert_ne!(Err::<(), AdmissionError>(AdmissionError::InvalidAdmission), Ok(()));
}

#[test]
fn take_of_a_lobby_that_is_too_large_changes_nothing() {
    let mut game = CasualGame::new();
    feed_lobbies(&mut game, &[6]);
    assert!(game.take(&[5]).is_none());
    assert_eq!(queued_sizes(&game), vec![6]);
    assert_eq!(game.priority_len(), 0);
}

#[test]
fn capped_queue_refuses_larger_lobbies() {
    let mut game = CasualGame::with_size_cap(3);
    assert!(game.valid_lobby(&gen_default_player_lobby(3)));
    assert!(!game.valid_lobby(&gen_default_player_lobby(4)));
    assert_eq!(game.feed(gen_default_player_lobby(3)), Ok(()));
    assert_eq!(game.feed(gen_default_player_lobby(4)), Err(AdmissionError::InvalidAdmission));
    assert_eq!(
        game.feed_priority(gen_default_player_lobby(5)),
        Err(AdmissionError::InvalidAdmission)
    );
    assert_eq!(game.feed_priority(gen_default_player_lobby(1)), Ok(()));
    assert_eq!(queued_sizes(&game), vec![1, 3]);
    assert_eq!(game.priority_len(), 1);
    let teams = game.take(&[4]).unwrap();
    assert_eq!(team_sizes_of(&teams), vec![vec![1, 3]]);
    assert_eq!(game.feed(gen_default_player_lobby(4)), Err(AdmissionError::InvalidAdmission));
    assert!(game.is_empty());
}

#[test]
fn returned_lobbies_are_the_queued_ones() {
    let mut game = CasualGame::new();
    let roles = Roles::new(Role::Ranked(Rating::new(42).unwrap()), Role::NoSelect, Role::NoSelect);
    let ranked = Lobby::new(vec![Player { roles: roles.unwrap() }]).unwrap();
    assert_eq!(game.feed(gen_default_player_lobby(1)), Ok(()));
    assert_eq!(game.feed(ranked), Ok(()));
    assert_eq!(game.feed(gen_default_player_lobby(1)), Ok(()));
    // the first team takes the head, the second the ranked lobby behind it
    let teams = game.take(&[1, 1]).unwrap();
    assert!(!teams[0][0].rating_applicable());
    assert!(teams[1][0].rating_applicable());
    assert_eq!(game.len(), 1);
    assert!(!game.get(0).unwrap().rating_applicable());
}

#[test]
fn take_of_more_players_than_wait_finds_nothing() {
    let mut game = CasualGame::new();
    feed_lobbies(&mut game, &[2]);
    feed_lobbies_priority(&mut game, &[1]);
    assert!(game.take(&[4]).is_none());
    assert!(game.take(&[1, 2, 1]).is_none());
    assert_eq!(queued_sizes(&game), vec![1, 2]);
    assert_eq!(game.priority_len(), 1);
}
