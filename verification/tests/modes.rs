use ow_role_q::prelude::{build_tree, Lobby, OneTwoTwoGame, Player, Role, Roles, Tree};

fn free_player(tank: bool, damage: bool, support: bool) -> Player {
    let slot = |on: bool| if on { Role::RatingNonApplicable } else { Role::NoSelect };
    Player { roles: Roles::new(slot(tank), slot(damage), slot(support)).unwrap() }
}

#[test]
fn one_two_two_admits_a_single_player() {
    let game = OneTwoTwoGame {};
    let lobby = Lobby::new(vec![free_player(false, false, true)]).unwrap();
    assert!(game.valid_lobby(&lobby));
}

#[test]
fn one_two_two_refuses_more_than_five_players() {
    let game = OneTwoTwoGame {};
    let lobby = Lobby::new(vec![free_player(true, true, true); 6]).unwrap();
    assert!(!game.valid_lobby(&lobby));
}

#[test]
fn one_two_two_rows_hold_the_selected_slots() {
    let game = OneTwoTwoGame {};
    let lobby = Lobby::new(vec![
        free_player(true, false, true),
        free_player(false, true, false),
        free_player(true, true, true),
    ])
    .unwrap();
    assert_eq!(game.slot_rows(&lobby), vec![vec![0, 2], vec![1], vec![0, 1, 2]]);
}

fn count_nodes(tree: &Tree) -> u64 {
    let Tree::Child(children) = tree;
    1 + children.values().map(|child| count_nodes(child)).sum::<u64>()
}

#[test]
fn tree_for_nobody_is_a_leaf() {
    let Tree::Child(children) = build_tree(0);
    assert!(children.is_empty());
}

#[test]
fn tree_has_a_child_for_each_lobby_size() {
    let tree = build_tree(4);
    let Tree::Child(children) = &tree;
    let mut sizes = children.keys().copied().collect::<Vec<u32>>();
    sizes.sort();
    assert_eq!(sizes, vec![1, 2, 3, 4]);
    let Tree::Child(after_four) = children[&4].as_ref();
    assert!(after_four.is_empty());
    let Tree::Child(after_one) = children[&1].as_ref();
    assert_eq!(after_one.len(), 3);
    // one node for each way to write a number up to 4 as a sum in order
    assert_eq!(count_nodes(&tree), 16);
}
