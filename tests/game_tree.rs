use shut_the_box::{Board, GameNode, GameState};

#[test]
fn states_pack_board_and_dice() {
    let state = GameState::from_board_and_dice(&0b101, &7);
    assert_eq!(state.get_board(), 0b101);
    assert_eq!(state.get_dice(), 7);
    assert_eq!(state.get_raw_state(), (7 << 12) | 0b101);
    let root = GameState::new_root_state();
    assert_eq!(root.get_board(), 511);
    assert_eq!(root.get_dice(), 0);
}

#[test]
fn states_keep_only_their_bits() {
    let mut state = GameState::from_board_and_dice(&0xFFFF, &0xFF);
    assert_eq!(state.get_board(), 511);
    assert_eq!(state.get_dice(), 15);
    state.set_board(0b1000000011);
    assert_eq!(state.get_board(), 0b11);
    assert_eq!(state.get_dice(), 15);
    state.set_dice(20);
    assert_eq!(state.get_dice(), 4);
    assert_eq!(state.get_board(), 0b11);
    state.set_raw_state(0x3005);
    assert_eq!((state.get_board(), state.get_dice()), (5, 3));
}

#[test]
fn states_compare_by_board() {
    let a = GameState::from_board_and_dice(&12, &3);
    let b = GameState::from_board_and_dice(&12, &9);
    let c = GameState::from_board_and_dice(&13, &3);
    assert!(a == b);
    assert!(a != c);
}

#[test]
fn root_node_has_a_child_for_every_move() {
    let root = GameNode::new_root_node();
    assert_eq!(root.get_state().get_board(), 511);
    assert!(root.get_parents().is_empty());
    let board = Board::new(511);
    let expected: usize = board.rolls.iter().map(|r| r.boards.len()).sum();
    assert_eq!(root.get_children().len(), expected);
    for child in root.get_children() {
        let dice = child.get_state().get_dice();
        let roll = &board.rolls[dice as usize - 2];
        assert!(roll.boards.contains(&child.get_state().get_board()));
        assert_eq!(child.get_parents().len(), 1);
        assert_eq!(child.get_parents()[0].get_raw_state(), root.get_state().get_raw_state());
        assert!(child.get_children().is_empty());
    }
}

#[test]
fn children_of_a_partial_board_are_its_moves() {
    let mut node = GameNode::new_root_node();
    let child = node.get_children()[0].get_state().get_board();
    let mut inner = GameNode {
        state: GameState::from_board_and_dice(&0b000010110, &0),
        parents: Vec::new(),
        children: Vec::new(),
    };
    inner.calculate_children();
    let mut found: Vec<(u16, u8)> = inner
        .get_children()
        .iter()
        .map(|c| (c.get_state().get_board(), c.get_state().get_dice()))
        .collect();
    found.sort();
    // Pieces 2, 3 and 5 are alive.
    let mut expected = vec![
        (0b000010100, 2),
        (0b000010010, 3),
        (0b000000110, 5),
        (0b000010000, 5),
        (0b000000100, 7),
        (0b000000010, 8),
        (0b000000000, 10),
    ];
    expected.sort();
    assert_eq!(found, expected);
    node.add_parent(GameState::from_board_and_dice(&child, &0));
    node.add_parents(vec![GameState::new_root_state()]);
    assert_eq!(node.get_parents().len(), 2);
    assert_eq!(node.into_parents().len(), 2);
}

#[test]
fn an_empty_board_has_no_children() {
    let mut node = GameNode {
        state: GameState::from_board_and_dice(&0, &4),
        parents: Vec::new(),
        children: Vec::new(),
    };
    node.calculate_children();
    assert!(node.get_children().is_empty());
}
