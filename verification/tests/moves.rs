use board_puzzles::board::GOAL;
use board_puzzles::moves::{apply_move, neighbors, predecessors, undo_move, Family, Move};
use board_puzzles::route::route_labels;

const ALL: [Move; 6] = [Move::H1, Move::H2, Move::H3, Move::V1, Move::V2, Move::V3];

#[test]
fn rows_turn_to_the_right() {
    assert_eq!(apply_move(GOAL, Move::H1), 312456789);
    assert_eq!(apply_move(GOAL, Move::H2), 123645789);
    assert_eq!(apply_move(GOAL, Move::H3), 123456978);
}

#[test]
fn columns_turn_upward() {
    assert_eq!(apply_move(GOAL, Move::V1), 423756189);
    assert_eq!(apply_move(GOAL, Move::V2), 153486729);
    assert_eq!(apply_move(GOAL, Move::V3), 126459783);
}

#[test]
fn undoing_turns_the_other_way() {
    assert_eq!(undo_move(GOAL, Move::H1), 231456789);
    assert_eq!(undo_move(GOAL, Move::H2), 123564789);
    assert_eq!(undo_move(GOAL, Move::H3), 123456897);
    assert_eq!(undo_move(GOAL, Move::V1), 723156489);
    assert_eq!(undo_move(GOAL, Move::V2), 183426759);
    assert_eq!(undo_move(GOAL, Move::V3), 129453786);
}

#[test]
fn undo_is_the_inverse_of_apply() {
    for start in [GOAL, 987654321, 528394617, 231456789] {
        for m in ALL {
            assert_eq!(undo_move(apply_move(start, m), m), start);
            assert_eq!(apply_move(undo_move(start, m), m), start);
        }
    }
}

#[test]
fn three_turns_of_one_line_change_nothing() {
    for m in ALL {
        assert_eq!(apply_move(apply_move(apply_move(528394617, m), m), m), 528394617);
        assert_eq!(apply_move(apply_move(528394617, m), m), undo_move(528394617, m));
    }
}

#[test]
fn a_move_keeps_the_nine_values() {
    for m in ALL {
        let mut cells: Vec<char> = apply_move(528394617, m).to_string().chars().collect();
        cells.sort();
        assert_eq!(cells, vec!['1', '2', '3', '4', '5', '6', '7', '8', '9']);
    }
}

#[test]
fn a_move_reads_only_the_nine_low_digits() {
    assert_eq!(apply_move(7123456789, Move::H1), 312456789);
    assert_eq!(apply_move(12345678, Move::H1), 201345678);
}

#[test]
fn neighbors_of_the_goal() {
    assert_eq!(
        neighbors(GOAL),
        vec![
            (312456789, Move::H1),
            (123645789, Move::H2),
            (123456978, Move::H3),
            (126459783, Move::V3),
            (153486729, Move::V2),
            (423756189, Move::V1),
        ]
    );
}

#[test]
fn predecessors_of_the_goal() {
    assert_eq!(
        predecessors(GOAL),
        vec![
            (231456789, Move::H1),
            (123564789, Move::H2),
            (123456897, Move::H3),
            (129453786, Move::V3),
            (183426759, Move::V2),
            (723156489, Move::V1),
        ]
    );
}

#[test]
fn each_predecessor_leads_back() {
    for start in [GOAL, 987654321, 528394617] {
        let found = predecessors(start);
        assert_eq!(found.len(), 6);
        for (from, m) in found {
            assert_eq!(apply_move(from, m), start);
        }
        for (to, m) in neighbors(start) {
            assert_eq!(undo_move(to, m), start);
        }
    }
}

#[test]
fn families_and_indices() {
    assert_eq!(Move::H1.family(), Family::Row);
    assert_eq!(Move::H3.family(), Family::Row);
    assert_eq!(Move::V2.family(), Family::Column);
    assert_eq!(Move::H1.index(), 1);
    assert_eq!(Move::H2.index(), 2);
    assert_eq!(Move::H3.index(), 3);
    assert_eq!(Move::V1.index(), 1);
    assert_eq!(Move::V2.index(), 2);
    assert_eq!(Move::V3.index(), 3);
}

#[test]
fn labels_name_family_and_line() {
    assert_eq!(Move::H1.label(), "H1");
    assert_eq!(Move::H2.label(), "H2");
    assert_eq!(Move::H3.label(), "H3");
    assert_eq!(Move::V1.label(), "V1");
    assert_eq!(Move::V2.label(), "V2");
    assert_eq!(Move::V3.label(), "V3");
}

#[test]
fn route_labels_follow_each_other() {
    assert_eq!(route_labels(&vec![]), "");
    assert_eq!(route_labels(&vec![Move::H1]), "H1");
    assert_eq!(route_labels(&vec![Move::V3, Move::H2, Move::V3]), "V3H2V3");
}
