use game_search::game::{Game, State};
use game_search::tablut_with_draw::{
    is_block_um, is_capture_aid, mapc, scan_cell, unmapc, Tablut, Tile, PASS, WON,
};

/// An empty board with the given pieces, the defenders to move iff `defends`.
fn position(a: &[(u8, u8)], d: &[(u8, u8)], k: &[(u8, u8)], defends: bool) -> Tablut {
    let mut g = Tablut::new(defends);
    for p in 0..81 {
        g.set(p, Tile::E);
    }
    for &(x, y) in a {
        g.set(mapc(x, y), Tile::A);
    }
    for &(x, y) in d {
        g.set(mapc(x, y), Tile::D);
    }
    for &(x, y) in k {
        g.set(mapc(x, y), Tile::K);
    }
    g
}

fn count(g: &Tablut, t: Tile) -> usize {
    (0..81).filter(|&p| g.get(p) == t).count()
}

/// Plays a move after making sure that it is legal.
fn play(g: &mut Tablut, m: (u8, u8)) {
    assert_eq!(g.state(), State::Going);
    assert!(g.get_moves().contains(&m), "{:?} is not legal", m);
    g.mov(&m);
}

#[test]
fn draw_cells_are_numbered_row_by_row() {
    assert_eq!(mapc(0, 0), 0);
    assert_eq!(mapc(4, 4), 40);
    assert_eq!(mapc(8, 8), 80);
    assert_eq!(mapc(3, 7), 66);
    assert_eq!(unmapc(66), (3, 7));
    assert_eq!(unmapc(40), (4, 4));
}

#[test]
fn draw_tiles_come_from_two_bits() {
    assert_eq!(Tile::from(0), Tile::E);
    assert_eq!(Tile::from(1), Tile::A);
    assert_eq!(Tile::from(2), Tile::D);
    assert_eq!(Tile::from(3), Tile::K);
    assert_eq!(Tile::from(7), Tile::K);
    assert_eq!(Tile::from(4), Tile::E);
}

#[test]
fn draw_camps_and_throne_are_blocks() {
    let blocks: Vec<u8> = (0..81).filter(|&p| is_block_um(p)).collect();
    assert_eq!(blocks, vec![3, 4, 5, 13, 27, 35, 36, 37, 40, 43, 44, 45, 53, 67, 75, 76, 77]);
    let aids: Vec<u8> = (0..81).filter(|&p| is_capture_aid(p)).collect();
    assert_eq!(aids, vec![3, 5, 13, 27, 35, 37, 40, 43, 45, 53, 67, 75, 77]);
}

#[test]
fn draw_the_opening_is_the_cross_and_the_four_camps() {
    let g = Tablut::new(true);
    assert_eq!(count(&g, Tile::A), 16);
    assert_eq!(count(&g, Tile::D), 8);
    assert_eq!(count(&g, Tile::K), 1);
    assert_eq!(g.get(40), Tile::K);
    assert_eq!(g.get(mapc(4, 0)), Tile::A);
    assert_eq!(g.get(mapc(4, 2)), Tile::D);
    assert_eq!(g.get(mapc(0, 0)), Tile::E);
    assert_eq!(g.state(), State::Going);
    assert!(g.turn());
    assert_eq!(g.plies(), 0);
    assert_eq!(Tablut::new(false).plies(), 1);
}

#[test]
fn draw_set_changes_one_cell() {
    let mut g = Tablut::new(true);
    let before: Vec<Tile> = (0..81).map(|p| g.get(p)).collect();
    g.set(17, Tile::K);
    for p in 0..81u8 {
        if p == 17 {
            assert_eq!(g.get(p), Tile::K);
        } else {
            assert_eq!(g.get(p), before[p as usize]);
        }
    }
    g.set(80, Tile::D);
    assert_eq!(g.get(80), Tile::D);
    assert_eq!(g.get(79), Tile::E);
}

#[test]
fn draw_the_attackers_have_eighty_first_moves() {
    assert_eq!(Tablut::new(false).get_moves().len(), 80);
}

#[test]
fn draw_the_defenders_have_fifty_six_first_moves() {
    assert_eq!(Tablut::new(true).get_moves().len(), 56);
}

#[test]
fn draw_moves_come_in_the_order_of_the_scan() {
    // One defender at (1, 1) and the king out of its way.
    let g = position(&[], &[(1, 1)], &[(6, 6)], true);
    let moves = g.get_moves();
    let own: Vec<(u8, u8)> = moves.iter().cloned().filter(|m| m.0 == 10).collect();
    // Rightwards up to the camp, leftwards, downwards up to the camp, upwards.
    assert_eq!(own, vec![(10, 11), (10, 12), (10, 9), (10, 19), (10, 28), (10, 1)]);
    assert!(own.contains(&(10, 11)));
    assert!(own.contains(&(10, 12)));
    // The camp cell (4, 1) stops the slide to the right.
    assert!(!own.contains(&(10, 13)));
    assert!(own.contains(&(10, 9)));
    assert!(own.contains(&(10, 1)));
}

#[test]
fn draw_a_piece_on_a_camp_may_step_two_cells_within_it() {
    // An attacker on the camp cell (4, 0).
    let g = position(&[(4, 0)], &[], &[(6, 6)], false);
    let moves = g.get_moves();
    assert!(moves.contains(&(4, 3)));
    assert!(moves.contains(&(4, 5)));
    assert!(moves.contains(&(4, 13)));
    // From (3, 0) the far end (5, 0) is two cells away and still allowed.
    let g = position(&[(3, 0)], &[], &[(6, 6)], false);
    let moves = g.get_moves();
    assert!(moves.contains(&(3, 4)));
    assert!(moves.contains(&(3, 5)));
    // An attacker outside cannot enter.
    let g = position(&[(2, 0)], &[], &[(6, 6)], false);
    let moves = g.get_moves();
    assert!(!moves.contains(&(2, 3)));
    assert!(moves.contains(&(2, 1)));
}

#[test]
fn draw_a_side_without_a_move_has_the_pass_alone_and_loses_by_it() {
    let mut g = position(&[], &[(2, 2)], &[(6, 6)], false);
    assert_eq!(g.get_moves(), vec![PASS]);
    let rb = g.mov_with_rollback(&PASS);
    assert_eq!(g.state(), State::Win);
    assert_eq!(g.plies(), 2);
    g.rollback(rb);
    assert_eq!(g.state(), State::Going);
    assert_eq!(g.plies(), 1);
    assert_eq!(g.get(40), Tile::E);
    assert_eq!(g.get(mapc(2, 2)), Tile::D);
    let mut g = position(&[(1, 0), (0, 1)], &[], &[(0, 0)], true);
    assert_eq!(g.get_moves(), vec![PASS]);
    play(&mut g, PASS);
    assert_eq!(g.state(), State::Lose);
}

#[test]
fn draw_a_defender_between_two_attackers_is_taken() {
    let mut g = position(&[(1, 2), (3, 6)], &[(2, 2)], &[(6, 6)], false);
    play(&mut g, (mapc(3, 6), mapc(3, 2)));
    assert_eq!(g.get(mapc(2, 2)), Tile::E);
    assert_eq!(g.get(mapc(3, 2)), Tile::A);
    assert_eq!(g.get(mapc(3, 6)), Tile::E);
    assert_eq!(g.state(), State::Going);
    assert!(g.turn());
}

#[test]
fn draw_an_attacker_between_a_defender_and_the_king_is_taken() {
    let mut g = position(&[(2, 2)], &[(1, 2)], &[(3, 6)], true);
    play(&mut g, (mapc(3, 6), mapc(3, 2)));
    assert_eq!(g.get(mapc(2, 2)), Tile::E);
    assert_eq!(g.get(mapc(3, 2)), Tile::K);
}

#[test]
fn draw_an_empty_camp_cell_helps_a_capture_and_an_occupied_one_does_not() {
    // The defender on (3, 1) stands below the camp cell (3, 0).
    let mut g = position(&[(7, 2)], &[(3, 1)], &[(6, 6)], false);
    play(&mut g, (mapc(7, 2), mapc(3, 2)));
    assert_eq!(g.get(mapc(3, 1)), Tile::E);
    let mut g = position(&[(7, 2)], &[(3, 1), (3, 0)], &[(6, 6)], false);
    play(&mut g, (mapc(7, 2), mapc(3, 2)));
    assert_eq!(g.get(mapc(3, 1)), Tile::D);
}

#[test]
fn draw_the_capturing_move_removes_the_king_and_the_defenders_lose() {
    // The king at (2, 2) with an attacker on his left; the attacker from
    // (3, 6) closes in from the right.
    let mut g = position(&[(1, 2), (3, 6)], &[], &[(2, 2)], false);
    assert!(g.get_moves().contains(&(mapc(3, 6), mapc(3, 2))));
    play(&mut g, (mapc(3, 6), mapc(3, 2)));
    assert_eq!(count(&g, Tile::K), 0);
    assert_eq!(g.get(mapc(2, 2)), Tile::E);
    assert_eq!(g.state(), State::Lose);
    // Lost after two moves.
    assert_eq!(g.plies(), 2);
    assert_eq!(g.heuristic(), -WON + 2);
}

#[test]
fn draw_the_king_on_the_throne_needs_four_attackers() {
    let mut g = position(&[(3, 4), (5, 4), (4, 3), (4, 7)], &[], &[(4, 4)], false);
    play(&mut g, (mapc(4, 7), mapc(4, 6)));
    assert_eq!(g.state(), State::Going);
    let mut g = position(&[(3, 4), (5, 4), (4, 3), (4, 6)], &[], &[(4, 4)], false);
    play(&mut g, (mapc(4, 6), mapc(4, 5)));
    assert_eq!(g.get(40), Tile::E);
    assert_eq!(g.state(), State::Lose);
}

#[test]
fn draw_the_king_next_to_the_throne_is_not_taken_by_two() {
    let mut g = position(&[(3, 3), (5, 7)], &[], &[(4, 3)], false);
    play(&mut g, (mapc(5, 7), mapc(5, 3)));
    assert_eq!(g.get(mapc(4, 3)), Tile::K);
    assert_eq!(g.state(), State::Going);
    // Three attackers and the empty throne take him.
    let mut g = position(&[(3, 3), (5, 3), (4, 0)], &[], &[(4, 3)], false);
    assert!(g.get_moves().contains(&(mapc(4, 0), mapc(4, 2))));
    play(&mut g, (mapc(4, 0), mapc(4, 2)));
    assert_eq!(g.get(mapc(4, 3)), Tile::E);
    assert_eq!(g.state(), State::Lose);
}

#[test]
fn draw_the_king_on_an_escape_square_wins() {
    let mut g = position(&[(8, 8)], &[], &[(2, 2)], true);
    play(&mut g, (mapc(2, 2), mapc(2, 0)));
    assert_eq!(g.state(), State::Win);
    assert_eq!(g.plies(), 1);
    assert_eq!(g.heuristic(), WON - 1);
}

#[test]
fn draw_the_quicker_win_is_worth_more() {
    // The king walks to the edge at once, or goes aside first and lets
    // the attacker move: the same end, two moves later.
    let mut quick = position(&[(8, 8)], &[], &[(2, 2)], true);
    play(&mut quick, (mapc(2, 2), mapc(2, 0)));
    let mut slow = position(&[(8, 8)], &[], &[(2, 2)], true);
    play(&mut slow, (mapc(2, 2), mapc(2, 1)));
    play(&mut slow, (mapc(8, 8), mapc(8, 7)));
    play(&mut slow, (mapc(2, 1), mapc(2, 0)));
    assert_eq!(quick.state(), State::Win);
    assert_eq!(slow.state(), State::Win);
    assert_eq!(WON, 30001 + u32::MAX as i64);
    assert_eq!(quick.heuristic(), WON - 1);
    assert_eq!(slow.heuristic(), WON - 3);
    assert!(slow.heuristic() > 30000);
    assert!(quick.heuristic() > slow.heuristic());
}

#[test]
fn draw_a_position_that_comes_up_again_is_a_draw() {
    let mut g = Tablut::new(false);
    // An attacker steps out of its camp, on and back, a defender to and fro.
    play(&mut g, (mapc(3, 0), mapc(2, 0)));
    play(&mut g, (mapc(4, 2), mapc(3, 2)));
    play(&mut g, (mapc(2, 0), mapc(1, 0)));
    play(&mut g, (mapc(3, 2), mapc(4, 2)));
    assert_eq!(g.state(), State::Going);
    // The attacker steps back: the position after the first move is there again.
    let last = (mapc(1, 0), mapc(2, 0));
    assert!(g.get_moves().contains(&last));
    let rb = g.mov_with_rollback(&last);
    assert_eq!(g.state(), State::Draw);
    assert_eq!(g.heuristic(), 0);
    g.rollback(rb);
    assert_eq!(g.state(), State::Going);
    // The draw left no trace: another move goes on as usual.
    play(&mut g, (mapc(1, 0), mapc(0, 0)));
    assert_eq!(g.state(), State::Going);
    play(&mut g, (mapc(4, 2), mapc(3, 2)));
    assert_eq!(g.state(), State::Going);
}

#[test]
fn draw_undo_restores_the_position() {
    let mut g = Tablut::new(false);
    for step in 0..30usize {
        if g.state() != State::Going {
            break;
        }
        let before = g.clone();
        let moves = g.get_moves();
        for m in moves.iter() {
            let rb = g.mov_with_rollback(m);
            assert_eq!(rb.0, *m);
            g.rollback(rb);
            assert_eq!(g, before);
        }
        g.mov(&moves[(step * 11) % moves.len()]);
    }
}

#[test]
fn draw_the_token_holds_the_four_neighbours() {
    let mut g = position(&[(1, 2), (3, 6)], &[(2, 2), (3, 1)], &[(6, 6)], false);
    let rb = g.mov_with_rollback(&(mapc(3, 6), mapc(3, 2)));
    // Below (3, 3) nothing, above (3, 1) a defender, right (4, 2) nothing,
    // left (2, 2) a defender.
    assert_eq!(rb, ((mapc(3, 6), mapc(3, 2)), 0 | (2 << 2) | (0 << 4) | (2 << 6)));
}

#[test]
fn draw_sorted_moves_are_the_same_moves_in_key_order() {
    let mut g = Tablut::new(false);
    for step in 0..10usize {
        let mut plain = g.get_moves();
        let sorted = g.get_moves_sorted();
        let keys: Vec<i64> = sorted.iter().map(|m| g.key_of(m)).collect();
        assert!(keys.windows(2).all(|w| w[0] <= w[1]));
        let mut again = sorted.clone();
        plain.sort();
        again.sort();
        assert_eq!(plain, again);
        g.mov(&sorted[step % sorted.len()]);
    }
    let g = Tablut::new(true);
    assert_eq!(g.key_of(&(mapc(4, 2), mapc(3, 2))), 4);
    assert_eq!(g.key_of(&(mapc(4, 2), mapc(0, 2))), 6);
    let g = Tablut::new(false);
    assert_eq!(g.key_of(&(mapc(3, 0), mapc(3, 2))), 2);
}

#[test]
fn draw_the_evaluation_counts_material_and_slides() {
    let g = Tablut::new(true);
    assert_eq!(g.material(), (16, 8));
    // 80 slides of attackers, 56 of defenders, none of the king.
    assert_eq!(g.mobility(), (80, 56, 0));
    assert_eq!(g.king_cell(), 40);
    assert_eq!(g.heuristic(), -16 + 1 + 6 * 8 - 3 * 16 + 2 * 56 - 80);
    let g = Tablut::new(false);
    assert_eq!(g.heuristic(), -16 - 1 + 6 * 8 - 3 * 16 + 2 * 56 - 80);
}

#[test]
fn draw_equal_positions_have_equal_keys() {
    let mut a = Tablut::new(false);
    let mut b = Tablut::new(false);
    a.mov(&(mapc(3, 0), mapc(2, 0)));
    a.mov(&(mapc(4, 2), mapc(3, 2)));
    a.mov(&(mapc(5, 0), mapc(6, 0)));
    b.mov(&(mapc(5, 0), mapc(6, 0)));
    b.mov(&(mapc(4, 2), mapc(3, 2)));
    b.mov(&(mapc(3, 0), mapc(2, 0)));
    assert_eq!(a.get_static_state(), b.get_static_state());
    assert!(Tablut::same_key(&a.get_static_state(), &b.get_static_state()));
    assert_eq!(
        Tablut::key_digest(&a.get_static_state()),
        Tablut::key_digest(&b.get_static_state())
    );
    b.mov(&(mapc(3, 2), mapc(3, 3)));
    assert!(!Tablut::same_key(&a.get_static_state(), &b.get_static_state()));
}

#[test]
fn draw_cells_are_named_by_a_letter_and_a_digit() {
    assert_eq!(scan_cell('a', '1'), Some(0));
    assert_eq!(scan_cell('e', '5'), Some(40));
    assert_eq!(scan_cell('i', '9'), Some(80));
    assert_eq!(scan_cell('c', '8'), Some(mapc(2, 7)));
    assert_eq!(scan_cell('j', '1'), None);
    assert_eq!(scan_cell('a', '0'), None);
    assert_eq!(scan_cell('A', '1'), None);
    assert_eq!(scan_cell('1', 'a'), None);
}

#[test]
fn draw_the_strict_rule_wants_four_attackers_by_the_throne() {
    // King at (4, 3), right above the throne, with attackers on three sides.
    let mut g = position(&[(3, 3), (5, 3), (4, 0)], &[], &[(4, 3)], false);
    g.set_king_rule(true);
    play(&mut g, (mapc(4, 0), mapc(4, 2)));
    assert_eq!(g.get(mapc(4, 3)), Tile::K);
    assert_eq!(g.state(), State::Going);
    // With the king on the throne four attackers take him by either rule.
    let mut g = position(&[(3, 4), (5, 4), (4, 3), (4, 6)], &[], &[(4, 4)], false);
    g.set_king_rule(true);
    play(&mut g, (mapc(4, 6), mapc(4, 5)));
    assert_eq!(g.state(), State::Lose);
    // Away from the throne the two rules are the same.
    let mut g = position(&[(1, 2), (3, 6)], &[], &[(2, 2)], false);
    g.set_king_rule(true);
    play(&mut g, (mapc(3, 6), mapc(3, 2)));
    assert_eq!(g.state(), State::Lose);
}
