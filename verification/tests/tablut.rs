use game_search::game::{Game, State};
use game_search::tablut::{
    Tablut, BLOCK, CAPTURE_AID, GOAL, INTERIOR, K_SAFETY, PASS, START_A, START_D, START_K,
};

fn cell(x: u8, y: u8) -> u8 {
    y * 11 + x
}

fn set_of(cells: &[(u8, u8)]) -> u128 {
    cells.iter().fold(0u128, |s, &(x, y)| s | (1u128 << cell(x, y)))
}

fn position(a: &[(u8, u8)], d: &[(u8, u8)], k: &[(u8, u8)], turn: u32) -> Tablut {
    Tablut { a: set_of(a), d: set_of(d), k: set_of(k), turn, state: State::Going, strict: false }
}

/// Plays a move after making sure that it is legal.
fn play(g: &mut Tablut, m: (u8, u8)) {
    assert_eq!(g.state(), State::Going);
    assert!(g.get_moves().contains(&m), "{:?} is not legal", m);
    g.mov(&m);
}

#[test]
fn bitboard_the_opening_has_sixteen_attackers_eight_defenders_and_the_king_on_the_throne() {
    let g = Tablut::new(true);
    assert_eq!(g.a, START_A);
    assert_eq!(g.d, START_D);
    assert_eq!(g.k, START_K);
    assert_eq!(g.a.count_ones(), 16);
    assert_eq!(g.d.count_ones(), 8);
    assert_eq!(g.k, 1u128 << cell(5, 5));
    assert_eq!(g.state(), State::Going);
    assert!(g.turn());
    assert!(!Tablut::new(false).turn());
    assert_eq!(Tablut::default(), Tablut::new(true));
    assert_eq!((g.a | g.d | g.k) & !INTERIOR, 0);
    assert_eq!(K_SAFETY & BLOCK, START_K);
    assert_eq!(GOAL & BLOCK, 0);
    assert_eq!(CAPTURE_AID & !BLOCK, 0);
}

#[test]
fn bitboard_the_attackers_have_eighty_first_moves() {
    let g = Tablut::new(false);
    assert_eq!(g.get_moves().len(), 80);
}

#[test]
fn bitboard_the_defenders_have_fifty_six_first_moves() {
    let g = Tablut::new(true);
    assert_eq!(g.get_moves().len(), 56);
}

#[test]
fn bitboard_a_piece_slides_until_something_stands_in_its_way() {
    // A lone defender in a corner of the board, the king far away.
    let g = position(&[(9, 1)], &[(1, 1)], &[(5, 6)], 0);
    let moves = g.get_moves();
    let from_corner: Vec<(u8, u8)> =
        moves.iter().cloned().filter(|m| m.0 == cell(1, 1)).collect();
    // To the right the camp at (4, 1) stops it, downwards the camp at (1, 4).
    assert_eq!(
        from_corner,
        vec![
            (cell(1, 1), cell(2, 1)),
            (cell(1, 1), cell(3, 1)),
            (cell(1, 1), cell(1, 2)),
            (cell(1, 1), cell(1, 3)),
        ]
    );
}

#[test]
fn bitboard_an_attacker_may_move_inside_its_camp_but_not_back_into_it() {
    // An attacker on the camp cell (5, 1) may step onto (4, 1) and (6, 1).
    let g = position(&[(5, 1)], &[], &[(5, 5)], 1);
    let moves = g.get_moves();
    assert!(moves.contains(&(cell(5, 1), cell(4, 1))));
    assert!(moves.contains(&(cell(5, 1), cell(6, 1))));
    assert!(moves.contains(&(cell(5, 1), cell(5, 2))));
    // An attacker outside cannot enter the camp.
    let g = position(&[(3, 1)], &[], &[(5, 5)], 1);
    let moves = g.get_moves();
    assert!(moves.contains(&(cell(3, 1), cell(2, 1))));
    assert!(!moves.contains(&(cell(3, 1), cell(4, 1))));
}

#[test]
fn bitboard_a_side_without_a_move_has_the_pass_alone_and_loses_by_it() {
    // The attackers have no piece at all.
    let mut g = position(&[], &[(2, 2)], &[(5, 5)], 1);
    assert_eq!(g.get_moves(), vec![PASS]);
    play(&mut g, PASS);
    assert_eq!(g.state(), State::Win);
    // The defenders are walled in.
    let mut g = position(&[(2, 1), (1, 2)], &[], &[(1, 1)], 0);
    assert_eq!(g.get_moves(), vec![PASS]);
    play(&mut g, PASS);
    assert_eq!(g.state(), State::Lose);
}

#[test]
fn bitboard_a_move_flips_the_turn_once() {
    let mut g = Tablut::new(false);
    let m = g.get_moves()[0];
    g.mov(&m);
    assert!(g.turn());
    assert_eq!(g.turn, 2);
    assert_eq!(g.state(), State::Going);
}

#[test]
fn bitboard_a_defender_between_two_attackers_is_taken() {
    let mut g = position(&[(2, 3), (4, 7)], &[(3, 3)], &[(5, 5)], 1);
    play(&mut g, (cell(4, 7), cell(4, 3)));
    assert_eq!(g.d, 0);
    assert_eq!(g.a, set_of(&[(2, 3), (4, 3)]));
    assert_eq!(g.state(), State::Going);
}

#[test]
fn bitboard_an_attacker_between_a_defender_and_the_king_is_taken() {
    let mut g = position(&[(3, 3)], &[(2, 3)], &[(4, 7)], 0);
    play(&mut g, (cell(4, 7), cell(4, 3)));
    assert_eq!(g.a, 0);
    assert_eq!(g.k, set_of(&[(4, 3)]));
    assert_eq!(g.state(), State::Going);
}

#[test]
fn bitboard_an_empty_camp_cell_helps_a_capture_and_an_occupied_one_does_not() {
    // The defender on (4, 2) stands below the camp cell (4, 1).
    let mut g = position(&[(8, 3)], &[(4, 2)], &[(5, 5)], 1);
    play(&mut g, (cell(8, 3), cell(4, 3)));
    assert_eq!(g.d, 0);
    // The same with a defender on the camp cell.
    let mut g = position(&[(8, 3)], &[(4, 2), (4, 1)], &[(5, 5)], 1);
    play(&mut g, (cell(8, 3), cell(4, 3)));
    assert_eq!(g.d, set_of(&[(4, 2), (4, 1)]));
}

#[test]
fn bitboard_a_piece_that_moves_between_two_enemies_is_safe() {
    let mut g = position(&[(2, 3), (4, 3)], &[(3, 7)], &[(5, 5)], 0);
    play(&mut g, (cell(3, 7), cell(3, 3)));
    assert_eq!(g.d, set_of(&[(3, 3)]));
    assert_eq!(g.a, set_of(&[(2, 3), (4, 3)]));
}

#[test]
fn bitboard_the_king_away_from_the_throne_is_taken_between_two_attackers() {
    let mut g = position(&[(2, 3), (4, 7)], &[], &[(3, 3)], 1);
    play(&mut g, (cell(4, 7), cell(4, 3)));
    assert_eq!(g.k, 0);
    assert_eq!(g.state(), State::Lose);
}

#[test]
fn bitboard_the_king_on_the_throne_needs_four_attackers() {
    let mut g = position(&[(4, 5), (6, 5), (5, 4), (5, 8)], &[], &[(5, 5)], 1);
    play(&mut g, (cell(5, 8), cell(5, 7)));
    assert_eq!(g.state(), State::Going);
    assert_ne!(g.k, 0);
    g.turn = 1;
    play(&mut g, (cell(5, 7), cell(5, 6)));
    assert_eq!(g.k, 0);
    assert_eq!(g.state(), State::Lose);
}

#[test]
fn bitboard_the_king_next_to_the_throne_needs_three_attackers_and_the_empty_throne() {
    // King at (5, 4), right above the throne.
    let mut g = position(&[(4, 4), (6, 4), (5, 1)], &[], &[(5, 4)], 1);
    play(&mut g, (cell(5, 1), cell(5, 2)));
    assert_ne!(g.k, 0);
    g.turn = 1;
    play(&mut g, (cell(5, 2), cell(5, 3)));
    assert_eq!(g.k, 0);
    assert_eq!(g.state(), State::Lose);
    // Two attackers do not do it there.
    let mut g = position(&[(4, 4), (6, 8)], &[], &[(5, 4)], 1);
    play(&mut g, (cell(6, 8), cell(6, 4)));
    assert_ne!(g.k, 0);
    assert_eq!(g.state(), State::Going);
}

#[test]
fn bitboard_the_king_on_an_escape_square_wins() {
    let mut g = position(&[(9, 9)], &[], &[(3, 3)], 0);
    play(&mut g, (cell(3, 3), cell(3, 1)));
    assert_eq!(g.state(), State::Win);
    assert_ne!(g.k & GOAL, 0);
}

#[test]
fn bitboard_undo_restores_the_position() {
    let mut g = Tablut::new(false);
    for step in 0..40usize {
        if g.state() != State::Going {
            break;
        }
        let before = g;
        let moves = g.get_moves();
        for m in moves.iter() {
            let rb = g.mov_with_rollback(m);
            assert_eq!(rb, before);
            g.rollback(rb);
            assert_eq!(g, before);
        }
        g.mov(&moves[(step * 7) % moves.len()]);
    }
}

#[test]
fn bitboard_sorted_moves_are_the_same_moves_in_key_order() {
    let mut g = Tablut::new(false);
    for step in 0..12usize {
        let mut plain = g.get_moves();
        let sorted = g.get_moves_sorted();
        let keys: Vec<i64> = sorted.iter().map(|m| g.key_of(m)).collect();
        assert!(keys.windows(2).all(|w| w[0] <= w[1]));
        let mut again = sorted.clone();
        plain.sort();
        again.sort();
        assert_eq!(plain, again);
        g.mov(&sorted[step % sorted.len()]);
    }
}

#[test]
fn bitboard_the_order_key_puts_king_moves_first() {
    let g = position(&[(9, 9)], &[(2, 2)], &[(3, 3)], 0);
    // A king move of reach 1 has key 4, a defender move of reach 1 key 12.
    assert_eq!(g.key_of(&(cell(3, 3), cell(4, 3))), 4);
    assert_eq!(g.key_of(&(cell(2, 2), cell(3, 2))), 12);
    assert_eq!(g.key_of(&(cell(3, 3), cell(3, 9))), 2);
    let g = position(&[(9, 9), (2, 3)], &[], &[(3, 3)], 1);
    // An attacker move that ends next to the king: reach 6 has place 1.
    assert_eq!(g.key_of(&(cell(9, 9), cell(3, 9))), 1 + 8);
    assert_eq!(g.key_of(&(cell(2, 3), cell(2, 2))), 5 + 8);
    assert_eq!(g.key_of(&(cell(2, 3), cell(2, 4))), 5 + 8);
    let g = position(&[(4, 9)], &[], &[(3, 3)], 1);
    assert_eq!(g.key_of(&(cell(4, 9), cell(4, 3))), 1);
    assert_eq!(g.key_of(&PASS), 0);
}

#[test]
fn bitboard_the_evaluation_counts_material_and_the_room_of_the_king() {
    let g = Tablut::new(true);
    // 8 defenders, 16 attackers; the king on the throne has no room, and the
    // throne under him counts as hostile on the first lane.
    assert_eq!(g.heuristic(), 8 * 8 + 4 * (-1) - 16 * 16);
    // A lone king at (3, 3): lanes of 4 (his own square and three more up to
    // the camp cell at (6, 3)... ), see the numbers below.
    let g = position(&[], &[], &[(3, 3)], 0);
    let right = 7; // (3,3) itself and (4,3) .. (9,3)
    let down = 6; // (3,4) .. (3,9)
    let left = 2; // (2,3), (1,3)
    let up = 2; // (3,2), (3,1)
    assert_eq!(g.heuristic(), 4 * (right + down + left + up));
}

#[test]
fn bitboard_a_decided_game_is_worth_more_the_sooner_it_ends() {
    let mut g = position(&[(9, 9)], &[], &[(3, 3)], 4);
    play(&mut g, (cell(3, 3), cell(3, 1)));
    assert_eq!(g.state(), State::Win);
    assert_eq!(g.heuristic(), i64::MAX - 5);
    let mut g = position(&[(2, 3), (4, 7)], &[], &[(3, 3)], 7);
    play(&mut g, (cell(4, 7), cell(4, 3)));
    assert_eq!(g.state(), State::Lose);
    assert_eq!(g.heuristic(), i64::MIN + 8);
}

#[test]
fn bitboard_the_count_of_moves_wraps_and_keeps_its_parity() {
    let mut g = position(&[(9, 9)], &[], &[(3, 3)], u32::MAX);
    assert!(!g.turn());
    play(&mut g, (cell(9, 9), cell(9, 8)));
    assert_eq!(g.turn, 0);
    assert!(g.turn());
}

#[test]
fn bitboard_equal_positions_have_equal_keys() {
    let mut a = Tablut::new(false);
    let mut b = Tablut::new(false);
    let m = a.get_moves();
    a.mov(&m[0]);
    b.mov(&m[0]);
    assert_eq!(a.get_static_state(), b.get_static_state());
    assert!(Tablut::same_key(&a.get_static_state(), &b.get_static_state()));
    assert_eq!(
        Tablut::key_digest(&a.get_static_state()),
        Tablut::key_digest(&b.get_static_state())
    );
    let n = a.get_moves();
    a.mov(&n[0]);
    assert!(!Tablut::same_key(&a.get_static_state(), &b.get_static_state()));
}

#[test]
fn bitboard_random_playouts_never_collide_on_the_key() {
    // Along many lines of play two positions have the same key if and only
    // if they have the same pieces and the same side to move.
    let mut seen: Vec<(Tablut, (u128, u128, u128, bool))> = Vec::new();
    let mut x: u64 = 0x9e3779b97f4a7c15;
    for _ in 0..60 {
        let mut g = Tablut::new(false);
        for _ in 0..30 {
            if g.state() != State::Going {
                break;
            }
            let moves = g.get_moves();
            x ^= x << 13;
            x ^= x >> 7;
            x ^= x << 17;
            g.mov(&moves[(x % moves.len() as u64) as usize]);
            let k = g.get_static_state();
            for (other, ko) in seen.iter() {
                let same = g.a == other.a && g.d == other.d && g.k == other.k
                    && g.turn() == other.turn();
                assert_eq!(Tablut::same_key(&k, ko), same);
                assert_eq!(k == *ko, same);
            }
            seen.push((g, k));
        }
    }
}

#[test]
fn bitboard_the_key_does_not_count_the_moves() {
    // After the first move a defender goes out and back, and so does an
    // attacker: the pieces and the side to move are as they were, four
    // moves later.
    let mut start = Tablut::new(false);
    let first = start.get_moves()[0];
    play(&mut start, first);
    let mut found = None;
    for there in start.get_moves() {
        let mut h = start;
        h.mov(&there);
        for other in h.get_moves() {
            let mut i = h;
            i.mov(&other);
            if i.state() != State::Going || !i.get_moves().contains(&(there.1, there.0)) {
                continue;
            }
            i.mov(&(there.1, there.0));
            if i.state() == State::Going && i.get_moves().contains(&(other.1, other.0)) {
                found = Some((there, other));
                break;
            }
        }
        if found.is_some() {
            break;
        }
    }
    let (there, other) = found.unwrap();
    let mut g = start;
    play(&mut g, there);
    play(&mut g, other);
    play(&mut g, (there.1, there.0));
    play(&mut g, (other.1, other.0));
    assert_eq!(g.turn, start.turn + 4);
    assert_eq!((g.a, g.d, g.k), (start.a, start.d, start.k));
    assert_ne!(g, start);
    assert_eq!(g.get_static_state(), start.get_static_state());
    assert!(Tablut::same_key(&g.get_static_state(), &start.get_static_state()));
    assert_eq!(
        Tablut::key_digest(&g.get_static_state()),
        Tablut::key_digest(&start.get_static_state())
    );
    // The same pieces with the other side to move have another key.
    assert_ne!(Tablut::new(true).get_static_state(), Tablut::new(false).get_static_state());
    // The variant that is played is no part of the key either.
    assert_eq!(
        Tablut::with_king_rule(false, true).get_static_state(),
        Tablut::new(false).get_static_state()
    );
}

#[test]
fn bitboard_pieces_off_the_board_are_told() {
    assert!(Tablut::new(true).placed_well());
    let mut g = Tablut::new(true);
    g.a |= 1;
    assert!(!g.placed_well());
    let mut g = Tablut::new(true);
    g.k = 1u128 << cell(10, 5);
    assert!(!g.placed_well());
    let mut g = Tablut::new(true);
    g.d |= 1u128 << 125;
    assert!(!g.placed_well());
}

#[test]
fn bitboard_the_strict_rule_wants_four_attackers_by_the_throne() {
    // King at (5, 4), right above the throne, with attackers on three sides.
    let mut g = position(&[(4, 4), (6, 4), (5, 1)], &[], &[(5, 4)], 1);
    g.strict = true;
    play(&mut g, (cell(5, 1), cell(5, 3)));
    assert_eq!(g.k, set_of(&[(5, 4)]));
    assert_eq!(g.state(), State::Going);
    assert!(g.strict);
    // The same by the usual rule takes him.
    let mut g = position(&[(4, 4), (6, 4), (5, 1)], &[], &[(5, 4)], 1);
    play(&mut g, (cell(5, 1), cell(5, 3)));
    assert_eq!(g.k, 0);
    // Away from the throne the two rules are the same.
    let mut g = position(&[(2, 3), (4, 7)], &[], &[(3, 3)], 1);
    g.strict = true;
    play(&mut g, (cell(4, 7), cell(4, 3)));
    assert_eq!(g.state(), State::Lose);
    let g = Tablut::with_king_rule(false, true);
    assert!(g.strict);
    assert_eq!(g.get_moves().len(), 80);
    assert_eq!(Tablut::with_king_rule(true, false), Tablut::new(true));
}
