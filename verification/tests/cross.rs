use game_search::game::{Game, State};
use game_search::tablut;
use game_search::tablut_with_draw::{self, Tile};

/// The cell of the frame of eleven by eleven that a cell of the board of
/// nine by nine stands for.
fn framed(c: u8) -> u8 {
    (c / 9 + 1) * 11 + (c % 9 + 1)
}

fn framed_move(m: (u8, u8)) -> (u8, u8) {
    if m == tablut_with_draw::PASS {
        tablut::PASS
    } else {
        (framed(m.0), framed(m.1))
    }
}

fn same_board(a: &tablut_with_draw::Tablut, b: &tablut::Tablut) -> bool {
    (0..81u8).all(|c| {
        let p = framed(c);
        let t = if (b.a >> p) & 1 != 0 {
            Tile::A
        } else if (b.d >> p) & 1 != 0 {
            Tile::D
        } else if (b.k >> p) & 1 != 0 {
            Tile::K
        } else {
            Tile::E
        };
        a.get(c) == t
    })
}

/// Plays the same random games on the two boards and compares them move by
/// move, up to the first draw by repetition, which only one of them knows.
fn play_alike(strict: bool, seed: u64) {
    let mut x = seed;
    for game in 0..40 {
        let first = game % 2 == 0;
        let mut a = tablut_with_draw::Tablut::new(first);
        a.set_king_rule(strict);
        let mut b = tablut::Tablut::with_king_rule(first, strict);
        for _ in 0..300 {
            assert!(same_board(&a, &b));
            assert_eq!(a.turn(), b.turn());
            assert_eq!(a.state(), b.state());
            if a.state() != State::Going {
                break;
            }
            let mut ma: Vec<(u8, u8)> = a.get_moves().into_iter().map(framed_move).collect();
            let mut mb = b.get_moves();
            ma.sort();
            mb.sort();
            assert_eq!(ma, mb);
            let moves = a.get_moves();
            x ^= x << 13;
            x ^= x >> 7;
            x ^= x << 17;
            let m = moves[(x % moves.len() as u64) as usize];
            if m == tablut_with_draw::PASS {
                // The pass ends both games with the same result.
                a.mov(&m);
                b.mov(&tablut::PASS);
                assert_eq!(a.state(), b.state());
                break;
            }
            a.mov(&m);
            b.mov(&framed_move(m));
            if a.state() == State::Draw {
                break;
            }
        }
    }
}

#[test]
fn cross_the_two_tabluts_play_the_same_game() {
    play_alike(false, 0x2545f4914f6cdd1d);
}

#[test]
fn cross_the_two_tabluts_play_the_same_game_by_the_strict_rule() {
    play_alike(true, 0x9e3779b97f4a7c15);
}
