//! Flat Monte Carlo: every legal move is followed by random play again and
//! again, and the move that won most often is played.

use crate::ai::Ai;
use crate::clock::Stopwatch;
use crate::game::{Game, State};
use crate::playout::{ends, random_playout};
use crate::random::{coin, fresh_rng};
use rand_xoshiro::Xoroshiro128Plus;
use std::time::Duration;
use vstd::prelude::*;

verus! {

/// The moves after which a line of random play is given up.
pub const PLAYOUT_CAP: usize = 4096;

/// The engine: the position of the game and the generator that the
/// playouts draw from.
pub struct MonteCarloTotal<G: Game> {
    pub g: G,
    pub rng: Xoroshiro128Plus,
    /// How often each move was tried by the last choice.
    pub rounds: u32,
}

/// Whether `r` is what a line of play that ended in `st` counts for the
/// side `turn`: one for a win, nothing for a loss, and either where it was
/// not decided.
pub open spec fn credit(st: State, turn: bool, r: u32) -> bool {
    match st {
        State::Win => r == (if turn {
            1u32
        } else {
            0u32
        }),
        State::Lose => r == (if turn {
            0u32
        } else {
            1u32
        }),
        _ => r <= 1,
    }
}

/// Whether `i` is the place of the greatest of the counts, the last of them
/// where several are equal.
pub open spec fn last_greatest(v: Seq<u32>, i: int) -> bool {
    &&& 0 <= i < v.len()
    &&& forall|j: int| 0 <= j < v.len() ==> v[j] <= v[i]
    &&& forall|j: int| i < j < v.len() ==> v[j] < v[i]
}

/// Whether a count that stood at `before` stands at `after` once the line
/// of play `path` from the position `v`, which ended in `st`, was counted
/// for the side `turn` as `r`: the count is `r` higher, and stays where it
/// can go no further.
pub open spec fn scored<G: Game>(
    v: G::V,
    turn: bool,
    path: Seq<G::M>,
    st: State,
    r: u32,
    before: u32,
    after: u32,
) -> bool {
    &&& ends::<G>(v, path, PLAYOUT_CAP as nat, st)
    &&& credit(st, turn, r)
    &&& after == (if before < u32::MAX {
        (before + r) as u32
    } else {
        before
    })
}

/// Whether the count of the move `m` in the position `v` went from
/// `before` to `after` by one more try: a line of play from the position
/// after the move, to the end of the game or as far as the lines go, was
/// counted for the side `turn`.
pub open spec fn tried<G: Game>(v: G::V, m: G::M, turn: bool, before: u32, after: u32) -> bool {
    exists|path: Seq<G::M>, st: State, r: u32|
        scored::<G>(G::next(v, m), turn, path, st, r, before, after)
}

/// Whether the counts `now` are the counts `was` of the moves of the
/// position `v` after one more round: each move was tried once more, see
/// [`tried`].
pub open spec fn round_of<G: Game>(v: G::V, turn: bool, was: Seq<u32>, now: Seq<u32>) -> bool {
    &&& was.len() == G::moves(v).len()
    &&& now.len() == was.len()
    &&& forall|j: int|
        0 <= j < was.len() ==> tried::<G>(v, G::moves(v)[j], turn, was[j], #[trigger] now[j])
}

/// Whether `counts` are the counts of the moves of the position `v` after
/// `n` rounds that began with nothing counted.
pub open spec fn tallied<G: Game>(v: G::V, turn: bool, counts: Seq<u32>, n: nat) -> bool
    decreases n,
{
    if n == 0 {
        counts.len() == G::moves(v).len() && forall|j: int|
            0 <= j < counts.len() ==> counts[j] == 0
    } else {
        exists|was: Seq<u32>|
            tallied::<G>(v, turn, was, (n - 1) as nat) && #[trigger] round_of::<G>(
                v,
                turn,
                was,
                counts,
            )
    }
}

/// Whether `m` is the move that won most often in `rounds` rounds of lines
/// of play from the position `v`, counted for the side to move, and the
/// last of them where several did.
pub open spec fn won_most<G: Game>(v: G::V, rounds: nat, m: G::M) -> bool {
    exists|counts: Seq<u32>, i: int|
        tallied::<G>(v, G::to_move(v), counts, rounds) && #[trigger] last_greatest(counts, i)
            && G::moves(v)[i] == m
}

/// The place of the greatest of the counts, the last of them where several
/// are equal.
pub fn pick(v: &Vec<u32>) -> (i: usize)
    requires
        v@.len() > 0,
    ensures
        last_greatest(v@, i as int),
{
    let mut at: usize = 0;
    let mut i: usize = 1;
    while i < v.len()
        invariant
            1 <= i <= v@.len(),
            at < i,
            forall|j: int| 0 <= j < i ==> v@[j] <= v@[at as int],
            forall|j: int| at < j < i ==> v@[j] < v@[at as int],
        decreases v@.len() - i,
    {
        if v[i] >= v[at] {
            at = i;
        }
        i += 1;
    }
    at
}

impl<G: Game> MonteCarloTotal<G> {
    /// An engine that takes up the game at `g` and draws from `rng`.
    pub fn new_with_rng(g: G, rng: Xoroshiro128Plus) -> (s: Self)
        requires
            g.inv(),
        ensures
            s.g == g,
            s.rng == rng,
            s.rounds == 0,
    {
        MonteCarloTotal { g, rng, rounds: 0 }
    }

    /// Plays the move `m0` and then at random to the end, and tells whether
    /// the side `turn` won: 1 or 0, and one of the two by the toss of a coin
    /// where the game was not decided. The position is as before.
    pub fn explore_branch(&mut self, m0: &G::M, turn: bool) -> (r: u32)
        requires
            old(self).g.inv(),
            G::status(old(self).g@) == State::Going,
            G::moves(old(self).g@).contains(*m0),
        ensures
            final(self).g.inv(),
            final(self).g@ == old(self).g@,
            final(self).rounds == old(self).rounds,
            exists|path: Seq<G::M>, st: State|
                ends::<G>(G::next(old(self).g@, *m0), path, PLAYOUT_CAP as nat, st) && credit(
                    st,
                    turn,
                    r,
                ),
    {
        let ghost v0 = self.g@;
        proof {
            self.g.law_inv();
            G::law_undo(v0, *m0);
        }
        let rb = self.g.mov_with_rollback(m0);
        let st = random_playout(&mut self.g, &mut self.rng, PLAYOUT_CAP);
        self.g.rollback(rb);
        let ans: u32 = match st {
            State::Win => 1,
            State::Lose => 0,
            _ => if coin(&mut self.rng) {
                1
            } else {
                0
            },
        };
        let r = if !turn { 1 - ans } else { ans };
        proof {
            let path = choose|path: Seq<G::M>|
                ends::<G>(G::next(v0, *m0), path, PLAYOUT_CAP as nat, st);
            assert(ends::<G>(G::next(v0, *m0), path, PLAYOUT_CAP as nat, st) && credit(
                st,
                turn,
                r,
            ));
        }
        r
    }

    /// Tries every move once more and adds what it won to its count: for
    /// each move a line of play from the position after it is played out
    /// and counted for the side `turn`.
    fn round(&mut self, moves: &Vec<G::M>, v: &mut Vec<u32>, turn: bool)
        requires
            old(self).g.inv(),
            G::status(old(self).g@) == State::Going,
            moves@ == G::moves(old(self).g@),
            old(v)@.len() == moves@.len(),
        ensures
            final(self).g.inv(),
            final(self).g@ == old(self).g@,
            final(self).rounds == old(self).rounds,
            final(v)@.len() == moves@.len(),
            forall|j: int|
                0 <= j < moves@.len() ==> old(v)@[j] <= #[trigger] final(v)@[j] <= old(v)@[j] + 1,
            forall|j: int|
                0 <= j < moves@.len() ==> tried::<G>(
                    old(self).g@,
                    moves@[j],
                    turn,
                    old(v)@[j],
                    #[trigger] final(v)@[j],
                ),
    {
        let ghost v0 = self.g@;
        let mut i: usize = 0;
        while i < moves.len()
            invariant
                i <= moves@.len(),
                self.g.inv(),
                self.g@ == old(self).g@,
                v0 == old(self).g@,
                self.rounds == old(self).rounds,
                G::status(self.g@) == State::Going,
                moves@ == G::moves(self.g@),
                v@.len() == moves@.len(),
                forall|j: int| 0 <= j < i ==> old(v)@[j] <= #[trigger] v@[j] <= old(v)@[j] + 1,
                forall|j: int| i <= j < moves@.len() ==> old(v)@[j] == #[trigger] v@[j],
                forall|j: int|
                    0 <= j < i ==> tried::<G>(v0, moves@[j], turn, old(v)@[j], #[trigger] v@[j]),
            decreases moves@.len() - i,
        {
            assert(moves@.contains(moves@[i as int]));
            let ghost before = v@;
            let won = self.explore_branch(&moves[i], turn);
            if v[i] < u32::MAX {
                v.set(i, v[i] + won);
            }
            proof {
                let m = moves@[i as int];
                let (path, st) = choose|path: Seq<G::M>, st: State|
                    ends::<G>(G::next(v0, m), path, PLAYOUT_CAP as nat, st) && credit(
                        st,
                        turn,
                        won,
                    );
                assert(scored::<G>(
                    G::next(v0, m),
                    turn,
                    path,
                    st,
                    won,
                    old(v)@[i as int],
                    v@[i as int],
                ));
                assert forall|j: int| 0 <= j < i implies tried::<G>(
                    v0,
                    moves@[j],
                    turn,
                    old(v)@[j],
                    #[trigger] v@[j],
                ) by {
                    assert(v@[j] == before[j]);
                }
            }
            i += 1;
        }
    }

    /// Tries every move `rounds` times and answers the one that won most
    /// often, the last of them where several did.
    pub fn get_mov_with_rounds(&mut self, rounds: u32) -> (m: G::M)
        requires
            old(self).g.inv(),
            G::status(old(self).g@) == State::Going,
        ensures
            final(self).g.inv(),
            final(self).g@ == old(self).g@,
            final(self).rounds == rounds,
            G::moves(old(self).g@).contains(m),
            won_most::<G>(old(self).g@, rounds as nat, m),
            rounds == 0 ==> m == G::moves(old(self).g@).last(),
    {
        let moves = self.g.get_moves();
        let turn = self.g.turn();
        proof {
            self.g.law_inv();
            G::law_going_has_moves(self.g@);
        }
        let mut v: Vec<u32> = Vec::new();
        let mut k: usize = 0;
        while k < moves.len()
            invariant
                k <= moves@.len(),
                v@.len() == k,
                forall|j: int| 0 <= j < k ==> v@[j] == 0,
            decreases moves@.len() - k,
        {
            v.push(0);
            k += 1;
        }
        let mut i: u32 = 0;
        while i < rounds
            invariant
                i <= rounds,
                self.g.inv(),
                self.g@ == old(self).g@,
                G::status(self.g@) == State::Going,
                moves@ == G::moves(self.g@),
                v@.len() == moves@.len(),
                turn == G::to_move(self.g@),
                forall|j: int| 0 <= j < v@.len() ==> v@[j] <= i,
                tallied::<G>(self.g@, turn, v@, i as nat),
            decreases rounds - i,
        {
            let ghost was = v@;
            self.round(&moves, &mut v, turn);
            i += 1;
            assert(tallied::<G>(self.g@, turn, was, (i - 1) as nat) && round_of::<G>(
                self.g@,
                turn,
                was,
                v@,
            ));
        }
        self.rounds = rounds;
        let at = pick(&v);
        proof {
            assert(moves@.contains(moves@[at as int]));
            assert(last_greatest(v@, at as int));
            if rounds == 0 && at < v@.len() - 1 {
                assert(v@[v@.len() - 1] < v@[at as int]);
            }
        }
        G::copy_move(&moves[at])
    }
}

impl<G: Game> Ai<G> for MonteCarloTotal<G> {
    open spec fn game(&self) -> G::V {
        self.g@
    }

    open spec fn ready(&self) -> bool {
        self.g.inv()
    }

    fn new(t: bool) -> (s: Self) {
        MonteCarloTotal { g: G::new(t), rng: fresh_rng(0), rounds: 0 }
    }

    fn state(&self) -> (r: State) {
        self.g.state()
    }

    fn turn(&self) -> (r: bool) {
        self.g.turn()
    }

    /// Tries every move again and again until the budget runs out, and
    /// answers the one that won most often.
    fn get_mov(&mut self, tl: Duration) -> (m: G::M)
        ensures
            won_most::<G>(old(self).g@, final(self).rounds as nat, m),
    {
        let watch = Stopwatch::start(&tl);
        let moves = self.g.get_moves();
        let turn = self.g.turn();
        proof {
            self.g.law_inv();
            G::law_going_has_moves(self.g@);
        }
        let mut v: Vec<u32> = Vec::new();
        let mut k: usize = 0;
        while k < moves.len()
            invariant
                k <= moves@.len(),
                v@.len() == k,
                forall|j: int| 0 <= j < k ==> v@[j] == 0,
            decreases moves@.len() - k,
        {
            v.push(0);
            k += 1;
        }
        let mut i: u32 = 0;
        while i < u32::MAX && !watch.expired()
            invariant
                self.g.inv(),
                self.g@ == old(self).g@,
                G::status(self.g@) == State::Going,
                moves@ == G::moves(self.g@),
                v@.len() == moves@.len(),
                turn == G::to_move(self.g@),
                forall|j: int| 0 <= j < v@.len() ==> v@[j] <= i,
                tallied::<G>(self.g@, turn, v@, i as nat),
            decreases u32::MAX - i,
        {
            let ghost was = v@;
            i += 1;
            self.round(&moves, &mut v, turn);
            assert(tallied::<G>(self.g@, turn, was, (i - 1) as nat) && round_of::<G>(
                self.g@,
                turn,
                was,
                v@,
            ));
        }
        self.rounds = i;
        let at = pick(&v);
        assert(moves@.contains(moves@[at as int]));
        assert(last_greatest(v@, at as int));
        G::copy_move(&moves[at])
    }

    fn mov(&mut self, m: &G::M) {
        self.g.mov(m);
    }
}

} // verus!
