//! The player: the games of a playground placed by id, and the cursor that
//! walks through the order they are played in.

use vstd::prelude::*;
use crate::config::{CommandHint, Game, Playground};

verus! {

/// Why no game can be played next.
#[derive(Clone, Copy, Debug, PartialEq, Eq, Structural)]
pub enum PlayError {
    /// Every position of the order has been passed.
    ReachedEnd,
    /// The order names this id, but no game has it.
    MissingGame(usize),
}

/// Plays the games of a playground in its order.
pub struct GamePlayer {
    play_ground: Playground,
    games: Vec<Option<Game>>,
    len: usize,
    cursor: usize,
}

/// What a player is: the order of ids, a slot for each id, the position in
/// the order, and what it keeps of the playground.
pub struct PlayerView {
    pub order: Seq<usize>,
    pub slots: Seq<Option<Game>>,
    pub cursor: nat,
    pub hints: Seq<CommandHint>,
    pub description: Seq<char>,
    /// The games the player still keeps in its playground's game list; all
    /// of them have been moved into slots when the player is built.
    pub kept: Seq<Game>,
}

/// The largest id in `order`, or 0 when it is empty.
pub open spec fn max_id(order: Seq<usize>) -> nat
    decreases order.len(),
{
    if order.len() == 0 {
        0
    } else {
        let m = max_id(order.drop_last());
        if order.last() > m {
            order.last() as nat
        } else {
            m
        }
    }
}

/// The number of slots a player keeps for `order`: one more than its
/// largest id.
pub open spec fn slot_count(order: Seq<usize>) -> nat {
    max_id(order) + 1
}

/// The last game of `games` with id `id`, which is the one a player keeps.
pub open spec fn last_with_id(games: Seq<Game>, id: int) -> Option<Game>
    decreases games.len(),
{
    if games.len() == 0 {
        None
    } else if games.last().id == id {
        Some(games.last())
    } else {
        last_with_id(games.drop_last(), id)
    }
}

/// The slots a player makes of `games`: slot `i` holds the last game with
/// id `i`.
pub open spec fn slots_of(games: Seq<Game>, count: nat) -> Seq<Option<Game>> {
    Seq::new(count, |i: int| last_with_id(games, i))
}

/// A playground a player can be built from: its largest id can be counted
/// past, and every game's id has a slot.
pub open spec fn playable(pg: Playground) -> bool {
    &&& max_id(pg.game_order@) < usize::MAX
    &&& forall|k: int| 0 <= k < pg.game@.len() ==> #[trigger] pg.game@[k].id < slot_count(
        pg.game_order@,
    )
}

/// The player built from `pg`.
pub open spec fn player_of(pg: Playground) -> PlayerView {
    PlayerView {
        order: pg.game_order@,
        slots: slots_of(pg.game@, slot_count(pg.game_order@)),
        cursor: 0,
        hints: pg.command_hints@,
        description: pg.game_description@,
        kept: Seq::empty(),
    }
}

/// The player after a call of `play_next` on `p`: the result and the new
/// player.
pub open spec fn next_step(p: PlayerView) -> (Result<usize, PlayError>, PlayerView) {
    if p.cursor >= p.slots.len() {
        (Err(PlayError::ReachedEnd), p)
    } else {
        let id = p.order[p.cursor as int];
        if id < p.slots.len() && p.slots[id as int] is Some {
            (Ok(id), PlayerView { cursor: p.cursor + 1, ..p })
        } else {
            (Err(PlayError::MissingGame(id)), p)
        }
    }
}

/// `play_next` can be called on `p` without the order running out before
/// the slots do.
pub open spec fn can_step(p: PlayerView) -> bool {
    p.cursor < p.slots.len() ==> p.cursor < p.order.len()
}

/// The player after `k` calls of `play_next`.
pub open spec fn steps(p: PlayerView, k: nat) -> PlayerView
    decreases k,
{
    if k == 0 {
        p
    } else {
        next_step(steps(p, (k - 1) as nat)).1
    }
}

/// The largest id in `order`, or 0 when it is empty.
pub fn largest_id(order: &Vec<usize>) -> (m: usize)
    ensures
        m == max_id(order@),
{
    let n = order.len();
    let mut largest: usize = 0;
    let mut i: usize = 0;
    proof {
        assert(order@.take(0) =~= Seq::<usize>::empty());
    }
    while i < n
        invariant
            n == order.len(),
            i <= n,
            largest == max_id(order@.take(i as int)),
        decreases n - i,
    {
        proof {
            let t = order@.take(i as int + 1);
            assert(t.drop_last() =~= order@.take(i as int));
        }
        if order[i] > largest {
            largest = order[i];
        }
        i = i + 1;
    }
    proof {
        assert(order@.take(n as int) =~= order@);
    }
    largest
}

/// Whether a player can be built from `play_ground`.
pub fn is_playable(play_ground: &Playground) -> (b: bool)
    ensures
        b == playable(*play_ground),
{
    let order = &play_ground.game_order;
    let largest = largest_id(order);
    if largest == usize::MAX {
        return false;
    }
    let games = &play_ground.game;
    let m = games.len();
    let mut k: usize = 0;
    while k < m
        invariant
            m == games.len(),
            k <= m,
            largest == max_id(order@),
            largest < usize::MAX,
            games@ == play_ground.game@,
            order@ == play_ground.game_order@,
            forall|j: int| 0 <= j < k ==> #[trigger] games@[j].id < slot_count(order@),
        decreases m - k,
    {
        if games[k].id > largest {
            proof {
                assert(!(games@[k as int].id < slot_count(order@)));
            }
            return false;
        }
        k = k + 1;
    }
    true
}

impl View for GamePlayer {
    type V = PlayerView;

    closed spec fn view(&self) -> PlayerView {
        PlayerView {
            order: self.play_ground.game_order@,
            slots: self.games@,
            cursor: self.cursor as nat,
            hints: self.play_ground.command_hints@,
            description: self.play_ground.game_description@,
            kept: self.play_ground.game@,
        }
    }
}

impl GamePlayer {
    #[verifier::type_invariant]
    closed spec fn well_formed(&self) -> bool {
        &&& self.games@.len() == self.len
        &&& self.cursor <= self.len
    }

    /// Places the games of `play_ground` in slots by id, one slot per id up
    /// to the largest id of the order; a later game takes the slot of an
    /// earlier one with the same id.
    fn new(play_ground: Playground) -> (p: GamePlayer)
        requires
            playable(play_ground),
        ensures
            p@ == player_of(play_ground),
    {
        let Playground { game_order, game_description, game, command_hints } = play_ground;
        let ghost all_games = game@;
        let largest = largest_id(&game_order);
        let len = largest + 1;
        let mut games: Vec<Option<Game>> = Vec::new();
        let mut j: usize = 0;
        while j < len
            invariant
                j <= len,
                games@.len() == j,
                forall|k: int| 0 <= k < j ==> games@[k] is None,
            decreases len - j,
        {
            games.push(None);
            j = j + 1;
        }
        proof {
            assert(all_games.take(0) =~= Seq::<Game>::empty());
        }
        let mut source = game;
        let mut placed: usize = 0;
        let m = source.len();
        proof {
            assert(m == all_games.len());
        }
        let mut rest: Vec<Game> = Vec::new();
        // `source` is consumed from the back into `rest`, then `rest` from the
        // back, so that games are placed in the order they are listed.
        while source.len() > 0
            invariant
                source@ + rest@.reverse() == all_games,
            decreases source.len(),
        {
            let g = source.pop().unwrap();
            let ghost before = rest@;
            rest.push(g);
            proof {
                assert(rest@.reverse() =~= seq![g] + before.reverse());
                assert(source@ + rest@.reverse() =~= (source@ + seq![g]) + before.reverse());
            }
        }
        proof {
            assert(source@ =~= Seq::<Game>::empty());
            assert(rest@.reverse() =~= all_games);
        }
        while rest.len() > 0
            invariant
                len == slot_count(game_order@),
                games@.len() == len,
                placed + rest@.len() == all_games.len(),
                m == all_games.len(),
                all_games.take(placed as int) + rest@.reverse() == all_games,
                forall|k: int| 0 <= k < all_games.len() ==> #[trigger] all_games[k].id < len,
                forall|s: int| 0 <= s < len ==> games@[s] == last_with_id(
                    all_games.take(placed as int),
                    s,
                ),
            decreases rest.len(),
        {
            let ghost before = rest@;
            let g = rest.pop().unwrap();
            proof {
                assert(before.reverse() =~= seq![g] + rest@.reverse());
                assert(all_games[placed as int] == g) by {
                    assert((all_games.take(placed as int) + before.reverse())[placed as int] == g);
                }
                assert(all_games.take(placed as int + 1) =~= all_games.take(placed as int).push(g));
                assert(all_games.take(placed as int + 1) + rest@.reverse() =~= all_games.take(
                    placed as int,
                ) + before.reverse());
            }
            let id = g.id;
            proof {
                assert(all_games[placed as int].id < len);
            }
            games.set(id, Some(g));
            placed = placed + 1;
            proof {
                let t = all_games.take(placed as int);
                assert(t.drop_last() =~= all_games.take(placed as int - 1));
                assert(t.last() == g);
            }
        }
        proof {
            assert(all_games.take(placed as int) =~= all_games);
            assert(games@ =~= slots_of(all_games, slot_count(game_order@)));
        }
        GamePlayer {
            play_ground: Playground {
                game_order,
                game_description,
                game: Vec::new(),
                command_hints,
            },
            games,
            len,
            cursor: 0,
        }
    }

    /// Builds a player from a parsed configuration.
    pub fn build_from_config(play_ground: Playground) -> (p: GamePlayer)
        requires
            playable(play_ground),
        ensures
            p@ == player_of(play_ground),
    {
        Self::new(play_ground)
    }

    /// The game in the slot of `id`, if there is one.
    pub fn game(&self, id: usize) -> (g: Option<&Game>)
        ensures
            match g {
                Some(x) => id < self@.slots.len() && self@.slots[id as int] == Some(*x),
                None => id >= self@.slots.len() || self@.slots[id as int] is None,
            },
    {
        if id < self.games.len() {
            match &self.games[id] {
                Some(x) => Some(x),
                None => None,
            }
        } else {
            None
        }
    }

    /// The command hints of the playground.
    pub fn command_hints(&self) -> (h: &Vec<CommandHint>)
        ensures
            h@ == self@.hints,
    {
        &self.play_ground.command_hints
    }

    /// Whether `play_next` may be called: the order must have an entry at
    /// the cursor whenever the cursor is still below the number of slots.
    pub fn can_play_next(&self) -> (b: bool)
        ensures
            b == can_step(self@),
    {
        proof {
            use_type_invariant(self);
        }
        self.cursor >= self.len || self.cursor < self.play_ground.game_order.len()
    }

    /// Moves to the next game of the order and gives its id: the caller
    /// then plays that game. Fails, and leaves the player as it was, when the
    /// cursor has passed the last slot or the order names an id that has no
    /// game.
    pub fn play_next(&mut self) -> (r: Result<usize, PlayError>)
        requires
            can_step(old(self)@),
        ensures
            (r, final(self)@) == next_step(old(self)@),
    {
        proof {
            use_type_invariant(&*self);
        }
        if self.cursor >= self.len {
            return Err(PlayError::ReachedEnd);
        }
        let index = self.play_ground.game_order[self.cursor];
        if index < self.games.len() && self.games[index].is_some() {
            self.cursor = self.cursor + 1;
            Ok(index)
        } else {
            Err(PlayError::MissingGame(index))
        }
    }
}

/// A call of `play_next` that fails leaves the player as it was, so calling
/// it again fails in the same way.
pub proof fn lemma_failure_is_stable(p: PlayerView)
    ensures
        next_step(p).0 is Err ==> next_step(p).1 == p && next_step(next_step(p).1) == next_step(
            p,
        ),
{
}

/// While the order names games that exist, `play_next` gives their ids one
/// after the other, in the order's sequence, moving the cursor by one each
/// time and changing nothing else.
pub proof fn lemma_plays_in_order(p: PlayerView, k: nat)
    requires
        p.cursor + k <= p.slots.len(),
        p.cursor + k <= p.order.len(),
        forall|i: int|
            p.cursor <= i < p.cursor + k ==> #[trigger] p.order[i] < p.slots.len() && p.slots[p.order[i] as int] is Some,
    ensures
        steps(p, k) == (PlayerView { cursor: p.cursor + k, ..p }),
        forall|i: nat| i < k ==> #[trigger] next_step(steps(p, i)).0 == Ok::<usize, PlayError>(
            p.order[(p.cursor + i) as int],
        ),
    decreases k,
{
    if k > 0 {
        lemma_plays_in_order(p, (k - 1) as nat);
        let q = steps(p, (k - 1) as nat);
        assert(p.order[p.cursor + k - 1] < p.slots.len());
        assert(next_step(q).1 == (PlayerView { cursor: p.cursor + k, ..p }));
        assert forall|i: nat| i < k implies #[trigger] next_step(steps(p, i)).0 == Ok::<
            usize,
            PlayError,
        >(p.order[(p.cursor + i) as int]) by {
            if i < k - 1 {
            } else {
                assert(i == k - 1);
            }
        }
    }
}

/// The last game of `games` with id `id` exists when some game has that id,
/// and it has that id.
proof fn lemma_last_with_id_found(games: Seq<Game>, k: int)
    requires
        0 <= k < games.len(),
    ensures
        last_with_id(games, games[k].id as int) is Some,
        last_with_id(games, games[k].id as int)->0.id == games[k].id,
    decreases games.len(),
{
    if games.last().id != games[k].id {
        assert(k < games.len() - 1);
        assert(games.drop_last()[k] == games[k]);
        lemma_last_with_id_found(games.drop_last(), k);
    }
}

/// Every game of a playground can be found in the player built from it: the
/// slot of its id holds a game with that id.
pub proof fn lemma_listed_games_found(pg: Playground)
    requires
        playable(pg),
    ensures
        forall|k: int|
            0 <= k < pg.game@.len() ==> {
                let id = #[trigger] pg.game@[k].id;
                &&& id < player_of(pg).slots.len()
                &&& player_of(pg).slots[id as int] is Some
                &&& player_of(pg).slots[id as int]->0.id == id
            },
{
    assert forall|k: int| 0 <= k < pg.game@.len() implies {
        let id = #[trigger] pg.game@[k].id;
        &&& id < player_of(pg).slots.len()
        &&& player_of(pg).slots[id as int] is Some
        &&& player_of(pg).slots[id as int]->0.id == id
    } by {
        lemma_last_with_id_found(pg.game@, k);
    }
}

/// Over any sequence of `play_next` calls, each made where it may be made,
/// the cursor stays within the order and the slots, grows by at most one
/// per call, and nothing else of the player changes.
pub proof fn lemma_steps_stay_in_bounds(p: PlayerView, k: nat)
    requires
        p.cursor <= p.slots.len(),
        p.cursor <= p.order.len(),
        forall|i: nat| i < k ==> can_step(#[trigger] steps(p, i)),
    ensures
        steps(p, k).cursor <= p.slots.len(),
        steps(p, k).cursor <= p.order.len(),
        steps(p, k).cursor <= p.cursor + k,
        steps(p, k) == (PlayerView { cursor: steps(p, k).cursor, ..p }),
    decreases k,
{
    if k > 0 {
        let k1 = (k - 1) as nat;
        assert forall|i: nat| i < k1 implies can_step(#[trigger] steps(p, i)) by {
            assert(i < k);
        }
        lemma_steps_stay_in_bounds(p, k1);
        assert(can_step(steps(p, k1)));
    }
}

/// From a player just built from `pg`, over any sequence of `play_next`
/// calls each made where it may be made, the cursor stays within the order
/// and the slots, and the order, slots, hints and description stay as built.
pub proof fn lemma_built_player_stays_in_bounds(pg: Playground, k: nat)
    requires
        forall|i: nat| i < k ==> can_step(#[trigger] steps(player_of(pg), i)),
    ensures
        steps(player_of(pg), k).cursor <= player_of(pg).order.len(),
        steps(player_of(pg), k).cursor <= player_of(pg).slots.len(),
        steps(player_of(pg), k) == (PlayerView {
            cursor: steps(player_of(pg), k).cursor,
            ..player_of(pg)
        }),
{
    lemma_steps_stay_in_bounds(player_of(pg), k);
}

/// Once the cursor has reached the number of slots, `play_next` may always
/// be called: it reports the end and changes nothing. So a play-through
/// that has played every slot ends without a fault.
pub proof fn lemma_end_may_be_asked(p: PlayerView)
    requires
        p.cursor >= p.slots.len(),
    ensures
        can_step(p),
        next_step(p) == (Err::<usize, PlayError>(PlayError::ReachedEnd), p),
{
}

/// `play_next` may not be called only when the cursor is below the number
/// of slots and the order has no entry at the cursor.
pub proof fn lemma_refusal_only_past_order(p: PlayerView)
    ensures
        !can_step(p) <==> p.cursor < p.slots.len() && p.cursor >= p.order.len(),
{
}

} // verus!
