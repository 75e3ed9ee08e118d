//! The game store: sole source of truth for game records, keyed by the
//! directed (host, opponent) address pair and held in ascending key order.
//!
//! At most one record exists per key. Point lookups find the unique record
//! for a pair; scans return records in stored-key order, so a scan by host
//! yields that host's games ordered by opponent address.

use vstd::prelude::*;

use crate::error::ContractError;
use crate::order::{
    cmp_bytes, cmp_keys, game_below_key, game_lt, key_below_game, lemma_addr_bytes_injective,
    lemma_pair_lt_irreflexive, lemma_pair_lt_transitive, Cmp,
};
use crate::state::{pending, Game, GameMove, GameResult, GameV};

verus! {

/// The games of a sequence, as mathematical values.
pub open spec fn games_view(s: Seq<Game>) -> Seq<GameV> {
    s.map_values(|g: Game| g@)
}

/// Does the record carry exactly this key?
pub open spec fn is_key(g: GameV, host: Seq<char>, opponent: Seq<char>) -> bool {
    g.host == host && g.opponent == opponent
}

/// Does some record of `s` carry this key?
pub open spec fn has_game(s: Seq<GameV>, host: Seq<char>, opponent: Seq<char>) -> bool {
    exists|i: int| 0 <= i < s.len() && is_key(#[trigger] s[i], host, opponent)
}

/// The record of `s` carrying this key; meaningful when `has_game` holds,
/// and under the store invariant it is the only such record.
pub open spec fn game_at(s: Seq<GameV>, host: Seq<char>, opponent: Seq<char>) -> GameV {
    s[choose|i: int| 0 <= i < s.len() && is_key(#[trigger] s[i], host, opponent)]
}

/// Selects the games of a given host.
pub open spec fn by_host(host: Seq<char>) -> spec_fn(GameV) -> bool {
    |g: GameV| g.host == host
}

/// Selects the games against a given opponent.
pub open spec fn by_opponent(opponent: Seq<char>) -> spec_fn(GameV) -> bool {
    |g: GameV| g.opponent == opponent
}

/// The store invariant: records strictly ascend in key order (hence keys
/// are unique), and every stored record is pending.
pub open spec fn store_inv(s: Seq<GameV>) -> bool {
    &&& forall|i: int, j: int| 0 <= i < j < s.len() ==> game_lt(#[trigger] s[i], #[trigger] s[j])
    &&& forall|i: int| 0 <= i < s.len() ==> pending(#[trigger] s[i])
}

/// Under the store invariant keys are unique: two records with the same key
/// stand at the same index.
pub proof fn lemma_key_unique(
    s: Seq<GameV>,
    host: Seq<char>,
    opponent: Seq<char>,
    i: int,
    j: int,
)
    requires
        store_inv(s),
        0 <= i < s.len(),
        0 <= j < s.len(),
        is_key(s[i], host, opponent),
        is_key(s[j], host, opponent),
    ensures
        i == j,
{
    if i != j {
        lemma_pair_lt_irreflexive(host, opponent);
    }
}

/// If every record below `i` sits below the key and every record from `i`
/// on sits above it, no record carries the key.
proof fn lemma_no_key_between(s: Seq<GameV>, host: Seq<char>, opponent: Seq<char>, i: int)
    requires
        0 <= i <= s.len(),
        forall|j: int| 0 <= j < i ==> game_below_key(#[trigger] s[j], host, opponent),
        forall|j: int| i <= j < s.len() ==> key_below_game(host, opponent, #[trigger] s[j]),
    ensures
        !has_game(s, host, opponent),
{
    assert forall|j: int| 0 <= j < s.len() implies !is_key(#[trigger] s[j], host, opponent) by {
        if is_key(s[j], host, opponent) {
            lemma_pair_lt_irreflexive(host, opponent);
        }
    }
}

/// A record just inserted occupies its key.
pub proof fn lemma_insert_then_found(s: Seq<GameV>, i: int, g: GameV)
    requires
        0 <= i <= s.len(),
    ensures
        has_game(s.insert(i, g), g.host, g.opponent),
{
    s.insert_ensures(i, g);
    assert(is_key(s.insert(i, g)[i], g.host, g.opponent));
}

/// Insertion preserves the presence of every key.
pub proof fn lemma_insert_preserves_keys(
    s: Seq<GameV>,
    i: int,
    g: GameV,
    host: Seq<char>,
    opponent: Seq<char>,
)
    requires
        0 <= i <= s.len(),
        has_game(s, host, opponent),
    ensures
        has_game(s.insert(i, g), host, opponent),
{
    let p = choose|p: int| 0 <= p < s.len() && is_key(#[trigger] s[p], host, opponent);
    s.insert_ensures(i, g);
    if p < i {
        assert(is_key(s.insert(i, g)[p], host, opponent));
    } else {
        assert(is_key(s.insert(i, g)[p + 1], host, opponent));
    }
}

/// Removing the record of a key leaves no record of that key behind.
pub proof fn lemma_remove_key_absent(s: Seq<GameV>, host: Seq<char>, opponent: Seq<char>, i: int)
    requires
        store_inv(s),
        0 <= i < s.len(),
        is_key(s[i], host, opponent),
    ensures
        !has_game(s.remove(i), host, opponent),
{
    s.remove_ensures(i);
    assert forall|j: int| 0 <= j < s.remove(i).len() implies !is_key(
        #[trigger] s.remove(i)[j],
        host,
        opponent,
    ) by {
        if is_key(s.remove(i)[j], host, opponent) {
            if j < i {
                lemma_key_unique(s, host, opponent, i, j);
            } else {
                lemma_key_unique(s, host, opponent, i, j + 1);
            }
        }
    }
}

/// Mapping to views commutes with appending one record.
proof fn lemma_games_view_push(s: Seq<Game>, g: Game)
    ensures
        games_view(s.push(g)) == games_view(s).push(g@),
{
    assert forall|j: int| 0 <= j < s.len() + 1 implies #[trigger] games_view(s.push(g))[j]
        == games_view(s).push(g@)[j] by {
        if j < s.len() {
            assert(s.push(g)[j] == s[j]);
        } else {
            assert(s.push(g)[j] == g);
        }
    }
    assert(games_view(s.push(g)) =~= games_view(s).push(g@));
}

/// Mapping to views commutes with insertion.
proof fn lemma_games_view_insert(s: Seq<Game>, i: int, g: Game)
    requires
        0 <= i <= s.len(),
    ensures
        games_view(s.insert(i, g)) == games_view(s).insert(i, g@),
{
    s.insert_ensures(i, g);
    games_view(s).insert_ensures(i, g@);
    assert forall|j: int| 0 <= j < s.len() + 1 implies #[trigger] games_view(s.insert(i, g))[j]
        == games_view(s).insert(i, g@)[j] by {
        if j < i {
            assert(s.insert(i, g)[j] == s[j]);
        } else if j == i {
            assert(s.insert(i, g)[j] == g);
        } else {
            assert(s.insert(i, g)[j] == s[j - 1]);
        }
    }
    assert(games_view(s.insert(i, g)) =~= games_view(s).insert(i, g@));
}

/// Mapping to views commutes with removal.
proof fn lemma_games_view_remove(s: Seq<Game>, i: int)
    requires
        0 <= i < s.len(),
    ensures
        games_view(s.remove(i)) == games_view(s).remove(i),
{
    s.remove_ensures(i);
    games_view(s).remove_ensures(i);
    assert forall|j: int| 0 <= j < s.len() - 1 implies #[trigger] games_view(s.remove(i))[j]
        == games_view(s).remove(i)[j] by {
        if j < i {
            assert(s.remove(i)[j] == s[j]);
        } else {
            assert(s.remove(i)[j] == s[j + 1]);
        }
    }
    assert(games_view(s.remove(i)) =~= games_view(s).remove(i));
}

/// Filtering a key-sorted sequence keeps it key-sorted: scans come out in
/// ascending key order.
pub proof fn lemma_filter_preserves_order(games: Seq<GameV>, p: spec_fn(GameV) -> bool)
    requires
        forall|i: int, j: int|
            0 <= i < j < games.len() ==> game_lt(#[trigger] games[i], #[trigger] games[j]),
    ensures
        forall|i: int, j: int|
            0 <= i < j < games.filter(p).len() ==> game_lt(
                #[trigger] games.filter(p)[i],
                #[trigger] games.filter(p)[j],
            ),
    decreases games.len(),
{
    reveal(Seq::filter);
    if games.len() > 0 {
        let rest = games.drop_last();
        let last = games.last();
        assert forall|i: int, j: int| 0 <= i < j < rest.len() implies game_lt(
            #[trigger] rest[i],
            #[trigger] rest[j],
        ) by {
            assert(rest[i] == games[i]);
            assert(rest[j] == games[j]);
        }
        lemma_filter_preserves_order(rest, p);
        let rf = rest.filter(p);
        if p(last) {
            assert(games.filter(p) == rf.push(last));
            assert forall|i: int, j: int| 0 <= i < j < rf.push(last).len() implies game_lt(
                #[trigger] rf.push(last)[i],
                #[trigger] rf.push(last)[j],
            ) by {
                if j == rf.len() {
                    assert(rf.contains(rf[i]));
                    rest.lemma_filter_contains_rev(p, rf[i]);
                    let k = choose|k: int| 0 <= k < rest.len() && rest[k] == rf[i];
                    assert(games[k] == rf[i]);
                    assert(game_lt(games[k], games[games.len() - 1]));
                } else {
                    assert(rf.push(last)[i] == rf[i]);
                    assert(rf.push(last)[j] == rf[j]);
                }
            }
        } else {
            assert(games.filter(p) == rf);
        }
    }
}

/// Filtering commutes with appending one record.
proof fn lemma_filter_push(s: Seq<GameV>, x: GameV, p: spec_fn(GameV) -> bool)
    ensures
        s.push(x).filter(p) == if p(x) {
            s.filter(p).push(x)
        } else {
            s.filter(p)
        },
{
    reveal(Seq::filter);
    assert(s.push(x).drop_last() =~= s);
    assert(s.push(x).last() == x);
}

/// The ordered mapping from (host, opponent) pairs to pending games.
pub struct GameStore {
    games: Vec<Game>,
}

impl View for GameStore {
    type V = Seq<GameV>;

    closed spec fn view(&self) -> Seq<GameV> {
        games_view(self.games@)
    }
}

impl GameStore {
    /// Well-formedness: the representation satisfies the store invariant.
    pub open spec fn wf(&self) -> bool {
        store_inv(self@)
    }

    /// An empty store.
    pub fn new() -> (r: GameStore)
        ensures
            r@ == Seq::<GameV>::empty(),
            r.wf(),
    {
        let r = GameStore { games: Vec::new() };
        proof {
            assert(r@ =~= Seq::<GameV>::empty());
        }
        r
    }

    /// Finds the key's record, or the position where it would be inserted.
    fn seek(&self, host: &str, opponent: &str) -> (r: (usize, bool))
        requires
            self.wf(),
        ensures
            r.0 <= self@.len(),
            r.1 ==> r.0 < self@.len() && is_key(self@[r.0 as int], host@, opponent@),
            !r.1 ==> (forall|j: int|
                0 <= j < r.0 ==> game_below_key(#[trigger] self@[j], host@, opponent@)) && (
            forall|j: int|
                r.0 <= j < self@.len() ==> key_below_game(host@, opponent@, #[trigger] self@[j]))
                && !has_game(self@, host@, opponent@),
    {
        let n = self.games.len();
        let mut i: usize = 0;
        while i < n
            invariant
                self.wf(),
                n == self.games.len(),
                i <= n,
                forall|j: int|
                    0 <= j < i ==> game_below_key(#[trigger] self@[j], host@, opponent@),
            decreases n - i,
        {
            proof {
                assert(self@[i as int] == self.games@[i as int]@);
            }
            let g = &self.games[i];
            let c = cmp_keys(g.host.as_str(), g.opponent.as_str(), host, opponent);
            if c == Cmp::Equal {
                return (i, true);
            }
            if c == Cmp::Greater {
                proof {
                    assert forall|j: int| i <= j < self@.len() implies key_below_game(
                        host@,
                        opponent@,
                        #[trigger] self@[j],
                    ) by {
                        if j > i {
                            lemma_pair_lt_transitive(
                                host@,
                                opponent@,
                                self@[i as int].host,
                                self@[i as int].opponent,
                                self@[j].host,
                                self@[j].opponent,
                            );
                        }
                    }
                    lemma_no_key_between(self@, host@, opponent@, i as int);
                }
                return (i, false);
            }
            i += 1;
        }
        proof {
            lemma_no_key_between(self@, host@, opponent@, n as int);
        }
        (i, false)
    }

    /// Is a game pending for this exact (host, opponent) pair?
    pub fn contains_key(&self, host: &str, opponent: &str) -> (r: bool)
        requires
            self.wf(),
        ensures
            r == has_game(self@, host@, opponent@),
    {
        let (i, found) = self.seek(host, opponent);
        proof {
            if found {
                assert(is_key(self@[i as int], host@, opponent@));
            }
        }
        found
    }

    /// Point lookup: the pending game for this exact pair, if any.
    pub fn get(&self, host: &str, opponent: &str) -> (r: Option<Game>)
        requires
            self.wf(),
        ensures
            match r {
                Some(g) => has_game(self@, host@, opponent@) && g@ == game_at(
                    self@,
                    host@,
                    opponent@,
                ),
                None => !has_game(self@, host@, opponent@),
            },
    {
        let (i, found) = self.seek(host, opponent);
        if found {
            let g = self.games[i].clone();
            proof {
                assert(has_game(self@, host@, opponent@));
                let k = choose|k: int|
                    0 <= k < self@.len() && is_key(#[trigger] self@[k], host@, opponent@);
                lemma_key_unique(self@, host@, opponent@, i as int, k);
                assert(self@[i as int] == self.games@[i as int]@);
            }
            Some(g)
        } else {
            None
        }
    }

    /// Creates the record for its (host, opponent) key; fails if one exists.
    pub fn insert(&mut self, game: Game) -> (r: Result<(), ContractError>)
        requires
            old(self).wf(),
            pending(game@),
        ensures
            final(self).wf(),
            has_game(old(self)@, game@.host, game@.opponent) ==> r == Err::<(), ContractError>(
                ContractError::OneGameAtATime {  },
            ) && final(self)@ == old(self)@,
            !has_game(old(self)@, game@.host, game@.opponent) ==> r is Ok && (exists|i: int|
                0 <= i <= old(self)@.len() && final(self)@ == old(self)@.insert(i, game@)),
    {
        let ghost g0 = game;
        let ghost gv = game@;
        let (i, found) = self.seek(game.host.as_str(), game.opponent.as_str());
        if found {
            proof {
                assert(is_key(self@[i as int], gv.host, gv.opponent));
            }
            return Err(ContractError::OneGameAtATime {  });
        }
        let ghost old_games = self.games@;
        let ghost old_view = self@;
        self.games.insert(i, game);
        proof {
            lemma_games_view_insert(old_games, i as int, g0);
            let new_view = self@;
            assert(new_view == old_view.insert(i as int, gv));
            old_view.insert_ensures(i as int, gv);
            assert forall|p: int, q: int| 0 <= p < q < new_view.len() implies game_lt(
                #[trigger] new_view[p],
                #[trigger] new_view[q],
            ) by {
                if p < i as int && q < i as int {
                    assert(new_view[p] == old_view[p]);
                    assert(new_view[q] == old_view[q]);
                } else if p < i as int && q == i as int {
                    assert(new_view[p] == old_view[p]);
                    assert(new_view[q] == gv);
                } else if p < i as int && q > i as int {
                    assert(new_view[p] == old_view[p]);
                    assert(new_view[q] == old_view[q - 1]);
                } else if p == i as int {
                    assert(new_view[p] == gv);
                    assert(new_view[q] == old_view[q - 1]);
                } else {
                    assert(new_view[p] == old_view[p - 1]);
                    assert(new_view[q] == old_view[q - 1]);
                }
            }
            assert forall|p: int| 0 <= p < new_view.len() implies pending(
                #[trigger] new_view[p],
            ) by {
                if p < i as int {
                    assert(new_view[p] == old_view[p]);
                } else if p > i as int {
                    assert(new_view[p] == old_view[p - 1]);
                }
            }
        }
        Ok(())
    }

    /// Resolves and removes the record of this exact pair in one operation:
    /// the returned record carries the opponent's move and the outcome, and
    /// the store no longer holds the key. Fails if no record exists.
    pub fn update_and_resolve(
        &mut self,
        host: &str,
        opponent: &str,
        opp_move: GameMove,
        result: GameResult,
    ) -> (r: Result<Game, ContractError>)
        requires
            old(self).wf(),
        ensures
            final(self).wf(),
            !has_game(old(self)@, host@, opponent@) ==> r == Err::<Game, ContractError>(
                ContractError::NoGameFound {  },
            ) && final(self)@ == old(self)@,
            has_game(old(self)@, host@, opponent@) ==> ({
                &&& exists|i: int|
                    0 <= i < old(self)@.len() && is_key(#[trigger] old(self)@[i], host@, opponent@)
                        && final(self)@ == old(self)@.remove(i)
                &&& r matches Ok(g) && g@ == (GameV {
                    opp_move: Some(opp_move),
                    result: Some(result),
                    ..game_at(old(self)@, host@, opponent@)
                })
            }),
    {
        let (i, found) = self.seek(host, opponent);
        if !found {
            return Err(ContractError::NoGameFound {  });
        }
        let ghost old_games = self.games@;
        let ghost old_view = self@;
        let g = self.games.remove(i);
        proof {
            lemma_games_view_remove(old_games, i as int);
            old_view.remove_ensures(i as int);
            let new_view = self@;
            assert(new_view == old_view.remove(i as int));
            assert forall|p: int, q: int| 0 <= p < q < new_view.len() implies game_lt(
                #[trigger] new_view[p],
                #[trigger] new_view[q],
            ) by {
                let pp = if p < i as int {
                    p
                } else {
                    p + 1
                };
                let qq = if q < i as int {
                    q
                } else {
                    q + 1
                };
                assert(new_view[p] == old_view[pp]);
                assert(new_view[q] == old_view[qq]);
            }
            assert forall|p: int| 0 <= p < new_view.len() implies pending(
                #[trigger] new_view[p],
            ) by {
                if p < i as int {
                    assert(new_view[p] == old_view[p]);
                } else {
                    assert(new_view[p] == old_view[p + 1]);
                }
            }
            assert(g@ == old_view[i as int]);
            assert(has_game(old_view, host@, opponent@));
            let k = choose|k: int|
                0 <= k < old_view.len() && is_key(#[trigger] old_view[k], host@, opponent@);
            lemma_key_unique(old_view, host@, opponent@, i as int, k);
        }
        Ok(
            Game {
                host: g.host,
                opponent: g.opponent,
                host_move: g.host_move,
                opp_move: Some(opp_move),
                result: Some(result),
            },
        )
    }

    /// All pending games of this host, ascending by opponent address.
    pub fn scan_by_host(&self, host: &str) -> (r: Vec<Game>)
        requires
            self.wf(),
        ensures
            games_view(r@) == self@.filter(by_host(host@)),
            forall|i: int, j: int|
                0 <= i < j < r@.len() ==> game_lt(
                    #[trigger] games_view(r@)[i],
                    #[trigger] games_view(r@)[j],
                ),
    {
        let mut found: Vec<Game> = Vec::new();
        let n = self.games.len();
        let mut i: usize = 0;
        proof {
            assert(games_view(found@) =~= self@.take(0).filter(by_host(host@)));
        }
        while i < n
            invariant
                self.wf(),
                n == self.games.len(),
                i <= n,
                games_view(found@) == self@.take(i as int).filter(by_host(host@)),
            decreases n - i,
        {
            proof {
                assert(self@[i as int] == self.games@[i as int]@);
                assert(self@.take(i as int + 1) =~= self@.take(i as int).push(self@[i as int]));
                lemma_filter_push(self@.take(i as int), self@[i as int], by_host(host@));
            }
            let ghost found_before = found@;
            let g = &self.games[i];
            let c = cmp_bytes(g.host.as_str().as_bytes(), host.as_bytes());
            if c == Cmp::Equal {
                proof {
                    lemma_addr_bytes_injective(g.host@, host@);
                }
                found.push(g.clone());
                proof {
                    lemma_games_view_push(found_before, self.games@[i as int]);
                }
            }
            i += 1;
        }
        proof {
            assert(self@.take(n as int) =~= self@);
            lemma_filter_preserves_order(self@, by_host(host@));
        }
        found
    }

    /// All pending games against this opponent, regardless of host, in
    /// stored-key order.
    pub fn scan_by_opponent(&self, opponent: &str) -> (r: Vec<Game>)
        requires
            self.wf(),
        ensures
            games_view(r@) == self@.filter(by_opponent(opponent@)),
            forall|i: int, j: int|
                0 <= i < j < r@.len() ==> game_lt(
                    #[trigger] games_view(r@)[i],
                    #[trigger] games_view(r@)[j],
                ),
    {
        let mut found: Vec<Game> = Vec::new();
        let n = self.games.len();
        let mut i: usize = 0;
        proof {
            assert(games_view(found@) =~= self@.take(0).filter(by_opponent(opponent@)));
        }
        while i < n
            invariant
                self.wf(),
                n == self.games.len(),
                i <= n,
                games_view(found@) == self@.take(i as int).filter(by_opponent(opponent@)),
            decreases n - i,
        {
            proof {
                assert(self@[i as int] == self.games@[i as int]@);
                assert(self@.take(i as int + 1) =~= self@.take(i as int).push(self@[i as int]));
                lemma_filter_push(self@.take(i as int), self@[i as int], by_opponent(opponent@));
            }
            let ghost found_before = found@;
            let g = &self.games[i];
            let c = cmp_bytes(g.opponent.as_str().as_bytes(), opponent.as_bytes());
            if c == Cmp::Equal {
                proof {
                    lemma_addr_bytes_injective(g.opponent@, opponent@);
                }
                found.push(g.clone());
                proof {
                    lemma_games_view_push(found_before, self.games@[i as int]);
                }
            }
            i += 1;
        }
        proof {
            assert(self@.take(n as int) =~= self@);
            lemma_filter_preserves_order(self@, by_opponent(opponent@));
        }
        found
    }

    /// Every pending game, ascending by full (host, opponent) key.
    pub fn scan_all(&self) -> (r: Vec<Game>)
        requires
            self.wf(),
        ensures
            games_view(r@) == self@,
    {
        let mut found: Vec<Game> = Vec::new();
        let n = self.games.len();
        let mut i: usize = 0;
        proof {
            assert(games_view(found@) =~= self@.take(0));
        }
        while i < n
            invariant
                n == self.games.len(),
                i <= n,
                games_view(found@) == self@.take(i as int),
            decreases n - i,
        {
            proof {
                assert(self@[i as int] == self.games@[i as int]@);
                assert(self@.take(i as int + 1) =~= self@.take(i as int).push(self@[i as int]));
            }
            let ghost found_before = found@;
            found.push(self.games[i].clone());
            proof {
                lemma_games_view_push(found_before, self.games@[i as int]);
            }
            i += 1;
        }
        proof {
            assert(self@.take(n as int) =~= self@);
        }
        found
    }
}

} // verus!
