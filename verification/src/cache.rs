//! The store of estimates: each position is valued once and found again
//! under a number that stands for its grid and its sides.

use std::collections::HashMap;
use vstd::prelude::*;
use crate::heuristic::{heuristic_den, heuristic_num};
use crate::rules::{is_player, valid_grid, Grid, BLACK};
use crate::score::Score;
use crate::table_state::Table;

verus! {

broadcast use vstd::std_specs::hash::group_hash_axioms;

/// 3 to the power `n`.
pub open spec fn pow3(n: nat) -> nat
    decreases n,
{
    if n == 0 {
        1
    } else {
        3 * pow3((n - 1) as nat)
    }
}

/// The digit that stands for the `i`-th cell, row by row: 0 for a white
/// disk, 1 for an empty cell, 2 for a black disk.
pub open spec fn digit(g: Grid, i: int) -> int {
    g[i / 8][i % 8] + 1
}

/// The first `n` cells of the grid as a number in base 3.
pub open spec fn code(g: Grid, n: nat) -> int
    decreases n,
{
    if n == 0 {
        0
    } else {
        3 * code(g, (n - 1) as nat) + digit(g, n - 1)
    }
}

/// The number that stands for a position: its grid in base 3, and one
/// more binary digit for the side of the bot.
pub open spec fn board_key(g: Grid, bot: int) -> int {
    2 * code(g, 64) + (if bot == BLACK {
        1int
    } else {
        0int
    })
}

/// The value of `pow3(64)`, which is below the largest `u128`.
proof fn lemma_pow3_64()
    ensures
        pow3(64) == 3433683820292512484657849089281,
{
    reveal_with_fuel(pow3, 9);
    assert(pow3(8) == 6561);
    assert(pow3(16) == 43046721);
    assert(pow3(24) == 282429536481);
    assert(pow3(32) == 1853020188851841);
    assert(pow3(40) == 12157665459056928801);
    assert(pow3(48) == 79766443076872509863361);
    assert(pow3(56) == 523347633027360537213511521);
}

/// The code of `n` cells of a valid grid is below `pow3(n)`.
proof fn lemma_code_bound(g: Grid, n: nat)
    requires
        valid_grid(g),
        n <= 64,
    ensures
        0 <= code(g, n) < pow3(n),
    decreases n,
{
    if n > 0 {
        lemma_code_bound(g, (n - 1) as nat);
        let i = n - 1;
        let v = g[i / 8][i % 8];
        assert(0 <= digit(g, i) <= 2);
    }
}

/// `pow3` grows with its argument.
proof fn lemma_pow3_grows(a: nat, b: nat)
    requires
        a <= b,
    ensures
        1 <= pow3(a) <= pow3(b),
    decreases b,
{
    if a < b {
        lemma_pow3_grows(a, (b - 1) as nat);
    } else if a > 0 {
        lemma_pow3_grows((a - 1) as nat, (a - 1) as nat);
    }
}

/// Two valid grids with the same code over `n` cells agree on those cells.
proof fn lemma_code_injective(g: Grid, h: Grid, n: nat)
    requires
        valid_grid(g),
        valid_grid(h),
        n <= 64,
        code(g, n) == code(h, n),
    ensures
        forall|i: int| 0 <= i < n ==> #[trigger] g[i / 8][i % 8] == h[i / 8][i % 8],
    decreases n,
{
    if n > 0 {
        let i = n - 1;
        let a = g[i / 8][i % 8];
        let b = h[i / 8][i % 8];
        assert(0 <= digit(g, i) <= 2);
        assert(0 <= digit(h, i) <= 2);
        lemma_code_injective(g, h, (n - 1) as nat);
    }
}

/// No two positions have the same key.
pub proof fn lemma_key_injective(g: Grid, bot: int, h: Grid, other: int)
    requires
        valid_grid(g),
        valid_grid(h),
        is_player(bot),
        is_player(other),
        board_key(g, bot) == board_key(h, other),
    ensures
        g == h,
        bot == other,
{
    lemma_code_injective(g, h, 64);
    assert forall|r: int| 0 <= r < 8 implies #[trigger] g[r] =~= h[r] by {
        assert forall|c: int| 0 <= c < 8 implies g[r][c] == h[r][c] by {
            let i = r * 8 + c;
            assert(g[i / 8][i % 8] == h[i / 8][i % 8]);
        }
    }
    assert(g =~= h);
}

impl Table {
    /// The number that stands for this position in a cache.
    pub fn key(&self) -> (k: u128)
        ensures
            k == board_key(self.grid(), self.bot() as int),
    {
        proof {
            use_type_invariant(self);
            lemma_pow3_64();
        }
        let ghost g = self.grid();
        let mut k: u128 = 0;
        let mut i: usize = 0;
        while i < 64
            invariant
                i <= 64,
                g == self.grid(),
                valid_grid(g),
                k == code(g, i as nat),
                pow3(64) == 3433683820292512484657849089281,
            decreases 64 - i,
        {
            proof {
                lemma_code_bound(g, i as nat);
                lemma_code_bound(g, (i + 1) as nat);
                lemma_pow3_grows((i + 1) as nat, 64);
            }
            let v = self.cell(i / 8, i % 8);
            k = 3 * k + ((v + 1) as u128);
            i += 1;
        }
        proof {
            lemma_code_bound(g, 64);
        }
        if self.bot() == BLACK {
            2 * k + 1
        } else {
            2 * k
        }
    }
}

/// The estimates found so far, each under the key of its position.
pub struct EvalCache {
    map: HashMap<u128, Score>,
}

impl View for EvalCache {
    type V = Map<u128, Score>;

    /// The entries: the estimate kept under each key.
    closed spec fn view(&self) -> Map<u128, Score> {
        self.map@
    }
}

/// `s` is the estimate of the position of `g` and `bot`.
pub open spec fn is_estimate(s: Score, g: Grid, bot: int) -> bool {
    &&& s.is_finite()
    &&& s.numerator() == heuristic_num(g, bot)
    &&& s.denominator() == heuristic_den(g, bot)
}

impl EvalCache {
    /// Every entry is the estimate of the position that its key stands for.
    #[verifier::type_invariant]
    pub open spec fn wf(&self) -> bool {
        forall|g: Grid, bot: int|
            valid_grid(g) && is_player(bot) && self@.contains_key(
                #[trigger] board_key(g, bot) as u128,
            ) ==> is_estimate(self@[board_key(g, bot) as u128], g, bot)
    }

    /// A cache with no entry.
    pub fn new() -> (cache: Self)
        ensures
            cache@ == Map::<u128, Score>::empty(),
    {
        EvalCache { map: HashMap::new() }
    }

    /// The number of entries.
    pub fn len(&self) -> (n: usize)
        ensures
            n == self@.len(),
    {
        self.map.len()
    }

    /// The estimate of `table`: the entry under its key where there is
    /// one, and else the estimate computed now and kept under that key.
    /// A position that was found leaves the cache as it was.
    pub fn get_or_compute(&mut self, table: &Table) -> (s: Score)
        ensures
            is_estimate(s, table.grid(), table.bot() as int),
            old(self)@.contains_key(board_key(table.grid(), table.bot() as int) as u128)
                ==> final(self)@ == old(self)@,
            final(self)@ == old(self)@.insert(
                board_key(table.grid(), table.bot() as int) as u128,
                s,
            ),
    {
        proof {
            use_type_invariant(&*self);
            use_type_invariant(table);
        }
        let k = table.key();
        let found: Option<Score> = match self.map.get(&k) {
            Some(t) => Some(*t),
            None => None,
        };
        match found {
            Some(t) => {
                assert(self@.insert(k, t) =~= self@);
                t
            },
            None => {
                let value = table.heuristic_value();
                let ghost before = self@;
                let mut map: HashMap<u128, Score> = HashMap::new();
                std::mem::swap(&mut self.map, &mut map);
                map.insert(k, value);
                proof {
                    assert(map@ == before.insert(k, value));
                    assert forall|g: Grid, bot: int|
                        valid_grid(g) && is_player(bot) && map@.contains_key(
                            #[trigger] board_key(g, bot) as u128,
                        ) implies is_estimate(map@[board_key(g, bot) as u128], g, bot) by {
                        lemma_key_fits(g, bot);
                        lemma_key_fits(table.grid(), table.bot() as int);
                        if board_key(g, bot) as u128 == k {
                            lemma_key_injective(g, bot, table.grid(), table.bot() as int);
                        } else {
                            assert(before.contains_key(board_key(g, bot) as u128));
                        }
                    }
                }
                std::mem::swap(&mut self.map, &mut map);
                value
            },
        }
    }
}

/// The key of a position fits the keys of the cache.
proof fn lemma_key_fits(g: Grid, bot: int)
    requires
        valid_grid(g),
    ensures
        0 <= board_key(g, bot) <= u128::MAX,
{
    lemma_code_bound(g, 64);
    lemma_pow3_64();
}

} // verus!
