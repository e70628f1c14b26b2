//! The expectimax decision engine.
//!
//! MAX nodes (the agent picks the best direction) alternate with CHANCE
//! nodes (the probability-weighted average over tile spawns) down to a
//! fixed depth, where the heuristic scores the leaf. Chance-node values
//! are memoized, keyed by the board together with the remaining depth.
//!
//! Probabilities are carried as exact integer weights: an outcome with
//! weight `w` on a board with `e` empty cells has probability
//! `w / (10 * e)`, so a chance node is worth the weighted sum of its
//! outcomes divided by `10 * e` (the total weight), rounded down.

use std::collections::HashMap;

use crate::board::{
    action_at, empty_count, is_board, no_legal_action, spec_action, spec_apply, spec_successors,
    total_weight, weighted_views_p, Action, Board, PlayableBoard, RandableBoard,
};
use crate::eval::{lemma_eval_bounds, spec_eval, EVAL_MAX};
use vstd::prelude::*;

verus! {

broadcast use vstd::std_specs::hash::group_hash_axioms, crate::board::lemma_playable_view_len, crate::board::lemma_randable_view_len;

/// What choosing action `a` on decision-state `m` is worth with `d`
/// remaining plies: the value of the resulting chance-state one ply
/// shorter, or 0 when the action moves nothing.
pub open spec fn act_value(m: Seq<u8>, a: Action, d: nat) -> int
    decreases d, 0nat, 0nat,
{
    if d == 0 {
        0
    } else {
        match spec_apply(m, a) {
            Option::None => 0,
            Option::Some(s) => spec_chance_value(s, (d - 1) as nat),
        }
    }
}

/// The running best (action, score) after considering the actions from
/// position `i` of the canonical order on: a later action replaces the
/// best only with a strictly greater score, and the score starts at 0.
pub open spec fn fold_acts(m: Seq<u8>, i: int, d: nat, best: Option<Action>, score: int) -> (
    Option<Action>,
    int,
)
    decreases d, 1nat, 4 - i,
{
    if i < 0 || i >= 4 {
        (best, score)
    } else {
        let v = act_value(m, spec_action(i), d);
        if v > score {
            fold_acts(m, i + 1, d, Some(spec_action(i)), v)
        } else {
            fold_acts(m, i + 1, d, best, score)
        }
    }
}

/// The action the top-level search picks on `m` with `d` remaining plies:
/// the first action in canonical order whose value strictly exceeds every
/// earlier one, and nothing when no action scores above 0.
pub open spec fn spec_best_action(m: Seq<u8>, d: nat) -> Option<Action>
    decreases d, 2nat, 0nat,
{
    fold_acts(m, 0, d, Option::None, 0).0
}

/// The value of a decision-state: the best action value, and 0 when no
/// action is legal or none scores above 0.
pub open spec fn spec_decision_value(m: Seq<u8>, d: nat) -> int
    decreases d, 2nat, 0nat,
{
    fold_acts(m, 0, d, Option::None, 0).1
}

/// The weight-scaled sum of decision values over a list of spawn outcomes.
pub open spec fn weighted_sum(items: Seq<(u64, Seq<u8>)>, d: nat) -> int
    decreases d, 3nat, items.len(),
{
    if items.len() == 0 {
        0
    } else {
        items[0].0 * spec_decision_value(items[0].1, d) + weighted_sum(items.skip(1), d)
    }
}

/// The value of a chance-state with `d` remaining plies: the heuristic
/// score at depth 0, and otherwise the probability-weighted average of
/// the decision values of all spawn outcomes (exact integer weights over
/// total weight `10 * e`, rounded down). A full board has no outcome and
/// is worth 0.
pub open spec fn spec_chance_value(m: Seq<u8>, d: nat) -> int
    decreases d, 4nat, 0nat,
{
    if d == 0 {
        spec_eval(m)
    } else if empty_count(m) == 0 {
        0
    } else {
        weighted_sum(spec_successors(m), d) / (10 * empty_count(m) as int)
    }
}

/// At `remaining_depth = 0` the expected value of a chance-state is
/// exactly the heuristic's direct evaluation of it.
pub proof fn lemma_depth_zero_is_eval(m: Seq<u8>)
    ensures
        spec_chance_value(m, 0) == spec_eval(m),
{
}

proof fn lemma_act_value_bound(m: Seq<u8>, a: Action, d: nat)
    ensures
        0 <= act_value(m, a, d) <= EVAL_MAX,
    decreases d, 1nat, 0nat,
{
    if d > 0 {
        match spec_apply(m, a) {
            Option::None => {},
            Option::Some(s) => {
                assert(is_board(s));
                lemma_chance_bound(s, (d - 1) as nat);
            },
        }
    }
}

proof fn lemma_fold_bound(m: Seq<u8>, i: int, d: nat, best: Option<Action>, score: int)
    requires
        0 <= i <= 4,
        0 <= score <= EVAL_MAX,
    ensures
        0 <= fold_acts(m, i, d, best, score).1 <= EVAL_MAX,
    decreases d, 2nat, 4 - i,
{
    if i < 4 {
        lemma_act_value_bound(m, spec_action(i), d);
        let v = act_value(m, spec_action(i), d);
        if v > score {
            lemma_fold_bound(m, i + 1, d, Some(spec_action(i)), v);
        } else {
            lemma_fold_bound(m, i + 1, d, best, score);
        }
    }
}

proof fn lemma_decision_bound(m: Seq<u8>, d: nat)
    ensures
        0 <= spec_decision_value(m, d) <= EVAL_MAX,
    decreases d, 3nat, 0nat,
{
    lemma_fold_bound(m, 0, d, Option::None, 0);
}

proof fn lemma_wsum_bound(items: Seq<(u64, Seq<u8>)>, d: nat)
    ensures
        0 <= weighted_sum(items, d) <= total_weight(items) * EVAL_MAX,
        total_weight(items) >= 0,
    decreases d, 4nat, items.len(),
{
    if items.len() > 0 {
        lemma_wsum_bound(items.skip(1), d);
        lemma_decision_bound(items[0].1, d);
        let w = items[0].0 as int;
        let v = spec_decision_value(items[0].1, d);
        assert(w * v >= 0) by (nonlinear_arith)
            requires
                w >= 0,
                v >= 0,
        ;
        assert(w * v <= w * EVAL_MAX) by (nonlinear_arith)
            requires
                w >= 0,
                v <= EVAL_MAX,
        ;
        assert(total_weight(items) * EVAL_MAX == w * EVAL_MAX + total_weight(items.skip(1))
            * EVAL_MAX) by (nonlinear_arith)
            requires
                total_weight(items) == w + total_weight(items.skip(1)),
        ;
    }
}

/// The board's cells read as one base-256 number, from cell `i` on.
pub open spec fn encode_from(m: Seq<u8>, i: int) -> int
    decreases 16 - i,
{
    if i < 0 || i >= 16 {
        0
    } else {
        m[i] + 256 * encode_from(m, i + 1)
    }
}

/// The cache key of a board: its 16 cells packed into one 128-bit number.
pub open spec fn spec_encode(m: Seq<u8>) -> u128 {
    encode_from(m, 0) as u128
}

spec fn pow256(k: nat) -> int
    decreases k,
{
    if k == 0 {
        1
    } else {
        256 * pow256((k - 1) as nat)
    }
}

proof fn lemma_pow256_pos(k: nat)
    ensures
        pow256(k) >= 1,
    decreases k,
{
    if k > 0 {
        lemma_pow256_pos((k - 1) as nat);
    }
}

proof fn lemma_pow256_le16(k: nat)
    requires
        k <= 16,
    ensures
        1 <= pow256(k) <= pow256(16),
    decreases 16 - k,
{
    lemma_pow256_pos(k);
    if k < 16 {
        lemma_pow256_le16((k + 1) as nat);
        assert(pow256((k + 1) as nat) == 256 * pow256(k));
    }
}

proof fn lemma_encode_bound(m: Seq<u8>, i: int)
    requires
        0 <= i <= 16,
    ensures
        0 <= encode_from(m, i) < pow256((16 - i) as nat),
    decreases 16 - i,
{
    if i < 16 {
        lemma_encode_bound(m, i + 1);
        assert(pow256((16 - i) as nat) == 256 * pow256((15 - i) as nat));
    }
}

proof fn lemma_pow256_16_value()
    ensures
        pow256(16) == 0x100000000000000000000000000000000int,
{
    assert(pow256(0) == 1);
    assert(pow256(1) == 256);
    assert(pow256(2) == 0x10000);
    assert(pow256(3) == 0x1000000);
    assert(pow256(4) == 0x100000000);
    assert(pow256(5) == 0x10000000000);
    assert(pow256(6) == 0x1000000000000);
    assert(pow256(7) == 0x100000000000000);
    assert(pow256(8) == 0x10000000000000000);
    assert(pow256(9) == 0x1000000000000000000);
    assert(pow256(10) == 0x100000000000000000000);
    assert(pow256(11) == 0x10000000000000000000000);
    assert(pow256(12) == 0x1000000000000000000000000);
    assert(pow256(13) == 0x100000000000000000000000000);
    assert(pow256(14) == 0x10000000000000000000000000000);
    assert(pow256(15) == 0x1000000000000000000000000000000);
}

/// Packs a board into its cache key.
fn encode_board(b: &Board) -> (k: u128)
    ensures
        k == spec_encode(b@),
{
    let mut k: u128 = 0;
    let mut j: usize = 0;
    while j < 16
        invariant
            j <= 16,
            k as int == encode_from(b@, 16 - j as int),
        decreases 16 - j,
    {
        let i = 15 - j;
        proof {
            lemma_encode_bound(b@, i as int);
            lemma_encode_bound(b@, i + 1);
            lemma_pow256_le16((16 - i) as nat);
            lemma_pow256_le16((15 - i) as nat);
            lemma_pow256_16_value();
            assert(pow256((16 - i) as nat) == 256 * pow256((15 - i) as nat));
            vstd::arithmetic::div_mod::lemma_fundamental_div_mod(i as int, 4);
        }
        let c = b.get(i / 4, i % 4);
        k = k * 256 + (c as u128);
        j += 1;
    }
    proof {
        assert(encode_from(b@, 0) == spec_encode(b@));
    }
    k
}

/// Instrumentation carried through the search: how many leaf evaluations
/// the heuristic performed. It never affects search results.
pub struct Stats {
    pub num_evals: u64,
}

impl Stats {
    /// A fresh accumulator.
    pub fn new() -> (s: Stats)
        ensures
            s.num_evals == 0,
    {
        Stats { num_evals: 0 }
    }
}

/// One memoized chance-node result: the board it was computed for, the
/// value, and the remaining depth the value belongs to.
struct CacheEntry {
    board: Board,
    value: u64,
    depth: usize,
}

/// The memo table of one top-level search: chance-node values keyed by
/// packed board, valid only at the exact depth they were stored with.
pub struct SearchCache {
    map: HashMap<u128, CacheEntry>,
}

/// Every stored value is the true chance value of its stored board at
/// its stored depth.
pub closed spec fn cache_wf(c: SearchCache) -> bool {
    forall|k: u128|
        c.map@.contains_key(k) ==> ((#[trigger] c.map@[k]).value as int) == spec_chance_value(
            c.map@[k].board@,
            c.map@[k].depth as nat,
        )
}

/// The cache holds an entry for board `m` at depth `d`.
pub closed spec fn cache_has(c: SearchCache, m: Seq<u8>, d: nat) -> bool {
    &&& c.map@.contains_key(spec_encode(m))
    &&& c.map@[spec_encode(m)].board@ == m
    &&& c.map@[spec_encode(m)].depth == d
}

impl SearchCache {
    /// A fresh, empty memo table.
    pub fn new() -> (c: SearchCache)
        ensures
            cache_wf(c),
            forall|m: Seq<u8>, d: nat| !cache_has(c, m, d),
    {
        SearchCache { map: HashMap::new() }
    }
}

proof fn lemma_chance_bound(m: Seq<u8>, d: nat)
    requires
        is_board(m),
    ensures
        0 <= spec_chance_value(m, d) <= EVAL_MAX,
    decreases d, 5nat, 0nat,
{
    if d == 0 {
        lemma_eval_bounds(m);
    } else {
        let e = empty_count(m) as int;
        if e > 0 {
            crate::board::lemma_spawn_distribution(m);
            lemma_wsum_bound(spec_successors(m), d);
            let ws = weighted_sum(spec_successors(m), d);
            vstd::arithmetic::div_mod::lemma_div_pos_is_pos(ws, 10 * e);
            vstd::arithmetic::div_mod::lemma_div_is_ordered(ws, 10 * e * EVAL_MAX, 10 * e);
            vstd::arithmetic::div_mod::lemma_div_by_multiple(EVAL_MAX as int, 10 * e);
        }
    }
}

/// The expected value of a chance-state with `remaining` plies to look
/// ahead, memoized in `cache`.
///
/// Memoization is transparent: the result always equals the mathematical
/// chance value, so two calls on the same state and depth return the same
/// number; and when a matching entry is already cached the call returns
/// it at once, leaving both the cache and the evaluation counter exactly
/// as they were.
pub fn expected_value(board: RandableBoard, remaining: usize, stats: &mut Stats, cache: &mut SearchCache) -> (r: u64)
    requires
        cache_wf(*old(cache)),
    ensures
        r as int == spec_chance_value(board@, remaining as nat),
        r <= EVAL_MAX,
        cache_wf(*final (cache)),
        remaining >= 1 ==> cache_has(*final (cache), board@, remaining as nat),
        cache_has(*old(cache), board@, remaining as nat) ==> *final (cache) == *old(cache)
            && *final (stats) == *old(stats),
        final (stats).num_evals >= old(stats).num_evals,
    decreases remaining, 1int,
{
    let b = board.board();
    let key = encode_board(&b);
    match cache.map.get(&key) {
        Some(entry) => {
            if entry.board == b && entry.depth == remaining {
                proof {
                    lemma_chance_bound(board@, remaining as nat);
                }
                return entry.value;
            }
            proof {
                assert(!cache_has(*cache, board@, remaining as nat));
            }
        },
        None => {
            proof {
                assert(!cache_has(*cache, board@, remaining as nat));
            }
        },
    }
    if remaining == 0 {
        if stats.num_evals < u64::MAX {
            stats.num_evals = stats.num_evals + 1;
        }
        return board.evaluate();
    }
    let e = board.num_empty();
    let succs = board.successors();
    let ghost items = weighted_views_p(succs@);
    let ghost d = remaining as nat;
    proof {
        crate::board::lemma_spawn_distribution(board@);
        lemma_wsum_bound(items, d);
        assert(items.skip(0) =~= items);
    }
    let mut sum: u64 = 0;
    let mut i: usize = 0;
    while i < succs.len()
        invariant
            cache_wf(*cache),
            !cache_has(*old(cache), board@, remaining as nat),
            stats.num_evals >= old(stats).num_evals,
            remaining >= 1,
            d == remaining as nat,
            i <= succs.len(),
            items == weighted_views_p(succs@),
            items == spec_successors(board@),
            e == empty_count(board@),
            e <= 16,
            total_weight(items) == 10 * e,
            sum as int + weighted_sum(items.skip(i as int), d) == weighted_sum(items, d),
            sum as int <= weighted_sum(items, d),
        decreases succs.len() - i,
    {
        let (w, p) = succs[i];
        proof {
            assert(items[i as int] == (succs@[i as int].0, succs@[i as int].1@));
            crate::board::lemma_spawn_distribution(board@);
            assert(w == 9 || w == 1);
        }
        let v = decision_value(p, remaining, stats, cache);
        proof {
            let rest = items.skip(i as int);
            assert(rest[0] == items[i as int]);
            assert(rest.skip(1) =~= items.skip(i + 1));
            assert(weighted_sum(rest, d) == rest[0].0 * spec_decision_value(rest[0].1, d)
                + weighted_sum(rest.skip(1), d));
            lemma_wsum_bound(items.skip(i + 1), d);
            assert((w as int) * (v as int) <= 9 * EVAL_MAX) by (nonlinear_arith)
                requires
                    w == 9 || w == 1,
                    0 <= v <= EVAL_MAX,
            ;
            lemma_wsum_bound(items, d);
            assert(sum as int + (w as int) * (v as int) + weighted_sum(items.skip(i + 1), d)
                == weighted_sum(items, d));
            assert(weighted_sum(items, d) <= 10 * (e as int) * EVAL_MAX);
            assert(10 * (e as int) * EVAL_MAX <= 160 * EVAL_MAX) by (nonlinear_arith)
                requires
                    0 <= e <= 16,
            ;
        }
        sum = sum + w * v;
        i += 1;
    }
    proof {
        assert(items.skip(succs@.len() as int) =~= Seq::<(u64, Seq<u8>)>::empty());
        assert(sum as int == weighted_sum(items, d));
        lemma_chance_bound(board@, d);
    }
    let value: u64 = if e == 0 {
        0
    } else {
        sum / (10 * (e as u64))
    };
    cache.map.insert(key, CacheEntry { board: b, value, depth: remaining });
    proof {
        assert(cache_wf(*cache));
        assert(cache_has(*cache, board@, remaining as nat));
    }
    value
}

/// The value of a decision-state with `remaining` plies to look ahead:
/// the best action value, computed in canonical order with a
/// strictly-greater test against a running best that starts at 0.
pub fn decision_value(board: PlayableBoard, remaining: usize, stats: &mut Stats, cache: &mut SearchCache) -> (r: u64)
    requires
        cache_wf(*old(cache)),
        remaining >= 1,
    ensures
        r as int == spec_decision_value(board@, remaining as nat),
        r <= EVAL_MAX,
        cache_wf(*final (cache)),
        final (stats).num_evals >= old(stats).num_evals,
    decreases remaining, 0int,
{
    let ghost d = remaining as nat;
    let mut best_score: u64 = 0;
    let ghost mut best_action: Option<Action> = Option::<Action>::None;
    let mut idx: usize = 0;
    while idx < 4
        invariant
            cache_wf(*cache),
            stats.num_evals >= old(stats).num_evals,
            remaining >= 1,
            d == remaining as nat,
            idx <= 4,
            best_score <= EVAL_MAX,
            fold_acts(board@, idx as int, d, best_action, best_score as int) == fold_acts(
                board@,
                0,
                d,
                Option::<Action>::None,
                0,
            ),
        decreases 4 - idx,
    {
        let a = action_at(idx);
        let ghost prev_best = best_action;
        let ghost prev_score = best_score as int;
        match board.apply(a) {
            Some(succ) => {
                let v = expected_value(succ, remaining - 1, stats, cache);
                proof {
                    assert(act_value(board@, a, d) == v as int);
                }
                if v > best_score {
                    best_score = v;
                    proof {
                        best_action = Some(a);
                    }
                }
            },
            None => {
                proof {
                    assert(act_value(board@, a, d) == 0);
                }
            },
        }
        proof {
            assert(fold_acts(board@, idx as int, d, prev_best, prev_score) == fold_acts(
                board@,
                idx + 1,
                d,
                best_action,
                best_score as int,
            ));
        }
        idx += 1;
    }
    best_score
}

/// Picks the best action by expectimax search `max_actions` plies deep:
/// the first action in canonical order whose expected value strictly
/// exceeds every earlier one, or nothing when no action scores above 0
/// (in particular when no action is legal).
pub fn select_action_expectimax(board: PlayableBoard, max_actions: usize) -> (r: Option<Action>)
    requires
        max_actions >= 1,
    ensures
        r == spec_best_action(board@, max_actions as nat),
{
    let ghost d = max_actions as nat;
    let mut cache = SearchCache::new();
    let mut stats = Stats::new();
    let mut best_score: u64 = 0;
    let mut best_action: Option<Action> = Option::<Action>::None;
    let mut idx: usize = 0;
    while idx < 4
        invariant
            cache_wf(cache),
            max_actions >= 1,
            d == max_actions as nat,
            idx <= 4,
            best_score <= EVAL_MAX,
            fold_acts(board@, idx as int, d, best_action, best_score as int) == fold_acts(
                board@,
                0,
                d,
                Option::<Action>::None,
                0,
            ),
        decreases 4 - idx,
    {
        let a = action_at(idx);
        let ghost prev_best = best_action;
        let ghost prev_score = best_score as int;
        match board.apply(a) {
            Some(succ) => {
                let v = expected_value(succ, max_actions - 1, &mut stats, &mut cache);
                proof {
                    assert(act_value(board@, a, d) == v as int);
                }
                if v > best_score {
                    best_score = v;
                    best_action = Some(a);
                }
            },
            None => {
                proof {
                    assert(act_value(board@, a, d) == 0);
                }
            },
        }
        proof {
            assert(fold_acts(board@, idx as int, d, prev_best, prev_score) == fold_acts(
                board@,
                idx + 1,
                d,
                best_action,
                best_score as int,
            ));
        }
        idx += 1;
    }
    best_action
}

/// Picks the move the engine plays: an expectimax search three plies deep.
pub fn select_action(board: PlayableBoard) -> (r: Option<Action>)
    ensures
        r == spec_best_action(board@, 3),
{
    select_action_expectimax(board, 3)
}

/// What choosing `a` on `m` is worth to the one-ply greedy policy: the
/// heuristic score of the board it produces, or 0 when `a` is a no-op.
pub open spec fn greedy_value(m: Seq<u8>, a: Action) -> int {
    match spec_apply(m, a) {
        Option::None => 0,
        Option::Some(s) => spec_eval(s),
    }
}

/// The greedy fold over the actions from position `i` on, with the same
/// strictly-greater, start-at-0 selection rule as the search.
pub open spec fn fold_greedy(m: Seq<u8>, i: int, best: Option<Action>, score: int) -> (
    Option<Action>,
    int,
)
    decreases 4 - i,
{
    if i < 0 || i >= 4 {
        (best, score)
    } else {
        let v = greedy_value(m, spec_action(i));
        if v > score {
            fold_greedy(m, i + 1, Some(spec_action(i)), v)
        } else {
            fold_greedy(m, i + 1, best, score)
        }
    }
}

/// The action the greedy policy picks on `m`.
pub open spec fn spec_greedy_action(m: Seq<u8>) -> Option<Action> {
    fold_greedy(m, 0, Option::None, 0).0
}

/// Picks the action whose immediate successor the heuristic scores
/// highest, with the same tie-break and zero baseline as the search.
pub fn select_action_greedily(board: PlayableBoard) -> (r: Option<Action>)
    ensures
        r == spec_greedy_action(board@),
{
    let mut best_score: u64 = 0;
    let mut best_action: Option<Action> = Option::<Action>::None;
    let mut idx: usize = 0;
    while idx < 4
        invariant
            idx <= 4,
            fold_greedy(board@, idx as int, best_action, best_score as int) == fold_greedy(
                board@,
                0,
                Option::<Action>::None,
                0,
            ),
        decreases 4 - idx,
    {
        let a = action_at(idx);
        let ghost prev_best = best_action;
        let ghost prev_score = best_score as int;
        match board.apply(a) {
            Some(succ) => {
                let v = succ.evaluate();
                proof {
                    assert(greedy_value(board@, a) == v as int);
                }
                if v > best_score {
                    best_score = v;
                    best_action = Some(a);
                }
            },
            None => {
                proof {
                    assert(greedy_value(board@, a) == 0);
                }
            },
        }
        proof {
            assert(fold_greedy(board@, idx as int, prev_best, prev_score) == fold_greedy(
                board@,
                idx + 1,
                best_action,
                best_score as int,
            ));
        }
        idx += 1;
    }
    best_action
}

/// Picks one of the applicable actions uniformly at random, or nothing
/// when no action is legal.
pub fn select_action_randomly(board: PlayableBoard) -> (r: Option<Action>)
    ensures
        match r {
            Some(a) => spec_apply(board@, a) is Some,
            None => no_legal_action(board@),
        },
        no_legal_action(board@) ==> r is None,
{
    let mut applicable_actions: Vec<Action> = Vec::new();
    let mut idx: usize = 0;
    while idx < 4
        invariant
            idx <= 4,
            forall|j: int|
                0 <= j < applicable_actions@.len() ==> spec_apply(
                    board@,
                    #[trigger] applicable_actions@[j],
                ) is Some,
            applicable_actions@.len() == 0 ==> forall|j: int|
                0 <= j < idx ==> spec_apply(board@, #[trigger] spec_action(j)) is None,
            forall|j: int|
                0 <= j < idx && spec_apply(board@, #[trigger] spec_action(j)) is Some
                    ==> applicable_actions@.len() > 0,
        decreases 4 - idx,
    {
        let a = action_at(idx);
        if board.apply(a).is_some() {
            applicable_actions.push(a);
        }
        idx += 1;
    }
    let num_actions = applicable_actions.len();
    if num_actions == 0 {
        return None;
    }
    proof {
        let a0 = applicable_actions@[0];
        let gi: int = match a0 {
            Action::Up => 0,
            Action::Down => 1,
            Action::Left => 2,
            Action::Right => 3,
        };
        assert(spec_action(gi) == a0);
        assert(spec_apply(board@, spec_action(gi)) is Some);
        assert(!no_legal_action(board@));
    }
    let picked = crate::rng::random_below(num_actions);
    Some(applicable_actions[picked])
}

/// A board with no legal action is worth 0 to the search and makes it
/// select no action, at every depth.
pub proof fn lemma_no_action_no_best(m: Seq<u8>, d: nat)
    requires
        no_legal_action(m),
    ensures
        spec_best_action(m, d) is None,
        spec_decision_value(m, d) == 0,
{
    assert forall|i: int| 0 <= i < 4 implies act_value(m, spec_action(i), d) == 0 by {
        assert(spec_apply(m, spec_action(i)) is None);
    }
    assert(fold_acts(m, 0, d, Option::<Action>::None, 0) == fold_acts(
        m,
        1,
        d,
        Option::<Action>::None,
        0,
    ));
    assert(fold_acts(m, 1, d, Option::<Action>::None, 0) == fold_acts(
        m,
        2,
        d,
        Option::<Action>::None,
        0,
    ));
    assert(fold_acts(m, 2, d, Option::<Action>::None, 0) == fold_acts(
        m,
        3,
        d,
        Option::<Action>::None,
        0,
    ));
    assert(fold_acts(m, 3, d, Option::<Action>::None, 0) == fold_acts(
        m,
        4,
        d,
        Option::<Action>::None,
        0,
    ));
    assert(fold_acts(m, 4, d, Option::<Action>::None, 0) == (Option::<Action>::None, 0int));
}

proof fn lemma_fold_best_is_legal(m: Seq<u8>, i: int, d: nat, best: Option<Action>, score: int)
    requires
        0 <= i <= 4,
        score >= 0,
        match best {
            Some(b) => spec_apply(m, b) is Some && score > 0,
            None => true,
        },
    ensures
        match fold_acts(m, i, d, best, score).0 {
            Some(a) => spec_apply(m, a) is Some,
            None => true,
        },
    decreases 4 - i,
{
    if i < 4 {
        let v = act_value(m, spec_action(i), d);
        if v > score {
            assert(spec_apply(m, spec_action(i)) is Some);
            lemma_fold_best_is_legal(m, i + 1, d, Some(spec_action(i)), v);
        } else {
            lemma_fold_best_is_legal(m, i + 1, d, best, score);
        }
    }
}

/// When the search returns an action, that action is one the move engine
/// accepts: applying it to the board yields a successor.
pub proof fn lemma_selected_action_is_legal(m: Seq<u8>, d: nat)
    ensures
        match spec_best_action(m, d) {
            Some(a) => spec_apply(m, a) is Some,
            None => true,
        },
{
    lemma_fold_best_is_legal(m, 0, d, Option::<Action>::None, 0);
}

/// On a completely full board with no two adjacent equal exponents in
/// any row or column, no direction is legal and the search selects no
/// action, at every depth.
pub proof fn lemma_stuck_board_selects_nothing(m: Seq<u8>, d: nat)
    requires
        is_board(m),
        crate::board::is_full(m),
        crate::board::no_adjacent_equal(m),
    ensures
        no_legal_action(m),
        spec_best_action(m, d) is None,
{
    crate::board::lemma_stuck_board(m);
    lemma_no_action_no_best(m, d);
}

} // verus!
