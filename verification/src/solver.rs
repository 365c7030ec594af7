//! The solving engine: constraint propagation (naked singles and hidden
//! singles per row, column and block) to a fixed point, then recursive
//! backtracking over the remaining empty cells, branching on a cell with the
//! fewest candidates.

use crate::sudoku::{
    cell_index, grid_wf, in_unit, lemma_in_unit_same_unit, lemma_unit_cell_bounds,
    lemma_unit_cell_pair, no_conflicts, same_unit, unit_cell, Sudoku,
};
use vstd::prelude::*;
use vstd::set_lib::lemma_int_range;
use vstd::set_lib::lemma_len_subset;
use vstd::set_lib::set_int_range;

verus! {

broadcast use vstd::set::group_set_axioms;

// ----- the candidate model -----

/// Digit `d` already stands somewhere in the row, column or block of cell
/// `i` (possibly in cell `i` itself).
pub open spec fn digit_in_units(s: Seq<u8>, i: int, d: u8) -> bool {
    exists|j: int| 0 <= j < 81 && #[trigger] same_unit(i, j) && s[j] == d
}

/// Digit `d` may legally be placed in cell `i`: it is a digit 1..=9 that
/// appears nowhere in the cell's row, column or block.
pub open spec fn candidate(s: Seq<u8>, i: int, d: u8) -> bool {
    1 <= d <= 9 && !digit_in_units(s, i, d)
}

/// Cell `i` is empty and accepts digit `d`.
pub open spec fn placeable(s: Seq<u8>, i: int, d: u8) -> bool {
    0 <= i < 81 && s[i] == 0 && candidate(s, i, d)
}

/// Naked single: empty cell `i` accepts exactly the one digit `d`.
pub open spec fn naked_single(s: Seq<u8>, i: int, d: u8) -> bool {
    placeable(s, i, d) && (forall|e: u8| #[trigger] candidate(s, i, e) ==> e == d)
}

/// Hidden single: within unit `u`, cell `i` is the only cell that accepts
/// digit `d`.
pub open spec fn hidden_single(s: Seq<u8>, u: int, d: u8, i: int) -> bool {
    in_unit(u, i) && placeable(s, i, d)
        && (forall|j: int| in_unit(u, j) && #[trigger] placeable(s, j, d) ==> j == i)
}

/// No propagation rule applies any more: the fixed point of phase 1.
pub open spec fn rules_done(s: Seq<u8>) -> bool {
    &&& forall|i: int, d: u8| !(#[trigger] naked_single(s, i, d))
    &&& forall|u: int, d: u8, i: int| 0 <= u < 27 ==> !(#[trigger] hidden_single(s, u, d, i))
}

/// Some propagation rule writes digit `d` into cell `i`: the cell's unique
/// candidate, or the unique place for `d` in one of the cell's units.
pub open spec fn rule_fires(s: Seq<u8>, i: int, d: u8) -> bool {
    naked_single(s, i, d) || (exists|u: int|
        0 <= u < 27 && #[trigger] hidden_single(s, u, d, i))
}

/// `s2` is `s` with one rule-forced digit written.
pub open spec fn rule_step(s: Seq<u8>, s2: Seq<u8>) -> bool {
    exists|i: int, d: u8| #[trigger] rule_fires(s, i, d) && s2 == s.update(i, d)
}

/// Every adjacent pair of the chain is one rule-forced assignment.
pub open spec fn rules_chain(c: Seq<Seq<u8>>) -> bool {
    forall|k: int| 0 <= k < c.len() - 1 ==> #[trigger] rule_step(c[k], c[k + 1])
}

/// `s2` arises from `s` by rule-forced assignments alone: every cell that
/// `s2` fills beyond `s` got a digit some propagation rule forced at the
/// moment it was written.
pub open spec fn rules_reachable(s: Seq<u8>, s2: Seq<u8>) -> bool {
    exists|c: Seq<Seq<u8>>|
        #[trigger] rules_chain(c) && c.len() >= 1 && c[0] == s && c[c.len() - 1] == s2
}

/// Reachability extends along one more rule step.
proof fn lemma_reach_step(s: Seq<u8>, mid: Seq<u8>, s2: Seq<u8>)
    requires
        rules_reachable(s, mid),
        rule_step(mid, s2),
    ensures
        rules_reachable(s, s2),
{
    let c = choose|c: Seq<Seq<u8>>|
        #[trigger] rules_chain(c) && c.len() >= 1 && c[0] == s && c[c.len() - 1] == mid;
    let c2 = c.push(s2);
    assert forall|k: int| 0 <= k < c2.len() - 1 implies #[trigger] rule_step(c2[k], c2[k + 1]) by {
        if k < c.len() - 1 {
            assert(c2[k] == c[k] && c2[k + 1] == c[k + 1]);
        } else {
            assert(c2[k] == mid && c2[k + 1] == s2);
        }
    }
    assert(rules_chain(c2) && c2.len() >= 1 && c2[0] == s && c2[c2.len() - 1] == s2);
}

// ----- the completion model -----

/// `t` agrees with `s` on every filled cell of `s`.
pub open spec fn extends(s: Seq<u8>, t: Seq<u8>) -> bool {
    t.len() == s.len() && (forall|i: int| 0 <= i < s.len() && #[trigger] s[i] != 0 ==> t[i] == s[i])
}

/// Every cell is filled.
pub open spec fn full(s: Seq<u8>) -> bool {
    forall|i: int| 0 <= i < s.len() ==> #[trigger] s[i] != 0
}

/// `t` is a solved grid reachable from `s`: well formed, conflict-free,
/// fully filled, and agreeing with every given digit of `s`.
pub open spec fn completion(s: Seq<u8>, t: Seq<u8>) -> bool {
    grid_wf(t) && no_conflicts(t) && full(t) && extends(s, t)
}

/// Some completion of `s` exists.
pub open spec fn solvable(s: Seq<u8>) -> bool {
    exists|t: Seq<u8>| #[trigger] completion(s, t)
}

/// A grid with no empty cell has exactly one completion: itself.  Together
/// with the contract of `solve`, this pins the solver's answer on any
/// already-solved grid.
pub proof fn lemma_completion_of_full_is_identity(s: Seq<u8>, t: Seq<u8>)
    requires
        full(s),
        completion(s, t),
    ensures
        t == s,
{
    assert forall|i: int| 0 <= i < s.len() implies t[i] == s[i] by {
        assert(s[i] != 0);
    }
    assert(t =~= s);
}

/// The fully empty grid.
pub open spec fn blank_grid() -> Seq<u8> {
    Seq::new(81, |i: int| 0u8)
}

/// The digit the classic shifted-rows pattern puts in cell `i`: each row
/// holds 1..=9, rotated three places per row and one more per band of three
/// rows.
pub open spec fn base_digit(i: int) -> u8 {
    (((i / 9) * 3 + (i / 9) / 3 + i % 9) % 9 + 1) as u8
}

/// Two distinct non-negative integers less than 9 apart have distinct
/// remainders modulo 9.
proof fn lemma_mod9_window(x: int, y: int)
    requires
        0 <= x,
        0 <= y,
        x != y,
        -9 < x - y < 9,
    ensures
        x % 9 != y % 9,
{
}

proof fn lemma_base_digit_distinct(i: int, j: int)
    requires
        0 <= i < 81,
        0 <= j < 81,
        i != j,
        same_unit(i, j),
    ensures
        base_digit(i) != base_digit(j),
{
    let r1 = i / 9;
    let c1 = i % 9;
    let r2 = j / 9;
    let c2 = j % 9;
    let a1 = r1 / 3;
    let b1 = r1 % 3;
    let a2 = r2 / 3;
    let b2 = r2 % 3;
    let s1 = a1 + 3 * b1 + c1;
    let s2 = a2 + 3 * b2 + c2;
    let x1 = r1 * 3 + r1 / 3 + c1;
    let x2 = r2 * 3 + r2 / 3 + c2;
    assert(x1 == 9 * a1 + s1);
    assert(x2 == 9 * a2 + s2);
    assert(x1 % 9 == s1 % 9) by {
        vstd::arithmetic::div_mod::lemma_mod_multiples_vanish(a1, s1, 9);
    }
    assert(x2 % 9 == s2 % 9) by {
        vstd::arithmetic::div_mod::lemma_mod_multiples_vanish(a2, s2, 9);
    }
    if r1 == r2 {
        assert(c1 != c2);
    } else if c1 == c2 {
        assert(a1 + 3 * b1 != a2 + 3 * b2);
    } else {
        assert(a1 == a2 && c1 / 3 == c2 / 3);
        assert(3 * b1 + c1 % 3 != 3 * b2 + c2 % 3);
    }
    assert(s1 != s2 && -9 < s1 - s2 < 9);
    lemma_mod9_window(s1, s2);
}

/// The fully empty grid has a completion — the shifted-rows pattern is one
/// — so by the contract of `solve`, solving an all-zero grid returns a
/// solved grid.
pub proof fn lemma_blank_grid_solvable()
    ensures
        solvable(blank_grid()),
{
    let t = Seq::new(81, |k: int| base_digit(k));
    assert forall|i: int, j: int|
        0 <= i < 81 && 0 <= j < 81 && i != j && #[trigger] same_unit(i, j) && t[i] != 0
            implies t[i] != t[j] by {
        lemma_base_digit_distinct(i, j);
    }
    assert(no_conflicts(t));
    assert forall|k: int| 0 <= k < 81 implies 1 <= #[trigger] t[k] <= 9 by {
        assert((k / 9) * 3 + (k / 9) / 3 + k % 9 >= 0);
    }
    assert(grid_wf(t));
    assert(full(t));
    assert(extends(blank_grid(), t));
    assert(completion(blank_grid(), t));
}

// ----- counting empty cells (the termination measure) -----

/// How many of the first `n` cells of `s` are empty.
pub open spec fn zeros_below(s: Seq<u8>, n: int) -> int
    decreases n,
{
    if n <= 0 {
        0
    } else {
        zeros_below(s, n - 1) + if s[n - 1] == 0 { 1int } else { 0int }
    }
}

/// How many cells of the grid are empty.
pub open spec fn count_zeros(s: Seq<u8>) -> int {
    zeros_below(s, 81)
}

proof fn lemma_zeros_below_bounds(s: Seq<u8>, n: int)
    requires
        0 <= n,
    ensures
        0 <= zeros_below(s, n) <= n,
    decreases n,
{
    if n > 0 {
        lemma_zeros_below_bounds(s, n - 1);
    }
}

proof fn lemma_zeros_update(s: Seq<u8>, i: int, d: u8, n: int)
    requires
        0 <= i < s.len(),
        s[i] == 0,
        d != 0,
        0 <= n <= s.len(),
    ensures
        zeros_below(s.update(i, d), n) == zeros_below(s, n) - (if i < n { 1int } else { 0int }),
    decreases n,
{
    if n > 0 {
        lemma_zeros_update(s, i, d, n - 1);
    }
}

/// Filling an empty cell removes exactly one zero.
proof fn lemma_count_zeros_update(s: Seq<u8>, i: int, d: u8)
    requires
        s.len() == 81,
        0 <= i < 81,
        s[i] == 0,
        d != 0,
    ensures
        count_zeros(s.update(i, d)) == count_zeros(s) - 1,
        count_zeros(s) >= 1,
        count_zeros(s.update(i, d)) >= 0,
{
    lemma_zeros_update(s, i, d, 81);
    lemma_zeros_below_bounds(s.update(i, d), 81);
}

// ----- counting candidates (the branching heuristic) -----

/// How many digits 1..=d are candidates for cell `i`.
pub open spec fn cand_below(s: Seq<u8>, i: int, d: int) -> int
    decreases d,
{
    if d <= 0 {
        0
    } else {
        cand_below(s, i, d - 1) + if candidate(s, i, d as u8) { 1int } else { 0int }
    }
}

/// How many digits are candidates for cell `i`.
pub open spec fn cand_count(s: Seq<u8>, i: int) -> int {
    cand_below(s, i, 9)
}

/// Cell `i` is the cell the search branches on: empty, with no empty cell
/// holding fewer candidates, and every earlier empty cell in row-major
/// order holding strictly more.
pub open spec fn chosen_cell(s: Seq<u8>, i: int) -> bool {
    &&& 0 <= i < 81
    &&& s[i] == 0
    &&& forall|j: int| 0 <= j < 81 && #[trigger] s[j] == 0 ==> cand_count(s, j) >= cand_count(s, i)
    &&& forall|j: int| 0 <= j < i && #[trigger] s[j] == 0 ==> cand_count(s, j) > cand_count(s, i)
}

/// At most one cell satisfies the branching choice.
pub proof fn lemma_chosen_cell_unique(s: Seq<u8>, a: int, b: int)
    requires
        chosen_cell(s, a),
        chosen_cell(s, b),
    ensures
        a == b,
{
    if a < b {
        assert(s[a] == 0);
        assert(cand_count(s, a) > cand_count(s, b));
        assert(cand_count(s, b) >= cand_count(s, a));
        assert(false);
    } else if b < a {
        assert(s[b] == 0);
        assert(cand_count(s, b) > cand_count(s, a));
        assert(cand_count(s, a) >= cand_count(s, b));
        assert(false);
    }
}

// ----- forcing lemmas: rule assignments never lose a completion -----

/// In any completion, the digit of an empty cell is one of the cell's
/// candidates under the current partial grid.
pub proof fn lemma_completion_candidate(s: Seq<u8>, t: Seq<u8>, i: int)
    requires
        s.len() == 81,
        completion(s, t),
        0 <= i < 81,
        s[i] == 0,
    ensures
        candidate(s, i, t[i]),
{
    assert(t[i] != 0);
    assert(t[i] <= 9);
    if digit_in_units(s, i, t[i]) {
        let j = choose|j: int| 0 <= j < 81 && #[trigger] same_unit(i, j) && s[j] == t[i];
        assert(t[j] == s[j]);
        assert(i != j);
        assert(t[i] != t[j]);
        assert(false);
    }
}

/// Placing a candidate digit in an empty cell keeps the grid conflict-free.
pub proof fn lemma_update_no_conflicts(s: Seq<u8>, i: int, d: u8)
    requires
        s.len() == 81,
        no_conflicts(s),
        placeable(s, i, d),
    ensures
        no_conflicts(s.update(i, d)),
{
    let s2 = s.update(i, d);
    assert forall|a: int, b: int|
        0 <= a < 81 && 0 <= b < 81 && a != b && #[trigger] same_unit(a, b) && s2[a] != 0
            implies s2[a] != s2[b] by {
        if a == i {
            if s2[b] == d {
                assert(s[b] == d);
                assert(digit_in_units(s, i, d));
            }
        } else if b == i {
            if s2[a] == d {
                assert(s[a] == d);
                assert(same_unit(i, a));
                assert(digit_in_units(s, i, d));
            }
        } else {
            assert(s[a] == s2[a] && s[b] == s2[b]);
        }
    }
}

/// A completion that already carries digit `d` in cell `i` also completes
/// the grid with `d` placed there.
pub proof fn lemma_completion_update(s: Seq<u8>, t: Seq<u8>, i: int, d: u8)
    requires
        s.len() == 81,
        completion(s, t),
        0 <= i < 81,
        t[i] == d,
    ensures
        completion(s.update(i, d), t),
{
    let s2 = s.update(i, d);
    assert forall|j: int| 0 <= j < s2.len() && #[trigger] s2[j] != 0 implies t[j] == s2[j] by {
        if j != i {
            assert(s2[j] == s[j]);
        }
    }
    assert(extends(s2, t));
}

/// A naked single is forced: every completion places exactly that digit.
pub proof fn lemma_naked_single_forced(s: Seq<u8>, t: Seq<u8>, i: int, d: u8)
    requires
        s.len() == 81,
        completion(s, t),
        naked_single(s, i, d),
    ensures
        t[i] == d,
        completion(s.update(i, d), t),
{
    lemma_completion_candidate(s, t, i);
    assert(t[i] == d);
    lemma_completion_update(s, t, i, d);
}

// ----- the pigeonhole argument for hidden singles -----

/// The digits of the first `k` cells of unit `u`, as a set of integers.
spec fn unit_vals(t: Seq<u8>, u: int, k: int) -> Set<int>
    decreases k,
{
    if k <= 0 {
        Set::empty()
    } else {
        unit_vals(t, u, k - 1).insert(t[unit_cell(u, k - 1)] as int)
    }
}

proof fn lemma_unit_vals_props(t: Seq<u8>, u: int, k: int)
    requires
        grid_wf(t),
        no_conflicts(t),
        full(t),
        0 <= u < 27,
        0 <= k <= 9,
    ensures
        unit_vals(t, u, k).finite(),
        unit_vals(t, u, k).len() == k,
        forall|e: int|
            #[trigger] unit_vals(t, u, k).contains(e)
                ==> exists|m: int| 0 <= m < k && t[#[trigger] unit_cell(u, m)] as int == e,
    decreases k,
{
    if k > 0 {
        lemma_unit_vals_props(t, u, k - 1);
        let c = unit_cell(u, k - 1);
        lemma_unit_cell_bounds(u, k - 1);
        let v = t[c] as int;
        if unit_vals(t, u, k - 1).contains(v) {
            let m = choose|m: int| 0 <= m < k - 1 && t[#[trigger] unit_cell(u, m)] as int == v;
            lemma_unit_cell_pair(u, m, k - 1);
            lemma_unit_cell_bounds(u, m);
            assert(t[unit_cell(u, m)] != 0);
            assert(false);
        }
        assert forall|e: int| #[trigger] unit_vals(t, u, k).contains(e)
            implies exists|m: int| 0 <= m < k && t[#[trigger] unit_cell(u, m)] as int == e by {
            if e == v {
                assert(t[unit_cell(u, k - 1)] as int == e);
            } else {
                assert(unit_vals(t, u, k - 1).contains(e));
            }
        }
    }
}

/// In a solved grid, every unit carries every digit 1..=9 somewhere.
proof fn lemma_unit_digit_present(t: Seq<u8>, u: int, d: u8)
    requires
        grid_wf(t),
        no_conflicts(t),
        full(t),
        0 <= u < 27,
        1 <= d <= 9,
    ensures
        exists|k: int| 0 <= k < 9 && t[#[trigger] unit_cell(u, k)] == d,
{
    if !(exists|k: int| 0 <= k < 9 && t[#[trigger] unit_cell(u, k)] == d) {
        lemma_unit_vals_props(t, u, 9);
        let vals = unit_vals(t, u, 9);
        lemma_int_range(1, 10);
        let range = set_int_range(1, 10);
        let without = range.remove(d as int);
        assert forall|e: int| #[trigger] vals.contains(e) implies without.contains(e) by {
            let m = choose|m: int| 0 <= m < 9 && t[#[trigger] unit_cell(u, m)] as int == e;
            lemma_unit_cell_bounds(u, m);
            assert(t[unit_cell(u, m)] != 0 && t[unit_cell(u, m)] <= 9);
            if e == d as int {
                assert(t[unit_cell(u, m)] == d);
                assert(false);
            }
        }
        assert(vals.subset_of(without));
        assert(range.contains(d as int));
        assert(without.len() == 8);
        lemma_len_subset(vals, without);
        assert(false);
    }
}

/// A hidden single is forced: every completion places exactly that digit in
/// that cell.
pub proof fn lemma_hidden_single_forced(s: Seq<u8>, t: Seq<u8>, u: int, d: u8, i: int)
    requires
        s.len() == 81,
        completion(s, t),
        0 <= u < 27,
        hidden_single(s, u, d, i),
    ensures
        t[i] == d,
        completion(s.update(i, d), t),
{
    lemma_unit_digit_present(t, u, d);
    let k = choose|k: int| 0 <= k < 9 && t[#[trigger] unit_cell(u, k)] == d;
    let j = unit_cell(u, k);
    lemma_unit_cell_bounds(u, k);
    assert(in_unit(u, j));
    if s[j] != 0 {
        assert(t[j] == s[j]);
        lemma_in_unit_same_unit(u, i, j);
        assert(digit_in_units(s, i, d));
        assert(false);
    }
    if digit_in_units(s, j, d) {
        let c = choose|c: int| 0 <= c < 81 && #[trigger] same_unit(j, c) && s[c] == d;
        assert(t[c] == s[c]);
        assert(c != j);
        assert(t[j] != t[c]);
        assert(false);
    }
    assert(placeable(s, j, d));
    assert(j == i);
    lemma_completion_update(s, t, i, d);
}

// ----- candidate scanning -----

/// Whether the two cells lie in the same row, column or block.
fn shares_unit(i: usize, j: usize) -> (r: bool)
    requires
        i < 81,
        j < 81,
    ensures
        r == same_unit(i as int, j as int),
{
    i / 9 == j / 9 || i % 9 == j % 9 || (i / 9 / 3 == j / 9 / 3 && i % 9 / 3 == j % 9 / 3)
}

/// Whether digit `d` already stands in the row, column or block of cell `i`.
fn digit_blocked(sudoku: &Sudoku, i: usize, d: u8) -> (r: bool)
    requires
        sudoku.wf(),
        i < 81,
    ensures
        r == digit_in_units(sudoku@, i as int, d),
{
    let mut j: usize = 0;
    while j < 81
        invariant
            sudoku.wf(),
            i < 81,
            j <= 81,
            forall|m: int| 0 <= m < j && #[trigger] same_unit(i as int, m) ==> sudoku@[m] != d,
        decreases 81 - j,
    {
        if shares_unit(i, j) {
            if sudoku.0[j] == d {
                return true;
            }
        }
        j = j + 1;
    }
    proof {
        if digit_in_units(sudoku@, i as int, d) {
            let m = choose|m: int| 0 <= m < 81 && #[trigger] same_unit(i as int, m)
                && sudoku@[m] == d;
            assert(false);
        }
    }
    false
}

/// Whether digit `d` may legally be placed in cell `i`.
fn is_candidate(sudoku: &Sudoku, i: usize, d: u8) -> (r: bool)
    requires
        sudoku.wf(),
        i < 81,
    ensures
        r == candidate(sudoku@, i as int, d),
{
    if 1 <= d && d <= 9 {
        !digit_blocked(sudoku, i, d)
    } else {
        false
    }
}

/// The candidate set of the cell in column `col`, row `row`: every digit
/// 1..=9 absent from the cell's row, column and block, in ascending order.
pub fn available_nums(col: usize, row: usize, sudoku: &Sudoku) -> (r: Vec<u8>)
    requires
        sudoku.wf(),
        col < 9,
        row < 9,
    ensures
        forall|m: int|
            0 <= m < r@.len() ==> candidate(
                sudoku@,
                cell_index(row as int, col as int),
                #[trigger] r@[m],
            ),
        forall|d: u8|
            #[trigger] candidate(sudoku@, cell_index(row as int, col as int), d)
                ==> r@.contains(d),
        forall|m1: int, m2: int| 0 <= m1 < m2 < r@.len() ==> r@[m1] < r@[m2],
        r@.len() == cand_count(sudoku@, cell_index(row as int, col as int)),
{
    let i = row * 9 + col;
    let ghost gi = cell_index(row as int, col as int);
    let mut r: Vec<u8> = Vec::new();
    let mut d: u8 = 1;
    while d <= 9
        invariant
            sudoku.wf(),
            col < 9,
            row < 9,
            i == row * 9 + col,
            gi == i as int,
            1 <= d <= 10,
            forall|m: int|
                0 <= m < r@.len() ==> 1 <= #[trigger] r@[m] < d
                    && candidate(sudoku@, gi, r@[m]),
            forall|e: u8| 1 <= e < d && #[trigger] candidate(sudoku@, gi, e) ==> r@.contains(e),
            forall|m1: int, m2: int| 0 <= m1 < m2 < r@.len() ==> r@[m1] < r@[m2],
            r@.len() == cand_below(sudoku@, gi, d as int - 1),
        decreases 10 - d,
    {
        let ghost prev = r@;
        if is_candidate(sudoku, i, d) {
            r.push(d);
        }
        proof {
            assert forall|e: u8| 1 <= e < d + 1 && #[trigger] candidate(sudoku@, gi, e)
                implies r@.contains(e) by {
                if e < d {
                    let m = choose|m: int| 0 <= m < prev.len() && prev[m] == e;
                    assert(r@[m] == e);
                } else {
                    assert(r@[r@.len() - 1] == e);
                }
            }
        }
        d = d + 1;
    }
    r
}

// ----- naked singles -----

/// If the cell in column `col`, row `row` accepts exactly one digit, writes
/// that digit there; otherwise leaves the grid unchanged.
fn fill_cell(col: usize, row: usize, sudoku: &mut Sudoku) -> (r: bool)
    requires
        old(sudoku).wf(),
        col < 9,
        row < 9,
        old(sudoku)@[cell_index(row as int, col as int)] == 0,
    ensures
        final(sudoku).wf(),
        r == exists|d: u8|
            #[trigger] naked_single(old(sudoku)@, cell_index(row as int, col as int), d),
        !r ==> final(sudoku)@ == old(sudoku)@,
        r ==> exists|d: u8|
            #[trigger] naked_single(old(sudoku)@, cell_index(row as int, col as int), d)
                && final(sudoku)@ == old(sudoku)@.update(
                cell_index(row as int, col as int),
                d,
            ),
{
    let ghost gi = cell_index(row as int, col as int);
    let nums = available_nums(col, row, sudoku);
    if nums.len() == 1 {
        let d = nums[0];
        proof {
            assert(candidate(sudoku@, gi, d));
            assert forall|e: u8| #[trigger] candidate(sudoku@, gi, e) implies e == d by {
                assert(nums@.contains(e));
                let m = choose|m: int| 0 <= m < nums@.len() && nums@[m] == e;
                assert(m == 0);
            }
            assert(naked_single(sudoku@, gi, d));
        }
        sudoku.set(row, col, d);
        true
    } else {
        proof {
            if exists|d: u8| #[trigger] naked_single(sudoku@, gi, d) {
                let d = choose|d: u8| #[trigger] naked_single(sudoku@, gi, d);
                assert(nums@.contains(d));
                let m = choose|m: int| 0 <= m < nums@.len() && nums@[m] == d;
                assert(nums@.len() >= 2);
                assert(candidate(sudoku@, gi, nums@[0]) && candidate(sudoku@, gi, nums@[1]));
                assert(nums@[0] == d && nums@[1] == d);
                assert(nums@[0] < nums@[1]);
                assert(false);
            }
        }
        false
    }
}

/// One naked-single pass: writes the first naked single found in row-major
/// scan order, if any.
fn fill_cells(sudoku: &mut Sudoku) -> (r: bool)
    requires
        old(sudoku).wf(),
    ensures
        final(sudoku).wf(),
        r == exists|i: int, d: u8| #[trigger] naked_single(old(sudoku)@, i, d),
        !r ==> final(sudoku)@ == old(sudoku)@,
        r ==> exists|i: int, d: u8|
            #[trigger] naked_single(old(sudoku)@, i, d)
                && final(sudoku)@ == old(sudoku)@.update(i, d)
                && (forall|j: int, e: u8| 0 <= j < i ==> !(#[trigger] naked_single(
                old(sudoku)@,
                j,
                e,
            ))),
{
    let mut idx: usize = 0;
    while idx < 81
        invariant
            sudoku.wf(),
            idx <= 81,
            sudoku@ == old(sudoku)@,
            forall|m: int, d: u8| 0 <= m < idx ==> !(#[trigger] naked_single(old(sudoku)@, m, d)),
        decreases 81 - idx,
    {
        let row = idx / 9;
        let col = idx % 9;
        if sudoku.get(row, col) == 0 {
            if fill_cell(col, row, sudoku) {
                return true;
            }
        }
        idx = idx + 1;
    }
    false
}

// ----- hidden singles -----

/// The flat index of cell `k` of unit `u`.
fn unit_cell_at(u: usize, k: usize) -> (i: usize)
    requires
        u < 27,
        k < 9,
    ensures
        i as int == unit_cell(u as int, k as int),
        i < 81,
{
    proof {
        lemma_unit_cell_bounds(u as int, k as int);
    }
    if u < 9 {
        u * 9 + k
    } else if u < 18 {
        k * 9 + (u - 9)
    } else {
        let b = u - 18;
        (b / 3) * 27 + (b % 3) * 3 + (k / 3) * 9 + k % 3
    }
}

/// The cells of a unit come in strictly increasing flat order.
proof fn lemma_unit_cell_mono(u: int, k1: int, k2: int)
    requires
        0 <= u < 27,
        0 <= k1 < k2 <= 9,
    ensures
        unit_cell(u, k1) < unit_cell(u, k2),
{
    if u >= 18 {
        assert(k1 / 3 <= k2 / 3);
    }
}

/// Every cell of unit `u` that is empty and accepts digit `num`, as flat
/// indices in increasing order.
fn cells_in_unit(u: usize, num: u8, sudoku: &Sudoku) -> (r: Vec<usize>)
    requires
        sudoku.wf(),
        u < 27,
        1 <= num <= 9,
    ensures
        forall|m: int|
            0 <= m < r@.len() ==> #[trigger] r@[m] < 81 && in_unit(u as int, r@[m] as int)
                && placeable(sudoku@, r@[m] as int, num),
        forall|i: int|
            0 <= i < 81 && in_unit(u as int, i) && #[trigger] placeable(sudoku@, i, num)
                ==> exists|m: int| 0 <= m < r@.len() && #[trigger] r@[m] as int == i,
        forall|m1: int, m2: int| 0 <= m1 < m2 < r@.len() ==> r@[m1] < r@[m2],
{
    let mut r: Vec<usize> = Vec::new();
    let mut k: usize = 0;
    while k < 9
        invariant
            sudoku.wf(),
            u < 27,
            1 <= num <= 9,
            k <= 9,
            forall|m: int|
                0 <= m < r@.len() ==> #[trigger] r@[m] < 81 && in_unit(u as int, r@[m] as int)
                    && placeable(sudoku@, r@[m] as int, num),
            forall|kk: int|
                0 <= kk < k && #[trigger] placeable(sudoku@, unit_cell(u as int, kk), num)
                    ==> exists|m: int|
                    0 <= m < r@.len() && #[trigger] r@[m] as int == unit_cell(u as int, kk),
            forall|m1: int, m2: int| 0 <= m1 < m2 < r@.len() ==> r@[m1] < r@[m2],
            forall|m: int|
                0 <= m < r@.len() ==> ((#[trigger] r@[m]) as int) < unit_cell(u as int, k as int),
        decreases 9 - k,
    {
        let i = unit_cell_at(u, k);
        let ghost prev = r@;
        if sudoku.0[i] == 0 {
            if is_candidate(sudoku, i, num) {
                proof {
                    assert(in_unit(u as int, i as int));
                }
                r.push(i);
            }
        }
        proof {
            lemma_unit_cell_mono(u as int, k as int, k as int + 1);
            assert forall|kk: int|
                0 <= kk < k + 1 && #[trigger] placeable(sudoku@, unit_cell(u as int, kk), num)
                    implies exists|m: int|
                    0 <= m < r@.len() && #[trigger] r@[m] as int == unit_cell(u as int, kk) by {
                if kk < k {
                    let m = choose|m: int|
                        0 <= m < prev.len() && #[trigger] prev[m] as int == unit_cell(
                            u as int,
                            kk,
                        );
                    assert(r@[m] as int == unit_cell(u as int, kk));
                } else {
                    assert(r@[r@.len() - 1] as int == unit_cell(u as int, kk));
                }
            }
        }
        k = k + 1;
    }
    proof {
        assert forall|i: int|
            0 <= i < 81 && in_unit(u as int, i) && #[trigger] placeable(sudoku@, i, num)
                implies exists|m: int| 0 <= m < r@.len() && #[trigger] r@[m] as int == i by {
            let kk = choose|kk: int| 0 <= kk < 9 && unit_cell(u as int, kk) == i;
            assert(placeable(sudoku@, unit_cell(u as int, kk), num));
        }
    }
    r
}

/// Every cell of row `row` that is empty and accepts `num`.
fn cells_in_row(row: usize, num: u8, sudoku: &Sudoku) -> (r: Vec<usize>)
    requires
        sudoku.wf(),
        row < 9,
        1 <= num <= 9,
    ensures
        forall|m: int|
            0 <= m < r@.len() ==> #[trigger] r@[m] < 81 && in_unit(row as int, r@[m] as int)
                && placeable(sudoku@, r@[m] as int, num),
        forall|i: int|
            0 <= i < 81 && in_unit(row as int, i) && #[trigger] placeable(sudoku@, i, num)
                ==> exists|m: int| 0 <= m < r@.len() && #[trigger] r@[m] as int == i,
        forall|m1: int, m2: int| 0 <= m1 < m2 < r@.len() ==> r@[m1] < r@[m2],
{
    cells_in_unit(row, num, sudoku)
}

/// Every cell of column `col` that is empty and accepts `num`.
fn cells_in_col(col: usize, num: u8, sudoku: &Sudoku) -> (r: Vec<usize>)
    requires
        sudoku.wf(),
        col < 9,
        1 <= num <= 9,
    ensures
        forall|m: int|
            0 <= m < r@.len() ==> #[trigger] r@[m] < 81 && in_unit(9 + col as int, r@[m] as int)
                && placeable(sudoku@, r@[m] as int, num),
        forall|i: int|
            0 <= i < 81 && in_unit(9 + col as int, i) && #[trigger] placeable(sudoku@, i, num)
                ==> exists|m: int| 0 <= m < r@.len() && #[trigger] r@[m] as int == i,
        forall|m1: int, m2: int| 0 <= m1 < m2 < r@.len() ==> r@[m1] < r@[m2],
{
    cells_in_unit(9 + col, num, sudoku)
}

/// Every cell of block `block` (0..9, row-major over blocks) that is empty
/// and accepts `num`.
fn cells_in_block(block: usize, num: u8, sudoku: &Sudoku) -> (r: Vec<usize>)
    requires
        sudoku.wf(),
        block < 9,
        1 <= num <= 9,
    ensures
        forall|m: int|
            0 <= m < r@.len() ==> #[trigger] r@[m] < 81
                && in_unit(18 + block as int, r@[m] as int)
                && placeable(sudoku@, r@[m] as int, num),
        forall|i: int|
            0 <= i < 81 && in_unit(18 + block as int, i) && #[trigger] placeable(sudoku@, i, num)
                ==> exists|m: int| 0 <= m < r@.len() && #[trigger] r@[m] as int == i,
        forall|m1: int, m2: int| 0 <= m1 < m2 < r@.len() ==> r@[m1] < r@[m2],
{
    cells_in_unit(18 + block, num, sudoku)
}

/// If some digit fits exactly one cell of unit `u`, writes the smallest such
/// digit there; otherwise leaves the grid unchanged.
fn complete_element(u: usize, sudoku: &mut Sudoku) -> (r: bool)
    requires
        old(sudoku).wf(),
        u < 27,
    ensures
        final(sudoku).wf(),
        r == exists|d: u8, i: int| #[trigger] hidden_single(old(sudoku)@, u as int, d, i),
        !r ==> final(sudoku)@ == old(sudoku)@,
        r ==> exists|d: u8, i: int|
            #[trigger] hidden_single(old(sudoku)@, u as int, d, i)
                && final(sudoku)@ == old(sudoku)@.update(i, d)
                && (forall|e: u8, j: int| 1 <= e < d ==> !(#[trigger] hidden_single(
                old(sudoku)@,
                u as int,
                e,
                j,
            ))),
{
    let mut num: u8 = 1;
    while num <= 9
        invariant
            sudoku.wf(),
            u < 27,
            1 <= num <= 10,
            sudoku@ == old(sudoku)@,
            forall|e: u8, i: int|
                1 <= e < num ==> !(#[trigger] hidden_single(old(sudoku)@, u as int, e, i)),
        decreases 10 - num,
    {
        let cells = if u < 9 {
            cells_in_row(u, num, sudoku)
        } else if u < 18 {
            cells_in_col(u - 9, num, sudoku)
        } else {
            cells_in_block(u - 18, num, sudoku)
        };
        if cells.len() == 1 {
            let i = cells[0];
            proof {
                assert forall|j: int| in_unit(u as int, j) && #[trigger] placeable(
                    sudoku@,
                    j,
                    num,
                ) implies j == i as int by {
                    let m = choose|m: int|
                        0 <= m < cells@.len() && #[trigger] cells@[m] as int == j;
                    assert(m == 0);
                }
                assert(hidden_single(sudoku@, u as int, num, i as int));
                assert(cell_index(i as int / 9, i as int % 9) == i as int);
            }
            let row = i / 9;
            let col = i % 9;
            sudoku.set(row, col, num);
            return true;
        }
        proof {
            if exists|i: int| #[trigger] hidden_single(sudoku@, u as int, num, i) {
                let i = choose|i: int| #[trigger] hidden_single(sudoku@, u as int, num, i);
                assert(placeable(sudoku@, i, num));
                let m = choose|m: int| 0 <= m < cells@.len() && #[trigger] cells@[m] as int == i;
                assert(cells@.len() >= 2);
                assert(placeable(sudoku@, cells@[0] as int, num));
                assert(placeable(sudoku@, cells@[1] as int, num));
                assert(cells@[0] as int == i && cells@[1] as int == i);
                assert(false);
            }
        }
        num = num + 1;
    }
    false
}

/// One hidden-single pass over the 9 units starting at `base` (0 for the
/// rows, 9 for the columns, 18 for the blocks): writes the smallest hidden
/// single of the first unit that has one, if any.
fn complete_elements(base: usize, sudoku: &mut Sudoku) -> (r: bool)
    requires
        old(sudoku).wf(),
        base == 0 || base == 9 || base == 18,
    ensures
        final(sudoku).wf(),
        r == exists|u: int, d: u8, i: int|
            base <= u < base + 9 && #[trigger] hidden_single(old(sudoku)@, u, d, i),
        !r ==> final(sudoku)@ == old(sudoku)@,
        r ==> exists|u: int, d: u8, i: int|
            base <= u < base + 9 && #[trigger] hidden_single(old(sudoku)@, u, d, i)
                && final(sudoku)@ == old(sudoku)@.update(i, d)
                && (forall|e: u8, j: int| 1 <= e < d ==> !(#[trigger] hidden_single(
                old(sudoku)@,
                u,
                e,
                j,
            )))
                && (forall|u2: int, e: u8, j: int|
                base <= u2 < u ==> !(#[trigger] hidden_single(old(sudoku)@, u2, e, j))),
{
    let mut e: usize = 0;
    while e < 9
        invariant
            sudoku.wf(),
            base == 0 || base == 9 || base == 18,
            e <= 9,
            sudoku@ == old(sudoku)@,
            forall|u: int, d: u8, i: int|
                base <= u < base + e ==> !(#[trigger] hidden_single(old(sudoku)@, u, d, i)),
        decreases 9 - e,
    {
        if complete_element(base + e, sudoku) {
            return true;
        }
        e = e + 1;
    }
    false
}

// ----- phase 1: propagation to a fixed point -----

/// Applies naked singles and hidden singles (per column, row, then block)
/// until no rule changes any cell.  Only forced digits are written, so every
/// completion of the input grid is kept; run on a grid that is already a
/// fixed point, it changes nothing.
pub fn apply_rules(sudoku: &mut Sudoku)
    requires
        old(sudoku).wf(),
    ensures
        final(sudoku).wf(),
        extends(old(sudoku)@, final(sudoku)@),
        count_zeros(final(sudoku)@) <= count_zeros(old(sudoku)@),
        no_conflicts(old(sudoku)@) ==> no_conflicts(final(sudoku)@),
        forall|t: Seq<u8>| #[trigger] completion(old(sudoku)@, t) ==> completion(final(sudoku)@, t),
        rules_done(final(sudoku)@),
        rules_done(old(sudoku)@) ==> final(sudoku)@ == old(sudoku)@,
        rules_reachable(old(sudoku)@, final(sudoku)@),
{
    proof {
        let c = seq![old(sudoku)@];
        assert(rules_chain(c) && c.len() >= 1 && c[0] == old(sudoku)@ && c[c.len() - 1] == old(
            sudoku,
        )@);
    }
    loop
        invariant
            sudoku.wf(),
            extends(old(sudoku)@, sudoku@),
            count_zeros(sudoku@) <= count_zeros(old(sudoku)@),
            no_conflicts(old(sudoku)@) ==> no_conflicts(sudoku@),
            forall|t: Seq<u8>| #[trigger] completion(old(sudoku)@, t) ==> completion(sudoku@, t),
            rules_done(old(sudoku)@) ==> sudoku@ == old(sudoku)@,
            rules_reachable(old(sudoku)@, sudoku@),
        ensures
            rules_done(sudoku@),
        decreases count_zeros(sudoku@),
    {
        let ghost prev = sudoku@;
        proof {
            lemma_zeros_below_bounds(prev, 81);
        }
        let filled = fill_cells(sudoku);
        if filled {
            proof {
                let (i, d) = choose|i: int, d: u8|
                    naked_single(prev, i, d) && sudoku@ == prev.update(i, d);
                lemma_step(old(sudoku)@, prev, sudoku@, i, d);
                assert(rule_fires(prev, i, d));
                assert(rule_step(prev, sudoku@));
                lemma_reach_step(old(sudoku)@, prev, sudoku@);
            }
        } else if complete_elements(9, sudoku) {
            proof {
                let (u, d, i) = choose|u: int, d: u8, i: int|
                    9 <= u < 18 && hidden_single(prev, u, d, i) && sudoku@ == prev.update(i, d);
                lemma_hidden_step(old(sudoku)@, prev, sudoku@, u, d, i);
                assert(rule_fires(prev, i, d));
                assert(rule_step(prev, sudoku@));
                lemma_reach_step(old(sudoku)@, prev, sudoku@);
            }
        } else if complete_elements(0, sudoku) {
            proof {
                let (u, d, i) = choose|u: int, d: u8, i: int|
                    0 <= u < 9 && hidden_single(prev, u, d, i) && sudoku@ == prev.update(i, d);
                lemma_hidden_step(old(sudoku)@, prev, sudoku@, u, d, i);
                assert(rule_fires(prev, i, d));
                assert(rule_step(prev, sudoku@));
                lemma_reach_step(old(sudoku)@, prev, sudoku@);
            }
        } else if complete_elements(18, sudoku) {
            proof {
                let (u, d, i) = choose|u: int, d: u8, i: int|
                    18 <= u < 27 && hidden_single(prev, u, d, i) && sudoku@ == prev.update(i, d);
                lemma_hidden_step(old(sudoku)@, prev, sudoku@, u, d, i);
                assert(rule_fires(prev, i, d));
                assert(rule_step(prev, sudoku@));
                lemma_reach_step(old(sudoku)@, prev, sudoku@);
            }
        } else {
            proof {
                assert forall|u: int, d: u8, i: int| 0 <= u < 27
                    implies !(#[trigger] hidden_single(sudoku@, u, d, i)) by {
                    if hidden_single(sudoku@, u, d, i) {
                        if u < 9 {
                            assert(0 <= u < 0 + 9 && hidden_single(sudoku@, u, d, i));
                        } else if u < 18 {
                            assert(9 <= u < 9 + 9 && hidden_single(sudoku@, u, d, i));
                        } else {
                            assert(18 <= u < 18 + 9 && hidden_single(sudoku@, u, d, i));
                        }
                    }
                }
                assert(rules_done(sudoku@));
            }
            break;
        }
    }
}

/// One naked-single step of the fixed-point loop keeps every invariant of
/// `apply_rules`: `orig` is the loop's starting grid, `prev` the grid before
/// the step, `cur == prev.update(i, d)` the grid after it.
proof fn lemma_step(orig: Seq<u8>, prev: Seq<u8>, cur: Seq<u8>, i: int, d: u8)
    requires
        prev.len() == 81,
        extends(orig, prev),
        count_zeros(prev) <= count_zeros(orig),
        no_conflicts(orig) ==> no_conflicts(prev),
        forall|t: Seq<u8>| #[trigger] completion(orig, t) ==> completion(prev, t),
        rules_done(orig) ==> prev == orig,
        naked_single(prev, i, d) || (exists|u: int|
            0 <= u < 27 && #[trigger] hidden_single(prev, u, d, i)),
        cur == prev.update(i, d),
    ensures
        grid_wf(prev) ==> grid_wf(cur),
        extends(orig, cur),
        count_zeros(cur) < count_zeros(prev),
        count_zeros(cur) <= count_zeros(orig),
        no_conflicts(orig) ==> no_conflicts(cur),
        forall|t: Seq<u8>| #[trigger] completion(orig, t) ==> completion(cur, t),
        rules_done(orig) ==> cur == orig,
        0 <= count_zeros(cur),
{
    assert(placeable(prev, i, d));
    lemma_count_zeros_update(prev, i, d);
    assert forall|j: int| 0 <= j < orig.len() && #[trigger] orig[j] != 0
        implies cur[j] == orig[j] by {
        assert(prev[j] == orig[j]);
        assert(j != i);
    }
    if no_conflicts(orig) {
        lemma_update_no_conflicts(prev, i, d);
    }
    assert forall|t: Seq<u8>| #[trigger] completion(orig, t) implies completion(cur, t) by {
        assert(completion(prev, t));
        if naked_single(prev, i, d) {
            lemma_naked_single_forced(prev, t, i, d);
        } else {
            let u = choose|u: int| 0 <= u < 27 && #[trigger] hidden_single(prev, u, d, i);
            lemma_hidden_single_forced(prev, t, u, d, i);
        }
    }
    if rules_done(orig) {
        if naked_single(prev, i, d) {
            assert(naked_single(orig, i, d));
        } else {
            let u = choose|u: int| 0 <= u < 27 && #[trigger] hidden_single(prev, u, d, i);
            assert(hidden_single(orig, u, d, i));
        }
        assert(false);
    }
    if grid_wf(prev) {
        assert forall|j: int| 0 <= j < 81 implies #[trigger] cur[j] <= 9 by {
            if j != i {
                assert(cur[j] == prev[j]);
            }
        }
    }
}

/// The hidden-single form of `lemma_step`.
proof fn lemma_hidden_step(orig: Seq<u8>, prev: Seq<u8>, cur: Seq<u8>, u: int, d: u8, i: int)
    requires
        prev.len() == 81,
        extends(orig, prev),
        count_zeros(prev) <= count_zeros(orig),
        no_conflicts(orig) ==> no_conflicts(prev),
        forall|t: Seq<u8>| #[trigger] completion(orig, t) ==> completion(prev, t),
        rules_done(orig) ==> prev == orig,
        0 <= u < 27,
        hidden_single(prev, u, d, i),
        cur == prev.update(i, d),
    ensures
        grid_wf(prev) ==> grid_wf(cur),
        extends(orig, cur),
        count_zeros(cur) < count_zeros(prev),
        count_zeros(cur) <= count_zeros(orig),
        no_conflicts(orig) ==> no_conflicts(cur),
        forall|t: Seq<u8>| #[trigger] completion(orig, t) ==> completion(cur, t),
        rules_done(orig) ==> cur == orig,
        0 <= count_zeros(cur),
{
    lemma_step(orig, prev, cur, i, d);
}

// ----- phase 2: guided backtracking -----

/// Picks an empty cell with the fewest candidates, breaking ties by the
/// first such cell in row-major scan order, and returns its column, row and
/// candidate set; `None` when every cell is filled.
pub fn find_unfilled_cell(sudoku: &Sudoku) -> (r: Option<(usize, usize, Vec<u8>)>)
    requires
        sudoku.wf(),
    ensures
        match r {
            None => forall|j: int| 0 <= j < 81 ==> #[trigger] sudoku@[j] != 0,
            Some((col, row, nums)) => {
                &&& col < 9 && row < 9
                &&& sudoku@[cell_index(row as int, col as int)] == 0
                &&& forall|m: int|
                    0 <= m < nums@.len() ==> candidate(
                        sudoku@,
                        cell_index(row as int, col as int),
                        #[trigger] nums@[m],
                    )
                &&& forall|d: u8|
                    #[trigger] candidate(sudoku@, cell_index(row as int, col as int), d)
                        ==> nums@.contains(d)
                &&& forall|m1: int, m2: int| 0 <= m1 < m2 < nums@.len() ==> nums@[m1] < nums@[m2]
                &&& nums@.len() == cand_count(sudoku@, cell_index(row as int, col as int))
                &&& forall|j: int|
                    0 <= j < 81 && #[trigger] sudoku@[j] == 0
                        ==> cand_count(sudoku@, j) >= nums@.len()
                &&& forall|j: int|
                    0 <= j < cell_index(row as int, col as int) && #[trigger] sudoku@[j] == 0
                        ==> cand_count(sudoku@, j) > nums@.len()
            },
        },
{
    let mut best: Option<(usize, Vec<u8>)> = None;
    let mut idx: usize = 0;
    while idx < 81
        invariant
            sudoku.wf(),
            idx <= 81,
            match best {
                None => forall|j: int| 0 <= j < idx ==> #[trigger] sudoku@[j] != 0,
                Some((bi, bn)) => {
                    &&& bi < idx && bi < 81
                    &&& sudoku@[bi as int] == 0
                    &&& forall|m: int|
                        0 <= m < bn@.len() ==> candidate(sudoku@, bi as int, #[trigger] bn@[m])
                    &&& forall|d: u8|
                        #[trigger] candidate(sudoku@, bi as int, d) ==> bn@.contains(d)
                    &&& forall|m1: int, m2: int|
                        0 <= m1 < m2 < bn@.len() ==> bn@[m1] < bn@[m2]
                    &&& bn@.len() == cand_count(sudoku@, bi as int)
                    &&& forall|j: int|
                        0 <= j < idx && #[trigger] sudoku@[j] == 0
                            ==> cand_count(sudoku@, j) >= bn@.len()
                    &&& forall|j: int|
                        0 <= j < bi && #[trigger] sudoku@[j] == 0
                            ==> cand_count(sudoku@, j) > bn@.len()
                },
            },
        decreases 81 - idx,
    {
        let row = idx / 9;
        let col = idx % 9;
        if sudoku.get(row, col) == 0 {
            let nums = available_nums(col, row, sudoku);
            let better = match &best {
                None => true,
                Some(p) => nums.len() < p.1.len(),
            };
            if better {
                best = Some((idx, nums));
            }
        }
        idx = idx + 1;
    }
    match best {
        None => None,
        Some((bi, bn)) => Some((bi % 9, bi / 9, bn)),
    }
}

/// Tries every candidate of the branching cell in ascending order, solving
/// the rest of the grid recursively; the first completed grid found comes
/// back at once, so the answer carries the least viable digit in that cell.
/// `None` comes back when no candidate of some cell leads to a completion.
fn brute_force(sudoku: Sudoku) -> (r: Option<Sudoku>)
    requires
        sudoku.wf(),
        no_conflicts(sudoku@),
    ensures
        (r is Some) <==> solvable(sudoku@),
        match r {
            Some(sol) => completion(sudoku@, sol@),
            None => !solvable(sudoku@),
        },
        match r {
            Some(sol) => forall|ci: int, t: Seq<u8>|
                #![trigger chosen_cell(sudoku@, ci), completion(sudoku@, t)]
                chosen_cell(sudoku@, ci) && completion(sudoku@, t) ==> sol@[ci] <= t[ci],
            None => true,
        },
    decreases count_zeros(sudoku@), 0int,
{
    let found = find_unfilled_cell(&sudoku);
    match found {
        None => {
            proof {
                assert(full(sudoku@));
                assert(extends(sudoku@, sudoku@));
                assert(completion(sudoku@, sudoku@));
                assert forall|ci: int, t: Seq<u8>|
                    #![trigger chosen_cell(sudoku@, ci), completion(sudoku@, t)]
                    chosen_cell(sudoku@, ci) && completion(sudoku@, t)
                        implies sudoku@[ci] <= t[ci] by {
                    assert(sudoku@[ci] != 0);
                }
            }
            Some(sudoku)
        },
        Some((col, row, nums)) => {
            let ghost s = sudoku@;
            let ghost i = cell_index(row as int, col as int);
            proof {
                assert(chosen_cell(s, i));
            }
            let mut k: usize = 0;
            while k < nums.len()
                invariant
                    sudoku.wf(),
                    no_conflicts(sudoku@),
                    sudoku@ == s,
                    col < 9,
                    row < 9,
                    i == cell_index(row as int, col as int),
                    s[i] == 0,
                    chosen_cell(s, i),
                    k <= nums@.len(),
                    forall|m: int| 0 <= m < nums@.len() ==> candidate(s, i, #[trigger] nums@[m]),
                    forall|d: u8| #[trigger] candidate(s, i, d) ==> nums@.contains(d),
                    forall|m1: int, m2: int| 0 <= m1 < m2 < nums@.len() ==> nums@[m1] < nums@[m2],
                    forall|t: Seq<u8>, m: int|
                        #[trigger] completion(s, t) && 0 <= m < k ==> t[i] != #[trigger] nums@[m],
                decreases nums@.len() - k,
            {
                let num = nums[k];
                let mut trial = sudoku.clone();
                trial.set(row, col, num);
                proof {
                    assert(trial@ == s.update(i, num));
                    assert(placeable(s, i, num));
                    lemma_update_no_conflicts(s, i, num);
                    lemma_count_zeros_update(s, i, num);
                }
                let sub = solve(&trial);
                match sub {
                    Some(sol) => {
                        proof {
                            assert(completion(trial@, sol@));
                            assert forall|j: int| 0 <= j < s.len() && #[trigger] s[j] != 0
                                implies sol@[j] == s[j] by {
                                assert(trial@[j] == s[j]);
                            }
                            assert(extends(s, sol@));
                            assert(completion(s, sol@));
                            assert(trial@[i] != 0);
                            assert(sol@[i] == nums@[k as int]);
                            assert forall|ci: int, t: Seq<u8>|
                                #![trigger chosen_cell(s, ci), completion(s, t)]
                                chosen_cell(s, ci) && completion(s, t)
                                    implies sol@[ci] <= t[ci] by {
                                lemma_chosen_cell_unique(s, ci, i);
                                lemma_completion_candidate(s, t, i);
                                assert(nums@.contains(t[i]));
                                let m = choose|m: int|
                                    0 <= m < nums@.len() && nums@[m] == t[i];
                                if m < k {
                                    assert(t[i] != nums@[m]);
                                    assert(false);
                                }
                                if m > k {
                                    assert(nums@[k as int] < nums@[m]);
                                }
                            }
                        }
                        return Some(sol);
                    },
                    None => {
                        proof {
                            assert forall|t: Seq<u8>| #[trigger] completion(s, t)
                                implies t[i] != nums@[k as int] by {
                                if t[i] == nums@[k as int] {
                                    lemma_completion_update(s, t, i, nums@[k as int]);
                                    assert(completion(trial@, t));
                                    assert(solvable(trial@));
                                    assert(false);
                                }
                            }
                        }
                    },
                }
                k = k + 1;
            }
            proof {
                if solvable(s) {
                    let t = choose|t: Seq<u8>| #[trigger] completion(s, t);
                    lemma_completion_candidate(s, t, i);
                    assert(nums@.contains(t[i]));
                    let m = choose|m: int| 0 <= m < nums@.len() && nums@[m] == t[i];
                    assert(t[i] != nums@[m]);
                    assert(false);
                }
            }
            None
        },
    }
}

/// Solves the grid: propagates forced digits to a fixed point, then
/// backtracks over the remaining empty cells.  Returns a completed grid
/// exactly when one is reachable from the given digits, and `None` when the
/// puzzle has no solution.
pub fn solve(sudoku: &Sudoku) -> (r: Option<Sudoku>)
    requires
        sudoku.wf(),
        no_conflicts(sudoku@),
    ensures
        (r is Some) <==> solvable(sudoku@),
        match r {
            Some(sol) => completion(sudoku@, sol@),
            None => !solvable(sudoku@),
        },
        match r {
            // On a grid that is already a propagation fixed point, the
            // search commits to the least viable digit in its branching
            // cell: candidates are tried ascending and the first success
            // short-circuits.
            Some(sol) => rules_done(sudoku@) ==> forall|ci: int, t: Seq<u8>|
                #![trigger chosen_cell(sudoku@, ci), completion(sudoku@, t)]
                chosen_cell(sudoku@, ci) && completion(sudoku@, t) ==> sol@[ci] <= t[ci],
            None => true,
        },
    decreases count_zeros(sudoku@), 1int,
{
    let mut work = sudoku.clone();
    apply_rules(&mut work);
    let ghost w = work@;
    proof {
        lemma_zeros_below_bounds(w, 81);
    }
    let r = brute_force(work);
    proof {
        match &r {
            Some(sol) => {
                assert(completion(w, sol@));
                assert forall|j: int| 0 <= j < sudoku@.len() && #[trigger] sudoku@[j] != 0
                    implies sol@[j] == sudoku@[j] by {
                    assert(w[j] == sudoku@[j]);
                }
                assert(extends(sudoku@, sol@));
                assert(completion(sudoku@, sol@));
            },
            None => {
                if solvable(sudoku@) {
                    let t = choose|t: Seq<u8>| #[trigger] completion(sudoku@, t);
                    assert(completion(w, t));
                    assert(solvable(w));
                    assert(false);
                }
            },
        }
    }
    r
}

} // verus!
