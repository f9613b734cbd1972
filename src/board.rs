pub mod empty_slots;

use vstd::prelude::*;

use crate::bitset::BitSet;
use crate::heuristic::{ascending, Heuristic};
use empty_slots::EmptySlots;
use vstd::string::{is_ascii, StringSliceAdditionalSpecFns};
use vstd::arithmetic::div_mod::lemma_fundamental_div_mod_converse;
use vstd::set_lib::{lemma_int_range, lemma_subset_equality, set_int_range};

verus! {

/// The candidate set of a cell.
pub type Domain = BitSet;

/// The row of cell `i`.
pub open spec fn row_of(i: int) -> int {
    i / 9
}

/// The column of cell `i`.
pub open spec fn col_of(i: int) -> int {
    i % 9
}

/// The block of cell `i`, numbered row by row.
pub open spec fn block_of(i: int) -> int {
    (i / 9 / 3) * 3 + (i % 9) / 3
}

/// Distinct cells that share a row, a column or a block.
pub open spec fn peers(i: int, j: int) -> bool {
    i != j && (row_of(i) == row_of(j) || col_of(i) == col_of(j) || block_of(i) == block_of(j))
}

/// No peer of cell `i` holds `v`.
pub open spec fn free_of(board: Seq<u32>, i: int, v: u32) -> bool {
    forall|j: int| 0 <= j < 81 && peers(i, j) ==> board[j] != v
}

/// No two peers hold the same nonzero value.
pub open spec fn consistent(board: Seq<u32>) -> bool {
    forall|i: int, j: int|
        0 <= i < 81 && 0 <= j < 81 && peers(i, j) && board[i] != 0 ==> board[i] != board[j]
}

/// Every cell holds a value in `1..=9`.
pub open spec fn complete(board: Seq<u32>) -> bool {
    forall|i: int| 0 <= i < 81 ==> 1 <= #[trigger] board[i] <= 9
}

/// The cells of row `r`, left to right.
pub open spec fn row_cells(r: int) -> Seq<usize> {
    Seq::new(9, |c: int| (r * 9 + c) as usize)
}

/// The cells of column `c`, top to bottom.
pub open spec fn col_cells(c: int) -> Seq<usize> {
    Seq::new(9, |r: int| (r * 9 + c) as usize)
}

/// The cells of block `b`, row by row.
pub open spec fn block_cells(b: int) -> Seq<usize> {
    Seq::new(9, |k: int| ((3 * (b / 3) + k / 3) * 9 + 3 * (b % 3) + k % 3) as usize)
}

/// The coordinates of the cell at row `r`, column `c`.
pub proof fn lemma_coords(r: int, c: int)
    requires
        0 <= r < 9,
        0 <= c < 9,
    ensures
        0 <= r * 9 + c < 81,
        row_of(r * 9 + c) == r,
        col_of(r * 9 + c) == c,
        block_of(r * 9 + c) == (r / 3) * 3 + c / 3,
{
    lemma_fundamental_div_mod_converse(r * 9 + c, 9, r, c);
}

/// The `k`-th cell of block `b` lies in that block.
pub proof fn lemma_block_cell(b: int, k: int)
    requires
        0 <= b < 9,
        0 <= k < 9,
    ensures
        0 <= block_cells(b)[k] < 81,
        row_of(block_cells(b)[k] as int) == 3 * (b / 3) + k / 3,
        col_of(block_cells(b)[k] as int) == 3 * (b % 3) + k % 3,
        block_of(block_cells(b)[k] as int) == b,
{
    let r = 3 * (b / 3) + k / 3;
    let c = 3 * (b % 3) + k % 3;
    lemma_coords(r, c);
    lemma_fundamental_div_mod_converse(r, 3, b / 3, k / 3);
    lemma_fundamental_div_mod_converse(c, 3, b % 3, k % 3);
}


/// The cells of the units of (`r`, `c`) are cells of the grid.
proof fn lemma_units_in_range(r: int, c: int, b: int)
    requires
        0 <= r < 9,
        0 <= c < 9,
        b == block_of(r * 9 + c),
    ensures
        0 <= b < 9,
        forall|j: int| 0 <= j < 9 ==> #[trigger] row_cells(r)[j] < 81,
        forall|j: int| 0 <= j < 9 ==> #[trigger] col_cells(c)[j] < 81,
        forall|j: int| 0 <= j < 9 ==> #[trigger] block_cells(b)[j] < 81,
{
    lemma_coords(r, c);
    assert forall|j: int| 0 <= j < 9 implies #[trigger] block_cells(b)[j] < 81 by {
        lemma_block_cell(b, j);
    }
}

/// A value is free at a cell exactly when no other cell of its row, column
/// or block holds it.
#[verifier::rlimit(40)]
proof fn lemma_free_of_units(board: Seq<u32>, r: int, c: int, v: u32, units_free: bool)
    requires
        board.len() == 81,
        0 <= r < 9,
        0 <= c < 9,
        units_free == ((forall|j: int|
            0 <= j < 9 ==> #[trigger] row_cells(r)[j] == r * 9 + c || board[row_cells(r)[j] as int]
                != v) && (forall|j: int|
            0 <= j < 9 ==> #[trigger] col_cells(c)[j] == r * 9 + c || board[col_cells(c)[j] as int]
                != v) && (forall|j: int|
            0 <= j < 9 ==> #[trigger] block_cells(block_of(r * 9 + c))[j] == r * 9 + c
                || board[block_cells(block_of(r * 9 + c))[j] as int] != v)),
    ensures
        units_free == free_of(board, r * 9 + c, v),
{
    let idx = r * 9 + c;
    let b = block_of(idx);
    lemma_coords(r, c);
    if units_free {
        assert forall|j: int| 0 <= j < 81 && peers(idx, j) implies board[j] != v by {
            lemma_coords(row_of(j), col_of(j));
            if row_of(j) == r {
                assert(row_cells(r)[col_of(j)] == j);
            } else if col_of(j) == c {
                assert(col_cells(c)[row_of(j)] == j);
            } else {
                let p = (row_of(j) % 3) * 3 + col_of(j) % 3;
                lemma_fundamental_div_mod_converse(row_of(j), 3, row_of(j) / 3, row_of(j) % 3);
                lemma_block_cell(b, p);
                assert(block_cells(b)[p] == j);
            }
        }
    } else {
        if !(forall|j: int|
            0 <= j < 9 ==> #[trigger] row_cells(r)[j] == idx || board[row_cells(r)[j] as int] != v) {
            let j = choose|j: int|
                0 <= j < 9 && !(#[trigger] row_cells(r)[j] == idx || board[row_cells(r)[j] as int]
                    != v);
            lemma_coords(r, j);
            assert(peers(idx, row_cells(r)[j] as int));
        } else if !(forall|j: int|
            0 <= j < 9 ==> #[trigger] col_cells(c)[j] == idx || board[col_cells(c)[j] as int] != v) {
            let j = choose|j: int|
                0 <= j < 9 && !(#[trigger] col_cells(c)[j] == idx || board[col_cells(c)[j] as int]
                    != v);
            lemma_coords(j, c);
            assert(peers(idx, col_cells(c)[j] as int));
        } else {
            let j = choose|j: int|
                0 <= j < 9 && !(#[trigger] block_cells(b)[j] == idx || board[block_cells(b)[j] as int]
                    != v);
            lemma_block_cell(b, j);
            assert(peers(idx, block_cells(b)[j] as int));
        }
    }
}

/// The cells of each row.
fn build_rows() -> (r: Vec<Vec<usize>>)
    ensures
        r@.len() == 9,
        forall|u: int| 0 <= u < 9 ==> #[trigger] r@[u]@ == row_cells(u),
{
    let mut out: Vec<Vec<usize>> = Vec::new();
    let mut u: usize = 0;
    while u < 9
        invariant
            u <= 9,
            out@.len() == u,
            forall|w: int| 0 <= w < u ==> #[trigger] out@[w]@ == row_cells(w),
        decreases 9 - u,
    {
        let mut unit: Vec<usize> = Vec::new();
        let mut k: usize = 0;
        while k < 9
            invariant
                u < 9,
                k <= 9,
                unit@ =~= Seq::new(k as nat, |j: int| (u * 9 + j) as usize),
            decreases 9 - k,
        {
            unit.push(u * 9 + k);
            k = k + 1;
        }
        assert(unit@ =~= row_cells(u as int));
        out.push(unit);
        u = u + 1;
    }
    out
}

/// The cells of each column.
fn build_cols() -> (r: Vec<Vec<usize>>)
    ensures
        r@.len() == 9,
        forall|u: int| 0 <= u < 9 ==> #[trigger] r@[u]@ == col_cells(u),
{
    let mut out: Vec<Vec<usize>> = Vec::new();
    let mut u: usize = 0;
    while u < 9
        invariant
            u <= 9,
            out@.len() == u,
            forall|w: int| 0 <= w < u ==> #[trigger] out@[w]@ == col_cells(w),
        decreases 9 - u,
    {
        let mut unit: Vec<usize> = Vec::new();
        let mut k: usize = 0;
        while k < 9
            invariant
                u < 9,
                k <= 9,
                unit@ =~= Seq::new(k as nat, |j: int| (j * 9 + u) as usize),
            decreases 9 - k,
        {
            unit.push(k * 9 + u);
            k = k + 1;
        }
        assert(unit@ =~= col_cells(u as int));
        out.push(unit);
        u = u + 1;
    }
    out
}

/// The cells of each block.
fn build_blocks() -> (r: Vec<Vec<usize>>)
    ensures
        r@.len() == 9,
        forall|u: int| 0 <= u < 9 ==> #[trigger] r@[u]@ == block_cells(u),
{
    let mut out: Vec<Vec<usize>> = Vec::new();
    let mut u: usize = 0;
    while u < 9
        invariant
            u <= 9,
            out@.len() == u,
            forall|w: int| 0 <= w < u ==> #[trigger] out@[w]@ == block_cells(w),
        decreases 9 - u,
    {
        let mut unit: Vec<usize> = Vec::new();
        let mut k: usize = 0;
        while k < 9
            invariant
                u < 9,
                k <= 9,
                unit@ =~= Seq::new(
                    k as nat,
                    |j: int| ((3 * (u / 3) + j / 3) * 9 + 3 * (u % 3) + j % 3) as usize,
                ),
            decreases 9 - k,
        {
            unit.push((3 * (u / 3) + k / 3) * 9 + 3 * (u % 3) + k % 3);
            k = k + 1;
        }
        assert(unit@ =~= block_cells(u as int));
        out.push(unit);
        u = u + 1;
    }
    out
}

/// A decimal digit.
pub open spec fn is_digit_char(c: char) -> bool {
    '0' <= c <= '9'
}

/// The values of a text of decimal digits.
pub open spec fn char_digits(cs: Seq<char>) -> Seq<u32> {
    Seq::new(cs.len(), |i: int| (cs[i] as u32 - 48) as u32)
}

/// The values of `domain` that are free at cell `i`.
pub open spec fn candidates(board: Seq<u32>, i: int, domain: Set<u32>) -> Set<u32> {
    domain.filter(|v: u32| free_of(board, i, v))
}

/// What building a grid from `values` gives: an error for a wrong length, a
/// value above 9, or two given peers with one value, checked in that order;
/// else a grid of those values whose blanks are its zero cells, each with an
/// empty candidate set.
pub open spec fn builds(values: Seq<u32>, r: Result<Sudoku, ParseError>) -> bool {
    &&& (values.len() != 81 ==> r == Err::<Sudoku, ParseError>(ParseError::WrongLength))
    &&& (values.len() == 81 && (exists|i: int| 0 <= i < 81 && #[trigger] values[i] > 9) ==> r
                == Err::<Sudoku, ParseError>(ParseError::ValueOutOfRange))
    &&& (values.len() == 81 && (forall|i: int| 0 <= i < 81 ==> #[trigger] values[i] <= 9)
                && !consistent(values) ==> r == Err::<Sudoku, ParseError>(
                ParseError::ConflictingGivens,
            ))
    &&& (values.len() == 81 && (forall|i: int| 0 <= i < 81 ==> #[trigger] values[i] <= 9)
                && consistent(values) ==> r is Ok)
    &&& (r matches Ok(g) ==> {
                &&& g.wf()
                &&& g.cells() == values
                &&& g.givens_filled()
                &&& forall|k: int, l: int| 0 <= k < l < g.blanks().len() ==> g.blanks()[k] < g.blanks()[l]
                &&& forall|i: int| 0 <= i < 81 ==> (g.blanks().contains(i as usize) <==> #[trigger] values[i] == 0)
                &&& forall|i: int| 0 <= i < 81 ==> (#[trigger] g.domains_view()[i])@ == Set::<u32>::empty()
            })
}

/// Writing a free value keeps the grid consistent.
proof fn lemma_assign_consistent(b: Seq<u32>, i: int, v: u32)
    requires
        b.len() == 81,
        0 <= i < 81,
        consistent(b),
        v != 0,
        free_of(b, i, v),
    ensures
        consistent(b.update(i, v)),
{
    let b2 = b.update(i, v);
    assert forall|x: int, y: int|
        0 <= x < 81 && 0 <= y < 81 && peers(x, y) && b2[x] != 0 implies b2[x] != b2[y] by {
        if x == i {
        } else if y == i {
            assert(peers(i, x));
        } else {
        }
    }
}

/// Clearing a cell keeps the grid consistent.
proof fn lemma_clear_consistent(b: Seq<u32>, i: int)
    requires
        b.len() == 81,
        0 <= i < 81,
        consistent(b),
    ensures
        consistent(b.update(i, 0)),
{
    let b2 = b.update(i, 0);
    assert forall|x: int, y: int|
        0 <= x < 81 && 0 <= y < 81 && peers(x, y) && b2[x] != 0 implies b2[x] != b2[y] by {
        if y == i {
        } else if x == i {
        } else {
        }
    }
}

/// What a sequence holds after an insertion.
proof fn lemma_insert_contains(s: Seq<usize>, p: int, x: usize, y: usize)
    requires
        0 <= p <= s.len(),
    ensures
        s.insert(p, x).contains(y) <==> (y == x || s.contains(y)),
{
    let t = s.insert(p, x);
    if y == x {
        assert(t[p] == x);
    }
    if s.contains(y) {
        let k = choose|k: int| 0 <= k < s.len() && s[k] == y;
        if k < p {
            assert(t[k] == y);
        } else {
            assert(t[k + 1] == y);
        }
    }
    if t.contains(y) {
        let k = choose|k: int| 0 <= k < t.len() && t[k] == y;
        if k < p {
            assert(s[k] == y);
        } else if k > p {
            assert(s[k - 1] == y);
        }
    }
}

/// What a sequence holds after a removal.
proof fn lemma_remove_contains(s: Seq<usize>, p: int, y: usize)
    requires
        0 <= p < s.len(),
    ensures
        s.remove(p).contains(y) ==> s.contains(y),
        s.contains(y) && y != s[p] ==> s.remove(p).contains(y),
{
    let t = s.remove(p);
    if t.contains(y) {
        let k = choose|k: int| 0 <= k < t.len() && t[k] == y;
        if k < p {
            assert(s[k] == y);
        } else {
            assert(s[k + 1] == y);
        }
    }
    if s.contains(y) && y != s[p] {
        let k = choose|k: int| 0 <= k < s.len() && s[k] == y;
        if k < p {
            assert(t[k] == y);
        } else {
            assert(t[k - 1] == y);
        }
    }
}

/// Every filled cell keeps its own value among its candidates.
pub open spec fn holds_own(b: Seq<u32>, d: Seq<Domain>) -> bool {
    forall|x: int| 0 <= x < 81 && b[x] != 0 ==> (#[trigger] d[x])@.contains(b[x])
}

/// No cell keeps, among its candidates, a value that a peer holds.
pub open spec fn excludes_peers(b: Seq<u32>, d: Seq<Domain>) -> bool {
    forall|x: int, y: int|
        0 <= x < 81 && 0 <= y < 81 && peers(x, y) && b[y] != 0 ==> !(#[trigger] d[x])@.contains(
            #[trigger] b[y],
        )
}

/// The state that forward checking keeps after each successful propagation.
pub open spec fn propagated(b: Seq<u32>, d: Seq<Domain>) -> bool {
    consistent(b) && holds_own(b, d) && excludes_peers(b, d)
}

/// A one-member set holds no second value.
proof fn lemma_single(s: Set<u32>, a: u32, c: u32)
    requires
        s.finite(),
        s.len() == 1,
        s.contains(a),
        s.contains(c),
    ensures
        a == c,
{
    if a != c {
        assert(s.remove(a).len() == 0);
        assert(s.remove(a).contains(c));
    }
}

/// A saved search state of forward checking: values, candidates, and the
/// position in the list of blanks; it was propagated, the blanks before that
/// position are filled, and the givens are those of `start`.
pub open spec fn snapshot_ok(v: (Vec<u32>, Vec<Domain>, usize), blanks: Seq<usize>, start: Seq<u32>) -> bool {
    &&& v.0@.len() == 81
    &&& v.1@.len() == 81
    &&& forall|i: int| 0 <= i < 81 ==> #[trigger] v.0@[i] <= 9
    &&& forall|i: int, w: u32| 0 <= i < 81 && #[trigger] v.1@[i]@.contains(w) ==> 1 <= w <= 9
    &&& propagated(v.0@, v.1@)
    &&& v.2 < blanks.len()
    &&& forall|m: int| 0 <= m < v.2 ==> #[trigger] v.0@[blanks[m] as int] != 0
    &&& forall|i: int| 0 <= i < 81 && !blanks.contains(i as usize) ==> #[trigger] v.0@[i] == start[i]
}

/// Nine values in `1..=9`, no two equal, hold every value of `1..=9`.
proof fn lemma_nine_distinct(vals: Seq<int>, v: int)
    requires
        vals.len() == 9,
        forall|k: int| 0 <= k < 9 ==> 1 <= #[trigger] vals[k] <= 9,
        vals.no_duplicates(),
        1 <= v <= 9,
    ensures
        vals.contains(v),
{
    vals.unique_seq_to_set();
    lemma_int_range(1, 10);
    assert(vals.to_set().subset_of(set_int_range(1, 10)));
    lemma_subset_equality(vals.to_set(), set_int_range(1, 10));
    assert(set_int_range(1, 10).contains(v));
}

/// A unit of nine distinct, pairwise peer cells of a complete, consistent
/// grid holds each value of `1..=9` exactly once.
proof fn lemma_unit_once(b: Seq<u32>, unit: Seq<usize>, v: u32)
    requires
        b.len() == 81,
        complete(b),
        consistent(b),
        unit.len() == 9,
        forall|k: int| 0 <= k < 9 ==> #[trigger] unit[k] < 81,
        forall|k: int, l: int| 0 <= k < 9 && 0 <= l < 9 && k != l ==> peers(#[trigger] unit[k] as int, #[trigger] unit[l] as int),
        1 <= v <= 9,
    ensures
        exists|k: int| 0 <= k < 9 && b[#[trigger] unit[k] as int] == v,
        forall|k: int, l: int|
            0 <= k < 9 && 0 <= l < 9 && b[#[trigger] unit[k] as int] == v && b[#[trigger] unit[l] as int] == v ==> k == l,
{
    let vals = Seq::new(9, |k: int| b[unit[k] as int] as int);
    assert(vals.no_duplicates()) by {
        assert forall|k: int, l: int| 0 <= k < vals.len() && 0 <= l < vals.len() && k != l implies vals[k] != vals[l] by {
            assert(peers(unit[k] as int, unit[l] as int));
            assert(b[unit[k] as int] != 0);
        }
    }
    assert forall|k: int| 0 <= k < 9 implies 1 <= #[trigger] vals[k] <= 9 by {
        assert(1 <= b[unit[k] as int] <= 9);
    }
    lemma_nine_distinct(vals, v as int);
    let k = choose|k: int| 0 <= k < vals.len() && vals[k] == v as int;
    assert(b[unit[k] as int] == v);
    assert forall|k: int, l: int|
        0 <= k < 9 && 0 <= l < 9 && b[#[trigger] unit[k] as int] == v && b[#[trigger] unit[l] as int] == v implies k == l by {
        if k != l {
            assert(peers(unit[k] as int, unit[l] as int));
        }
    }
}

/// In a complete grid where no two peers share a value (what `solve` and
/// `solve_fc` promise of a grid they report solved), row, column and block
/// `u` each hold every value of `1..=9` exactly once.
pub proof fn lemma_solved_units(b: Seq<u32>, u: int, v: u32)
    requires
        b.len() == 81,
        complete(b),
        consistent(b),
        0 <= u < 9,
        1 <= v <= 9,
    ensures
        exists|k: int| 0 <= k < 9 && b[#[trigger] row_cells(u)[k] as int] == v,
        exists|k: int| 0 <= k < 9 && b[#[trigger] col_cells(u)[k] as int] == v,
        exists|k: int| 0 <= k < 9 && b[#[trigger] block_cells(u)[k] as int] == v,
        forall|k: int, l: int|
            0 <= k < 9 && 0 <= l < 9 && b[#[trigger] row_cells(u)[k] as int] == v && b[#[trigger] row_cells(u)[l] as int] == v ==> k == l,
        forall|k: int, l: int|
            0 <= k < 9 && 0 <= l < 9 && b[#[trigger] col_cells(u)[k] as int] == v && b[#[trigger] col_cells(u)[l] as int] == v ==> k == l,
        forall|k: int, l: int|
            0 <= k < 9 && 0 <= l < 9 && b[#[trigger] block_cells(u)[k] as int] == v && b[#[trigger] block_cells(u)[l] as int] == v ==> k == l,
{
    assert forall|k: int, l: int| 0 <= k < 9 && 0 <= l < 9 && k != l implies peers(#[trigger] row_cells(u)[k] as int, #[trigger] row_cells(u)[l] as int) by {
        lemma_coords(u, k);
        lemma_coords(u, l);
    }
    assert forall|k: int| 0 <= k < 9 implies #[trigger] row_cells(u)[k] < 81 by {
        lemma_coords(u, k);
    }
    lemma_unit_once(b, row_cells(u), v);
    assert forall|k: int, l: int| 0 <= k < 9 && 0 <= l < 9 && k != l implies peers(#[trigger] col_cells(u)[k] as int, #[trigger] col_cells(u)[l] as int) by {
        lemma_coords(k, u);
        lemma_coords(l, u);
    }
    assert forall|k: int| 0 <= k < 9 implies #[trigger] col_cells(u)[k] < 81 by {
        lemma_coords(k, u);
    }
    lemma_unit_once(b, col_cells(u), v);
    assert forall|k: int, l: int| 0 <= k < 9 && 0 <= l < 9 && k != l implies peers(#[trigger] block_cells(u)[k] as int, #[trigger] block_cells(u)[l] as int) by {
        lemma_block_cell(u, k);
        lemma_block_cell(u, l);
        lemma_fundamental_div_mod_converse(k, 3, k / 3, k % 3);
        lemma_fundamental_div_mod_converse(l, 3, l / 3, l % 3);
    }
    assert forall|k: int| 0 <= k < 9 implies #[trigger] block_cells(u)[k] < 81 by {
        lemma_block_cell(u, k);
    }
    lemma_unit_once(b, block_cells(u), v);
}

/// Whether a value is free at a cell depends on the grid's values alone:
/// calls that change no value (reading, `get_domain`, `set_domain`,
/// `find_solution`, `apply_domain`) leave `is_valid` as it was.
pub proof fn lemma_validity_depends_on_values(g1: Sudoku, g2: Sudoku, row: int, col: int, v: u32)
    requires
        g1.cells() == g2.cells(),
    ensures
        free_of(g1.cells(), row * 9 + col, v) == free_of(g2.cells(), row * 9 + col, v),
{
}

/// Input with two given peers of one value is refused when the grid is
/// built, so a grid with no blank and a duplicate never reaches a search.
pub proof fn lemma_duplicate_rejected(values: Seq<u32>, r: Result<Sudoku, ParseError>, i: int, j: int)
    requires
        builds(values, r),
        values.len() == 81,
        forall|k: int| 0 <= k < 81 ==> #[trigger] values[k] <= 9,
        0 <= i < 81,
        0 <= j < 81,
        peers(i, j),
        values[i] != 0,
        values[i] == values[j],
    ensures
        r == Err::<Sudoku, ParseError>(ParseError::ConflictingGivens),
{
}

/// A full solution that keeps the givens of `start` and gives each blank a
/// value among its candidates in `init`.
pub open spec fn completion(b: Seq<u32>, start: Seq<u32>, blanks: Seq<usize>, init: Seq<Domain>) -> bool {
    &&& b.len() == 81
    &&& complete(b)
    &&& consistent(b)
    &&& forall|i: int| 0 <= i < 81 && !blanks.contains(i as usize) ==> #[trigger] b[i] == start[i]
    &&& forall|i: int| 0 <= i < 81 && blanks.contains(i as usize) ==> (#[trigger] init[i])@.contains(b[i])
}

/// `b` and `board` agree on the first `m` blanks.
pub open spec fn agrees(b: Seq<u32>, board: Seq<u32>, blanks: Seq<usize>, m: int) -> bool {
    forall|j: int| 0 <= j < m ==> b[#[trigger] blanks[j] as int] == board[blanks[j] as int]
}

/// Every completion that agrees with `board` on the blanks before the `m`-th
/// has, at that blank, a value still among its candidates or the value it holds.
pub open spec fn tried_below(board: Seq<u32>, dom: Seq<Domain>, blanks: Seq<usize>, start: Seq<u32>, init: Seq<Domain>, m: int) -> bool {
    forall|b: Seq<u32>|
        #[trigger] completion(b, start, blanks, init) && agrees(b, board, blanks, m) ==> dom[blanks[m] as int]@.contains(
            b[blanks[m] as int],
        ) || b[blanks[m] as int] == board[blanks[m] as int]
}

/// Every completion that agrees with `board` on the blanks before the `k`-th
/// has, at that blank, a value still among its candidates.
pub open spec fn open_at(board: Seq<u32>, dom: Seq<Domain>, blanks: Seq<usize>, start: Seq<u32>, init: Seq<Domain>, k: int) -> bool {
    forall|b: Seq<u32>|
        #[trigger] completion(b, start, blanks, init) && agrees(b, board, blanks, k) ==> dom[blanks[k] as int]@.contains(
            b[blanks[k] as int],
        )
}

/// The state of plain backtracking along the order `blanks` of the blank
/// cells: the first `k` are taken, the later ones are clear with their first
/// candidates, and no completion has been passed over.
pub open spec fn in_order_search(
    board: Seq<u32>,
    dom: Seq<Domain>,
    blanks: Seq<usize>,
    start: Seq<u32>,
    init: Seq<Domain>,
    k: int,
) -> bool {
    &&& 0 <= k <= blanks.len()
    &&& forall|m: int| k < m < blanks.len() ==> board[#[trigger] blanks[m] as int] == 0
    &&& forall|m: int| k < m < blanks.len() ==> dom[#[trigger] blanks[m] as int] == init[blanks[m] as int]
    &&& forall|m: int| 0 <= m < k ==> #[trigger] tried_below(board, dom, blanks, start, init, m)
    &&& k < blanks.len() ==> open_at(board, dom, blanks, start, init, k)
}

/// A value that a peer holds, given or among the earlier blanks, is no
/// value of a completion that agrees on those blanks.
proof fn lemma_not_free_blocks(board: Seq<u32>, b: Seq<u32>, blanks: Seq<usize>, start: Seq<u32>, init: Seq<Domain>, k: int, w: u32)
    requires
        board.len() == 81,
        completion(b, start, blanks, init),
        0 <= k < blanks.len(),
        forall|j: int| 0 <= j < blanks.len() ==> #[trigger] blanks[j] < 81,
        forall|j: int, l: int| 0 <= j < l < blanks.len() ==> blanks[j] != blanks[l],
        agrees(b, board, blanks, k),
        forall|m: int| k < m < blanks.len() ==> board[#[trigger] blanks[m] as int] == 0,
        forall|i: int| 0 <= i < 81 && !blanks.contains(i as usize) ==> #[trigger] board[i] == start[i],
        w != 0,
        !free_of(board, blanks[k] as int, w),
    ensures
        b[blanks[k] as int] != w,
{
    let x = blanks[k] as int;
    let y = choose|y: int| 0 <= y < 81 && peers(x, y) && board[y] == w;
    if blanks.contains(y as usize) {
        let j = choose|j: int| 0 <= j < blanks.len() && blanks[j] == y as usize;
        if j > k {
            assert(board[blanks[j] as int] == 0);
        } else if j < k {
            assert(b[blanks[j] as int] == board[blanks[j] as int]);
        }
    } else {
        assert(b[y] == start[y]);
    }
    if b[x] == w {
        assert(b[x] != b[y]);
    }
}

/// Giving the next blank in order a value, after the candidates drawn before
/// it were found taken by peers, keeps the in-order search state.
proof fn lemma_in_order_take(
    board: Seq<u32>,
    dom: Seq<Domain>,
    blanks: Seq<usize>,
    start: Seq<u32>,
    init: Seq<Domain>,
    k: int,
    v: u32,
    d: Domain,
)
    requires
        board.len() == 81,
        dom.len() == 81,
        forall|j: int| 0 <= j < blanks.len() ==> #[trigger] blanks[j] < 81,
        forall|j: int, l: int| 0 <= j < l < blanks.len() ==> blanks[j] != blanks[l],
        forall|i: int| 0 <= i < 81 && !blanks.contains(i as usize) ==> #[trigger] board[i] == start[i],
        in_order_search(board, dom, blanks, start, init, k),
        k < blanks.len(),
        v != 0,
        dom[blanks[k] as int]@.contains(v),
        d@.subset_of(dom[blanks[k] as int]@),
        forall|w: u32|
            dom[blanks[k] as int]@.contains(w) && !d@.contains(w) && w != v ==> !free_of(
                board,
                blanks[k] as int,
                w,
            ),
    ensures
        in_order_search(
            board.update(blanks[k] as int, v),
            dom.update(blanks[k] as int, d),
            blanks,
            start,
            init,
            k + 1,
        ),
{
    let n = blanks.len() as int;
    let x = blanks[k] as int;
    let b2 = board.update(x, v);
    let d2 = dom.update(x, d);
    assert forall|m: int| k + 1 < m < n implies b2[#[trigger] blanks[m] as int] == 0 by {
        assert(blanks[k] != blanks[m]);
    }
    assert forall|m: int| k + 1 < m < n implies d2[#[trigger] blanks[m] as int] == init[blanks[m] as int] by {
        assert(blanks[k] != blanks[m]);
    }
    assert forall|m: int| 0 <= m < k + 1 implies #[trigger] tried_below(b2, d2, blanks, start, init, m) by {
        assert forall|b: Seq<u32>|
            #[trigger] completion(b, start, blanks, init) && agrees(b, b2, blanks, m) implies d2[blanks[m] as int]@.contains(
                b[blanks[m] as int]) || b[blanks[m] as int] == b2[blanks[m] as int] by {
            assert forall|j: int| 0 <= j < m implies b[#[trigger] blanks[j] as int] == board[blanks[j] as int] by {
                assert(blanks[j] != blanks[k]);
                assert(b[blanks[j] as int] == b2[blanks[j] as int]);
            }
            if m < k {
                assert(blanks[m] != blanks[k]);
                assert(tried_below(board, dom, blanks, start, init, m));
            } else {
                assert(open_at(board, dom, blanks, start, init, k));
                let w = b[x];
                if w != v && !d@.contains(w) {
                    assert(!free_of(board, x, w));
                    lemma_not_free_blocks(board, b, blanks, start, init, k, w);
                }
            }
        }
    }
    if k + 1 < n {
        assert(open_at(b2, d2, blanks, start, init, k + 1)) by {
            assert forall|b: Seq<u32>|
                #[trigger] completion(b, start, blanks, init) && agrees(b, b2, blanks, k + 1) implies d2[blanks[k + 1] as int]@.contains(
                    b[blanks[k + 1] as int]) by {
                assert(blanks.contains(blanks[k + 1]));
                assert(d2[blanks[k + 1] as int] == init[blanks[k + 1] as int]);
            }
        }
    }
}

/// When no candidate of the next blank in order is free, no completion
/// agrees on the blanks before it; clearing it and stepping back keeps the
/// in-order search state.
proof fn lemma_in_order_back(
    board: Seq<u32>,
    dom: Seq<Domain>,
    blanks: Seq<usize>,
    start: Seq<u32>,
    init: Seq<Domain>,
    k: int,
)
    requires
        board.len() == 81,
        dom.len() == 81,
        init.len() == 81,
        forall|j: int| 0 <= j < blanks.len() ==> #[trigger] blanks[j] < 81,
        forall|j: int, l: int| 0 <= j < l < blanks.len() ==> blanks[j] != blanks[l],
        forall|i: int| 0 <= i < 81 && !blanks.contains(i as usize) ==> #[trigger] board[i] == start[i],
        in_order_search(board, dom, blanks, start, init, k),
        k < blanks.len(),
        forall|w: u32| dom[blanks[k] as int]@.contains(w) ==> !free_of(board, blanks[k] as int, w),
    ensures
        forall|b: Seq<u32>| !(#[trigger] completion(b, start, blanks, init) && agrees(b, board, blanks, k)),
        k == 0 ==> forall|b: Seq<u32>| !#[trigger] completion(b, start, blanks, init),
        k > 0 ==> in_order_search(
            board.update(blanks[k] as int, 0),
            dom.update(blanks[k] as int, init[blanks[k] as int]),
            blanks,
            start,
            init,
            k - 1,
        ),
{
    let n = blanks.len() as int;
    let x = blanks[k] as int;
    assert forall|b: Seq<u32>| !(#[trigger] completion(b, start, blanks, init) && agrees(b, board, blanks, k)) by {
        if completion(b, start, blanks, init) && agrees(b, board, blanks, k) {
            assert(open_at(board, dom, blanks, start, init, k));
            let w = b[x];
            assert(w != 0);
            lemma_not_free_blocks(board, b, blanks, start, init, k, w);
        }
    }
    if k == 0 {
        assert forall|b: Seq<u32>| !#[trigger] completion(b, start, blanks, init) by {
            assert(agrees(b, board, blanks, 0));
        }
    }
    if k > 0 {
        let b2 = board.update(x, 0);
        let d2 = dom.update(x, init[x]);
        assert forall|m: int| k - 1 < m < n implies b2[#[trigger] blanks[m] as int] == 0 by {
            if m > k {
                assert(blanks[k] != blanks[m]);
            }
        }
        assert forall|m: int| k - 1 < m < n implies d2[#[trigger] blanks[m] as int] == init[blanks[m] as int] by {
            if m > k {
                assert(blanks[k] != blanks[m]);
            }
        }
        assert forall|m: int| 0 <= m < k - 1 implies #[trigger] tried_below(b2, d2, blanks, start, init, m) by {
            assert(blanks[m] != blanks[k]);
            assert(tried_below(board, dom, blanks, start, init, m));
            assert forall|b: Seq<u32>|
                #[trigger] completion(b, start, blanks, init) && agrees(b, b2, blanks, m) implies d2[blanks[m] as int]@.contains(
                    b[blanks[m] as int]) || b[blanks[m] as int] == b2[blanks[m] as int] by {
                assert forall|j: int| 0 <= j < m implies b[#[trigger] blanks[j] as int] == board[blanks[j] as int] by {
                    assert(blanks[j] != blanks[k]);
                    assert(b[blanks[j] as int] == b2[blanks[j] as int]);
                }
            }
        }
        assert(open_at(b2, d2, blanks, start, init, k - 1)) by {
            assert(blanks[k - 1] != blanks[k]);
            assert(tried_below(board, dom, blanks, start, init, k - 1));
            assert forall|b: Seq<u32>|
                #[trigger] completion(b, start, blanks, init) && agrees(b, b2, blanks, k - 1) implies d2[blanks[k - 1] as int]@.contains(
                    b[blanks[k - 1] as int]) by {
                assert forall|j: int| 0 <= j < k - 1 implies b[#[trigger] blanks[j] as int] == board[blanks[j] as int] by {
                    assert(blanks[j] != blanks[k]);
                    assert(b[blanks[j] as int] == b2[blanks[j] as int]);
                }
                if b[blanks[k - 1] as int] == board[blanks[k - 1] as int] {
                    assert(agrees(b, board, blanks, k));
                }
            }
        }
    }
}

/// The scheduler's list and stack when it takes the blanks in ascending
/// order (`greedy`) or in descending order, and `taken.len()` are taken.
pub open spec fn sched_shape(blanks: Seq<usize>, greedy: bool, slots: Seq<usize>, taken: Seq<(usize, usize)>) -> bool {
    let k = taken.len() as int;
    let n = blanks.len() as int;
    &&& k <= n
    &&& greedy ==> slots == blanks.subrange(k, n)
    &&& greedy ==> forall|j: int| 0 <= j < k ==> #[trigger] taken[j] == (0usize, blanks[j])
    &&& !greedy ==> slots == blanks.subrange(0, n - k)
    &&& !greedy ==> forall|j: int| 0 <= j < k ==> #[trigger] taken[j] == ((n - 1 - j) as usize, blanks[n - 1 - j])
}

/// Taking the first (`greedy`) or the last cell of the list keeps the shape.
proof fn lemma_shape_take(blanks: Seq<usize>, greedy: bool, s0: Seq<usize>, t0: Seq<(usize, usize)>, p: int, s1: Seq<usize>, t1: Seq<(usize, usize)>)
    requires
        sched_shape(blanks, greedy, s0, t0),
        t0.len() < blanks.len(),
        blanks.len() <= usize::MAX,
        greedy ==> p == 0,
        !greedy ==> p == s0.len() - 1,
        0 <= p < s0.len(),
        s1 == s0.remove(p),
        t1 == t0.push((p as usize, s0[p])),
    ensures
        sched_shape(blanks, greedy, s1, t1),
        s0[p] == (if greedy { blanks[t0.len() as int] } else { blanks[blanks.len() - 1 - t0.len()] }),
{
    let k = t0.len() as int;
    let n = blanks.len() as int;
    if greedy {
        assert(s1 =~= blanks.subrange(k + 1, n));
    } else {
        assert(s1 =~= blanks.subrange(0, n - k - 1));
    }
    assert forall|j: int| 0 <= j < k + 1 implies #[trigger] t1[j] == (if greedy { (0usize, blanks[j]) } else { ((n - 1 - j) as usize, blanks[n - 1 - j]) }) by {
        if j < k {
            assert(t1[j] == t0[j]);
        }
    }
}

/// Stepping back puts the last two taken cells back in place.
proof fn lemma_shape_back(blanks: Seq<usize>, greedy: bool, s1: Seq<usize>, t1: Seq<(usize, usize)>, s2: Seq<usize>, t2: Seq<(usize, usize)>)
    requires
        sched_shape(blanks, greedy, s1, t1),
        t1.len() >= 2,
        blanks.len() <= usize::MAX,
        s2 == s1.insert(t1[t1.len() - 1].0 as int, t1[t1.len() - 1].1).insert(
            t1[t1.len() - 2].0 as int,
            t1[t1.len() - 2].1,
        ),
        t2 == t1.subrange(0, t1.len() - 2),
    ensures
        sched_shape(blanks, greedy, s2, t2),
{
    let k = t1.len() as int;
    let n = blanks.len() as int;
    assert(t1[k - 1] == (if greedy { (0usize, blanks[k - 1]) } else { ((n - k) as usize, blanks[n - k]) }));
    assert(t1[k - 2] == (if greedy { (0usize, blanks[k - 2]) } else { ((n - k + 1) as usize, blanks[n - k + 1]) }));
    if greedy {
        let s3 = s1.insert(0, blanks[k - 1]);
        assert(s3 =~= blanks.subrange(k - 1, n));
        assert(s3.insert(0, blanks[k - 2]) =~= blanks.subrange(k - 2, n));
        assert(s2 == s3.insert(0, blanks[k - 2]));
        assert forall|j: int| 0 <= j < k - 2 implies #[trigger] t2[j] == (0usize, blanks[j]) by {
            assert(t2[j] == t1[j]);
        }
    } else {
        assert(t1[k - 1].0 as int == n - k);
        assert(t1[k - 2].0 as int == n - k + 1);
        assert(t1[k - 1].1 == blanks[n - k]);
        assert(t1[k - 2].1 == blanks[n - k + 1]);
        let s3 = s1.insert(n - k, blanks[n - k]);
        assert(s3 =~= blanks.subrange(0, n - k + 1));
        assert(s3.insert(n - k + 1, blanks[n - k + 1]) =~= blanks.subrange(0, n - k + 2));
        assert(s2 == s3.insert(n - k + 1, blanks[n - k + 1]));
        assert forall|j: int| 0 <= j < k - 2 implies #[trigger] t2[j] == ((n - 1 - j) as usize, blanks[n - 1 - j]) by {
            assert(t2[j] == t1[j]);
        }
    }
}

/// Why a grid could not be built.
#[derive(Debug, Clone, Copy, PartialEq, Eq, Structural)]
pub enum ParseError {
    /// The input does not hold exactly 81 cells.
    WrongLength,
    /// A cell holds a value above 9.
    ValueOutOfRange,
    /// Two given cells of one row, column or block hold the same value.
    ConflictingGivens,
    /// The text holds a character that is no decimal digit.
    InvalidCharacter,
}

/// The outcome of a search.
#[derive(Debug, Clone, Copy, PartialEq, Eq, Structural)]
pub enum Outcome {
    Solved,
    Unsolved,
}

/// A 9×9 grid: its values (0 for blank), each cell's candidates, the blank
/// cells of the puzzle, and the row, column and block topology.
#[derive(Debug, Clone)]
pub struct Sudoku {
    board: Vec<u32>,
    domains: Vec<Domain>,
    empty_slots: Vec<usize>,
    board_coords: Vec<(usize, usize)>,
    board_rows: Vec<Vec<usize>>,
    board_cols: Vec<Vec<usize>>,
    board_squares: Vec<Vec<usize>>,
    domain_size: usize,
    domain: Domain,
}

impl Sudoku {
    /// The values of the cells, row by row.
    pub closed spec fn cells(&self) -> Seq<u32> {
        self.board@
    }

    /// The candidate set of each cell.
    pub closed spec fn domains_view(&self) -> Seq<Domain> {
        self.domains@
    }

    /// The cells that were blank in the puzzle, in ascending order.
    pub closed spec fn blanks(&self) -> Seq<usize> {
        self.empty_slots@
    }

    /// The shape of the grid: sizes, topology, and values and candidates in range.
    pub closed spec fn wf(&self) -> bool {
        &&& self.board@.len() == 81
        &&& self.domains@.len() == 81
        &&& self.domain_size == 9
        &&& forall|i: int| 0 <= i < 81 ==> #[trigger] self.board@[i] <= 9
        &&& forall|i: int, v: u32|
            0 <= i < 81 && #[trigger] self.domains@[i]@.contains(v) ==> 1 <= v <= 9
        &&& forall|v: u32| self.domain@.contains(v) ==> 1 <= v <= 9
        &&& self.board_coords@.len() == 81
        &&& forall|i: int|
            0 <= i < 81 ==> #[trigger] self.board_coords@[i] == ((i / 9) as usize, (i
                % 9) as usize)
        &&& self.board_rows@.len() == 9
        &&& self.board_cols@.len() == 9
        &&& self.board_squares@.len() == 9
        &&& forall|u: int| 0 <= u < 9 ==> #[trigger] self.board_rows@[u]@ == row_cells(u)
        &&& forall|u: int| 0 <= u < 9 ==> #[trigger] self.board_cols@[u]@ == col_cells(u)
        &&& forall|u: int| 0 <= u < 9 ==> #[trigger] self.board_squares@[u]@ == block_cells(u)
        &&& forall|k: int| 0 <= k < self.empty_slots@.len() ==> #[trigger] self.empty_slots@[k] < 81
        &&& forall|k: int, l: int|
            0 <= k < l < self.empty_slots@.len() ==> self.empty_slots@[k] < self.empty_slots@[l]
    }

    /// What the shape of a grid tells of its views.
    pub proof fn lemma_shape(&self)
        requires
            self.wf(),
        ensures
            self.cells().len() == 81,
            self.domains_view().len() == 81,
            forall|i: int| 0 <= i < 81 ==> #[trigger] self.cells()[i] <= 9,
            forall|i: int, v: u32|
                0 <= i < 81 && #[trigger] self.domains_view()[i]@.contains(v) ==> 1 <= v <= 9,
            forall|k: int| 0 <= k < self.blanks().len() ==> #[trigger] self.blanks()[k] < 81,
    {
    }

    /// Every cell that was not blank in the puzzle holds a value.
    pub open spec fn givens_filled(&self) -> bool {
        forall|i: int| 0 <= i < 81 && !self.blanks().contains(i as usize) ==> #[trigger] self.cells()[i] != 0
    }

    /// Given coordinates, the index of the cell.
    pub fn index(row: usize, col: usize) -> (r: usize)
        requires
            row < 9,
            col < 9,
        ensures
            r == row * 9 + col,
            r < 81,
    {
        row * 9 + col
    }

    /// Given coordinates, the block of the cell.
    pub fn square(row: usize, col: usize) -> (r: usize)
        requires
            row < 9,
            col < 9,
        ensures
            r == block_of(row * 9 + col),
            r < 9,
    {
        let r = row / 3;
        let c = col / 3;
        r * 3 + c
    }

    /// Given coordinates, the position of the cell inside its block.
    pub fn index_in_block(row: usize, col: usize) -> (r: usize)
        requires
            row < 9,
            col < 9,
        ensures
            r == (row % 3) * 3 + col % 3,
            r < 9,
            block_cells(block_of(row * 9 + col))[r as int] == row * 9 + col,
    {
        proof {
            lemma_coords(row as int, col as int);
            let b = (row / 3) * 3 + col / 3;
            let k = (row % 3) * 3 + col % 3;
            lemma_fundamental_div_mod_converse(b as int, 3, (row / 3) as int, (col / 3) as int);
            lemma_fundamental_div_mod_converse(k as int, 3, (row % 3) as int, (col % 3) as int);
            lemma_fundamental_div_mod_converse(row as int, 3, (row / 3) as int, (row % 3) as int);
            lemma_fundamental_div_mod_converse(col as int, 3, (col / 3) as int, (col % 3) as int);
        }
        let r = row % 3;
        let c = col % 3;
        r * 3 + c
    }

    /// Whether no cell of `unit` but `index` holds `value`.
    fn unit_free(&self, unit: &Vec<usize>, index: usize, value: u32) -> (r: bool)
        requires
            self.wf(),
            unit@.len() == 9,
            forall|j: int| 0 <= j < 9 ==> #[trigger] unit@[j] < 81,
        ensures
            r == forall|j: int|
                0 <= j < 9 ==> #[trigger] unit@[j] == index || self.cells()[unit@[j] as int]
                    != value,
    {
        let mut k: usize = 0;
        while k < 9
            invariant
                self.wf(),
                unit@.len() == 9,
                forall|j: int| 0 <= j < 9 ==> #[trigger] unit@[j] < 81,
                k <= 9,
                forall|j: int|
                    0 <= j < k ==> #[trigger] unit@[j] == index || self.board@[unit@[j] as int]
                        != value,
            decreases 9 - k,
        {
            let i = unit[k];
            if i != index && value == self.board[i] {
                return false;
            }
            k = k + 1;
        }
        true
    }

    /// Whether `value` can stand at (`row`, `col`): no other cell of its row,
    /// column or block holds it.
    pub fn is_valid(&self, row: usize, col: usize, value: u32) -> (r: bool)
        requires
            self.wf(),
            row < 9,
            col < 9,
        ensures
            r == free_of(self.cells(), row * 9 + col, value),
    {
        let index = Self::index(row, col);
        let square = Self::square(row, col);
        proof {
            lemma_units_in_range(row as int, col as int, square as int);
        }
        let ok_row = self.unit_free(&self.board_rows[row], index, value);
        let ok_col = self.unit_free(&self.board_cols[col], index, value);
        let ok_square = self.unit_free(&self.board_squares[square], index, value);
        proof {
            assert(self.board_rows@[row as int]@ == row_cells(row as int));
            assert(self.board_cols@[col as int]@ == col_cells(col as int));
            assert(self.board_squares@[square as int]@ == block_cells(square as int));
            lemma_free_of_units(
                self.cells(),
                row as int,
                col as int,
                value,
                ok_row && ok_col && ok_square,
            );
        }
        ok_row && ok_col && ok_square
    }

    /// Builds a grid from the 81 cell values, row by row (0 for blank).
    /// Every cell starts with an empty candidate set; see `apply_domain`.
    pub fn from_values(values: Vec<u32>) -> (r: Result<Sudoku, ParseError>)
        ensures
            builds(values@, r),
    {
        if values.len() != 81 {
            return Err(ParseError::WrongLength);
        }
        let mut empty_slots: Vec<usize> = Vec::new();
        let mut domains: Vec<Domain> = Vec::new();
        let mut board_coords: Vec<(usize, usize)> = Vec::new();
        let mut i: usize = 0;
        while i < 81
            invariant
                values@.len() == 81,
                i <= 81,
                forall|k: int| 0 <= k < i ==> #[trigger] values@[k] <= 9,
                domains@.len() == i,
                forall|k: int| 0 <= k < i ==> (#[trigger] domains@[k])@ == Set::<u32>::empty(),
                board_coords@.len() == i,
                forall|k: int|
                    0 <= k < i ==> #[trigger] board_coords@[k] == ((k / 9) as usize, (k
                        % 9) as usize),
                forall|k: int| 0 <= k < empty_slots@.len() ==> #[trigger] empty_slots@[k] < i,
                forall|k: int, l: int|
                    0 <= k < l < empty_slots@.len() ==> empty_slots@[k] < empty_slots@[l],
                forall|k: int| 0 <= k < i ==> (empty_slots@.contains(k as usize) <==> #[trigger] values@[k] == 0),
            decreases 81 - i,
        {
            if values[i] > 9 {
                return Err(ParseError::ValueOutOfRange);
            }
            let ghost old_es = empty_slots@;
            if values[i] == 0 {
                empty_slots.push(i);
            }
            proof {
                assert forall|k: int| 0 <= k <= i implies (empty_slots@.contains(k as usize) <==> #[trigger] values@[k] == 0) by {
                    if values@[i as int] == 0 {
                        assert(empty_slots@ == old_es.push(i));
                        if old_es.contains(k as usize) {
                            let m = choose|m: int| 0 <= m < old_es.len() && old_es[m] == k as usize;
                            assert(empty_slots@[m] == k as usize);
                        }
                        if empty_slots@.contains(k as usize) && k < i {
                            let m = choose|m: int| 0 <= m < empty_slots@.len() && empty_slots@[m] == k as usize;
                            assert(m < old_es.len());
                            assert(old_es[m] == k as usize);
                        }
                        if k == i {
                            assert(empty_slots@[old_es.len() as int] == i);
                        }
                    } else {
                        if k == i && empty_slots@.contains(k as usize) {
                            let m = choose|m: int| 0 <= m < empty_slots@.len() && empty_slots@[m] == k as usize;
                        }
                    }
                }
            }
            domains.push(BitSet::new());
            board_coords.push((i / 9, i % 9));
            i = i + 1;
        }
        let ghost vals = values@;
        let grid = Sudoku {
            board: values,
            domains,
            empty_slots,
            board_coords,
            board_rows: build_rows(),
            board_cols: build_cols(),
            board_squares: build_blocks(),
            domain_size: 9,
            domain: BitSet::new(),
        };
        let mut i: usize = 0;
        while i < 81
            invariant
                grid.wf(),
                grid.cells() == vals,
                vals == values@,
                vals.len() == 81,
                forall|k: int| 0 <= k < 81 ==> #[trigger] vals[k] <= 9,
                i <= 81,
                forall|k: int| 0 <= k < i && grid.cells()[k] != 0 ==> free_of(grid.cells(), k, #[trigger] grid.cells()[k]),
            decreases 81 - i,
        {
            let v = grid.board[i];
            proof {
                lemma_coords((i / 9) as int, (i % 9) as int);
            }
            if v != 0 && !grid.is_valid(i / 9, i % 9, v) {
                proof {
                    let b = grid.cells();
                    let j = choose|j: int| 0 <= j < 81 && peers(i as int, j) && b[j] == v;
                    assert(peers(i as int, j) && b[i as int] != 0 && b[i as int] == b[j]);
                }
                return Err(ParseError::ConflictingGivens);
            }
            i = i + 1;
        }
        proof {
            let b = grid.cells();
            assert forall|k: int, j: int| 0 <= k < 81 && 0 <= j < 81 && peers(k, j) && b[k] != 0 implies b[k] != b[j] by {
                assert(free_of(b, k, b[k]));
            }
        }
        Ok(grid)
    }

    /// Builds a grid from text with one decimal digit per character, row by
    /// row, `'0'` for a blank. Any other character is refused.
    pub fn from_flattened(s: &str) -> (r: Result<Sudoku, ParseError>)
        ensures
            (exists|i: int| 0 <= i < s@.len() && !is_digit_char(#[trigger] s@[i])) ==> r
                == Err::<Sudoku, ParseError>(ParseError::InvalidCharacter),
            (forall|i: int| 0 <= i < s@.len() ==> is_digit_char(#[trigger] s@[i])) ==> builds(
                char_digits(s@),
                r,
            ),
    {
        broadcast use vstd::string::is_ascii_spec_bytes;

        if !s.is_ascii() {
            proof {
                let i = choose|i: int| 0 <= i < s@.len() && !('\0' <= #[trigger] s@[i] <= '\u{7f}');
                assert(!is_digit_char(s@[i]));
            }
            return Err(ParseError::InvalidCharacter);
        }
        let bytes = s.as_bytes();
        let mut values: Vec<u32> = Vec::new();
        let mut i: usize = 0;
        while i < bytes.len()
            invariant
                is_ascii(s),
                bytes@ == s.spec_bytes(),
                bytes@.len() == s@.len(),
                forall|k: int| 0 <= k < s@.len() ==> #[trigger] bytes@[k] == s@[k] as u8,
                i <= bytes@.len(),
                forall|k: int| 0 <= k < i ==> is_digit_char(#[trigger] s@[k]),
                values@ =~= char_digits(s@.take(i as int)),
            decreases bytes@.len() - i,
        {
            let c = bytes[i];
            proof {
                assert('\0' <= s@[i as int] <= '\u{7f}');
            }
            if c < 48 || c > 57 {
                return Err(ParseError::InvalidCharacter);
            }
            values.push((c - 48) as u32);
            proof {
                assert(char_digits(s@.take(i + 1)) =~= char_digits(s@.take(i as int)).push((c - 48) as u32));
            }
            i = i + 1;
        }
        proof {
            assert(s@.take(s@.len() as int) =~= s@);
        }
        Self::from_values(values)
    }

    /// The candidate set of (`row`, `col`).
    pub fn get_domain(&self, row: usize, col: usize) -> (r: BitSet)
        requires
            self.wf(),
            row < 9,
            col < 9,
        ensures
            r == self.domains_view()[row * 9 + col],
    {
        let index = Self::index(row, col);
        self.domains[index]
    }

    /// Replaces the candidate set of (`row`, `col`) by a subset of `1..=9`.
    pub fn set_domain(&mut self, row: usize, col: usize, domain: BitSet)
        requires
            old(self).wf(),
            row < 9,
            col < 9,
            forall|v: u32| domain@.contains(v) ==> 1 <= v <= 9,
        ensures
            final(self).wf(),
            final(self).cells() == old(self).cells(),
            final(self).blanks() == old(self).blanks(),
            final(self).domains_view() == old(self).domains_view().update(row * 9 + col, domain),
    {
        let index = Self::index(row, col);
        self.domains.set(index, domain);
    }

    /// Writes `value` at (`row`, `col`); 0 clears the cell.
    pub fn set_number(&mut self, row: usize, col: usize, value: u32) -> (r: bool)
        requires
            old(self).wf(),
            row < 9,
            col < 9,
            value <= 9,
        ensures
            r,
            final(self).wf(),
            final(self).cells() == old(self).cells().update(row * 9 + col, value),
            final(self).blanks() == old(self).blanks(),
            final(self).domains_view() == old(self).domains_view(),
    {
        let index = Self::index(row, col);
        self.board.set(index, value);
        true
    }

    /// Removes from `d` every nonzero value that a cell of `unit` holds.
    fn remove_unit_values(&self, d: &mut Domain, unit: &Vec<usize>)
        requires
            self.wf(),
            unit@.len() == 9,
            forall|j: int| 0 <= j < 9 ==> #[trigger] unit@[j] < 81,
        ensures
            forall|v: u32|
                final(d)@.contains(v) <==> old(d)@.contains(v) && (v == 0 || forall|j: int|
                    0 <= j < 9 ==> self.cells()[#[trigger] unit@[j] as int] != v),
    {
        let mut k: usize = 0;
        while k < 9
            invariant
                self.wf(),
                unit@.len() == 9,
                forall|j: int| 0 <= j < 9 ==> #[trigger] unit@[j] < 81,
                k <= 9,
                forall|v: u32|
                    d@.contains(v) <==> old(d)@.contains(v) && (v == 0 || forall|j: int|
                        0 <= j < k ==> self.board@[#[trigger] unit@[j] as int] != v),
            decreases 9 - k,
        {
            let v = self.board[unit[k]];
            if v != 0 {
                d.remove(v);
            }
            proof {
                assert forall|w: u32|
                    d@.contains(w) <==> old(d)@.contains(w) && (w == 0 || forall|j: int|
                        0 <= j < k + 1 ==> self.board@[#[trigger] unit@[j] as int] != w) by {
                    if old(d)@.contains(w) && w != 0 && !(forall|j: int|
                        0 <= j < k + 1 ==> self.board@[#[trigger] unit@[j] as int] != w) {
                        let j = choose|j: int| 0 <= j < k + 1 && self.board@[#[trigger] unit@[j] as int] == w;
                        if j < k {
                        }
                    }
                }
            }
            k = k + 1;
        }
    }

    /// The values of `domain` that are free at cell `idx`, a blank cell.
    #[verifier::rlimit(60)]
    fn find_domain(&self, idx: usize) -> (r: Domain)
        requires
            self.wf(),
            idx < 81,
        ensures
            forall|v: u32|
                r@.contains(v) <==> candidates(self.cells(), idx as int, self.domain@).contains(v)
                    && v != self.cells()[idx as int],
            self.cells()[idx as int] == 0 ==> r@ == candidates(self.cells(), idx as int, self.domain@),
    {
        let mut domain = self.domain;
        let (row, col) = self.board_coords[idx];
        let square = Self::square(row, col);
        proof {
            lemma_coords(row as int, col as int);
            lemma_units_in_range(row as int, col as int, square as int);
            assert(self.board_rows@[row as int]@ == row_cells(row as int));
            assert(self.board_cols@[col as int]@ == col_cells(col as int));
            assert(self.board_squares@[square as int]@ == block_cells(square as int));
        }
        let ghost d0 = domain@;
        self.remove_unit_values(&mut domain, &self.board_rows[row]);
        let ghost d1 = domain@;
        self.remove_unit_values(&mut domain, &self.board_cols[col]);
        let ghost d2 = domain@;
        self.remove_unit_values(&mut domain, &self.board_squares[square]);
        proof {
            let b = self.cells();
            let k = ((row % 3) * 3 + col % 3) as int;
            assert(block_cells(square as int)[k] == idx) by {
                assert(block_cells(block_of(row * 9 + col))[k] == row * 9 + col) by {
                    lemma_coords(row as int, col as int);
                    lemma_fundamental_div_mod_converse(((row / 3) * 3 + col / 3) as int, 3, (row / 3) as int, (col / 3) as int);
                    lemma_fundamental_div_mod_converse(k, 3, (row % 3) as int, (col % 3) as int);
                    lemma_fundamental_div_mod_converse(row as int, 3, (row / 3) as int, (row % 3) as int);
                    lemma_fundamental_div_mod_converse(col as int, 3, (col / 3) as int, (col % 3) as int);
                }
            }
            assert(row_cells(row as int)[col as int] == idx);
            assert(col_cells(col as int)[row as int] == idx);
            assert forall|v: u32| domain@.contains(v) <==> candidates(b, idx as int, self.domain@).contains(v) && v != b[idx as int] by {
                let free = (forall|j: int|
                    0 <= j < 9 ==> #[trigger] row_cells(row as int)[j] == row * 9 + col || b[row_cells(row as int)[j] as int]
                        != v) && (forall|j: int|
                    0 <= j < 9 ==> #[trigger] col_cells(col as int)[j] == row * 9 + col || b[col_cells(col as int)[j] as int]
                        != v) && (forall|j: int|
                    0 <= j < 9 ==> #[trigger] block_cells(block_of(row * 9 + col))[j] == row * 9 + col
                        || b[block_cells(block_of(row * 9 + col))[j] as int] != v);
                lemma_free_of_units(b, row as int, col as int, v, free);
            }
            if b[idx as int] == 0 {
                assert(domain@ =~= candidates(b, idx as int, self.domain@));
            }
        }
        domain
    }

    /// Takes `domain` as the full candidate set, and gives each cell its
    /// candidates: its own value for a filled cell, and for a blank cell the
    /// values of `domain` that no other cell of its row, column or block holds.
    pub fn apply_domain(&mut self, domain: Domain)
        requires
            old(self).wf(),
            forall|v: u32| domain@.contains(v) ==> 1 <= v <= 9,
        ensures
            final(self).wf(),
            final(self).cells() == old(self).cells(),
            final(self).blanks() == old(self).blanks(),
            forall|i: int|
                0 <= i < 81 ==> (#[trigger] final(self).domains_view()[i])@ == (if old(self).cells()[i] != 0 {
                    Set::<u32>::empty().insert(old(self).cells()[i])
                } else {
                    candidates(old(self).cells(), i, domain@)
                }),
            consistent(old(self).cells()) ==> propagated(final(self).cells(), final(self).domains_view()),
    {
        self.domain = domain;
        let mut domains: Vec<Domain> = Vec::new();
        let mut i: usize = 0;
        while i < 81
            invariant
                self.wf(),
                self.cells() == old(self).cells(),
                self.blanks() == old(self).blanks(),
                self.domain == domain,
                i <= 81,
                domains@.len() == i,
                forall|k: int|
                    0 <= k < i ==> (#[trigger] domains@[k])@ == (if self.cells()[k] != 0 {
                        Set::<u32>::empty().insert(self.cells()[k])
                    } else {
                        candidates(self.cells(), k, domain@)
                    }),
            decreases 81 - i,
        {
            let value = self.board[i];
            if value != 0 {
                let mut d = Domain::new();
                d.insert(value);
                domains.push(d);
            } else {
                let d = self.find_domain(i);
                domains.push(d);
            }
            i = i + 1;
        }
        self.domains = domains;
        proof {
            let b = self.cells();
            let d = self.domains@;
            if consistent(b) {
                assert forall|x: int| 0 <= x < 81 && b[x] != 0 implies (#[trigger] d[x])@.contains(b[x]) by {
                    assert(d[x]@ == Set::<u32>::empty().insert(b[x]));
                }
                assert forall|x: int, y: int|
                    0 <= x < 81 && 0 <= y < 81 && peers(x, y) && b[y] != 0 implies !(#[trigger] d[x])@.contains(
                        #[trigger] b[y]) by {
                    if b[x] != 0 {
                        assert(d[x]@ == Set::<u32>::empty().insert(b[x]));
                        assert(peers(y, x));
                    } else {
                        assert(!free_of(b, x, b[y]));
                    }
                }
            }
        }
    }

    /// Draws candidates of (`row`, `col`) by `heuristic` until one is free at
    /// that cell. On success the drawn values leave the cell's candidate set
    /// and the free one is returned; the grid's values are not changed. `None`
    /// when no candidate is free, with the candidate set left as it was.
    pub fn find_solution(&mut self, row: usize, col: usize, heuristic: &Heuristic) -> (r: Option<u32>)
        requires
            old(self).wf(),
            row < 9,
            col < 9,
        ensures
            final(self).wf(),
            final(self).cells() == old(self).cells(),
            final(self).blanks() == old(self).blanks(),
            forall|i: int|
                0 <= i < 81 && i != row * 9 + col ==> #[trigger] final(self).domains_view()[i]
                    == old(self).domains_view()[i],
            r is None ==> final(self).domains_view() == old(self).domains_view(),
            ({
                let before = old(self).domains_view()[row * 9 + col]@;
                let after = final(self).domains_view()[row * 9 + col]@;
                let b = old(self).cells();
                let i = row * 9 + col;
                match r {
                    Some(v) => {
                        &&& before.contains(v)
                        &&& 1 <= v <= 9
                        &&& free_of(b, i, v)
                        &&& after.subset_of(before.remove(v))
                        &&& forall|w: u32| before.contains(w) && !after.contains(w) && w != v ==> !free_of(b, i, w)
                        &&& ascending(*heuristic) ==> after == before.filter(|w: u32| w > v)
                        &&& ascending(*heuristic) ==> forall|w: u32| before.contains(w) && w < v ==> !free_of(b, i, w)
                        &&& *heuristic == Heuristic::Reverse ==> after == before.filter(|w: u32| w < v)
                        &&& *heuristic == Heuristic::Reverse ==> forall|w: u32| before.contains(w) && w > v ==> !free_of(b, i, w)
                    },
                    None => {
                        &&& after == before
                        &&& forall|w: u32| before.contains(w) ==> !free_of(b, i, w)
                    },
                }
            }),
    {
        let index = Self::index(row, col);
        let mut current_domain = self.get_domain(row, col);
        let ghost before = current_domain@;
        proof {
            current_domain.lemma_elems();
        }
        let mut value = current_domain.pick(heuristic);
        while value != 0
            invariant
                self.wf(),
                self == old(self),
                row < 9,
                col < 9,
                index == row * 9 + col,
                before == old(self).domains_view()[index as int]@,
                current_domain@.subset_of(before),
                current_domain@.finite(),
                current_domain@.len() == 0 ==> value == 0,
                current_domain@.len() > 0 ==> current_domain@.contains(value),
                forall|w: u32| before.contains(w) && !current_domain@.contains(w) ==> !free_of(self.cells(), index as int, w),
                ascending(*heuristic) ==> forall|w: u32, x: u32| before.contains(w) && !current_domain@.contains(w) && current_domain@.contains(x) ==> w < x,
                *heuristic == Heuristic::Reverse ==> forall|w: u32, x: u32| before.contains(w) && !current_domain@.contains(w) && current_domain@.contains(x) ==> w > x,
                ascending(*heuristic) && current_domain@.len() > 0 ==> forall|x: u32| current_domain@.contains(x) ==> value <= x,
                *heuristic == Heuristic::Reverse && current_domain@.len() > 0 ==> forall|x: u32| current_domain@.contains(x) ==> x <= value,
            decreases current_domain@.len(),
        {
            proof {
                assert(before.contains(value));
                assert(old(self).domains_view()[index as int]@.contains(value));
            }
            let ghost cur0 = current_domain@;
            current_domain.remove(value);
            if self.is_valid(row, col, value) {
                proof {
                    if ascending(*heuristic) {
                        assert(current_domain@ =~= before.filter(|w: u32| w > value));
                    }
                    if *heuristic == Heuristic::Reverse {
                        assert(current_domain@ =~= before.filter(|w: u32| w < value));
                    }
                }
                self.set_domain(row, col, current_domain);
                return Some(value);
            }
            proof {
                current_domain.lemma_elems();
            }
            value = current_domain.pick(heuristic);
        }
        proof {
            assert(current_domain@.len() == 0);
            assert(current_domain@ =~= Set::<u32>::empty());
            assert(self.domains_view()[index as int]@ =~= before);
        }
        None
    }

    /// A copy of the candidate sets.
    fn copy_domains(&self) -> (r: Vec<Domain>)
        ensures
            r@ == self.domains@,
    {
        let mut out: Vec<Domain> = Vec::new();
        let mut i: usize = 0;
        while i < self.domains.len()
            invariant
                i <= self.domains@.len(),
                out@ =~= self.domains@.take(i as int),
            decreases self.domains@.len() - i,
        {
            out.push(self.domains[i]);
            i = i + 1;
        }
        proof {
            assert(self.domains@.take(self.domains@.len() as int) =~= self.domains@);
        }
        out
    }

    /// A copy of the blank cells.
    fn copy_blanks(&self) -> (r: Vec<usize>)
        ensures
            r@ == self.empty_slots@,
    {
        let mut out: Vec<usize> = Vec::new();
        let mut i: usize = 0;
        while i < self.empty_slots.len()
            invariant
                i <= self.empty_slots@.len(),
                out@ =~= self.empty_slots@.take(i as int),
            decreases self.empty_slots@.len() - i,
        {
            out.push(self.empty_slots[i]);
            i = i + 1;
        }
        proof {
            assert(self.empty_slots@.take(self.empty_slots@.len() as int) =~= self.empty_slots@);
        }
        out
    }

    /// The blank list and its reverse are orders of the blank cells, with
    /// the same completions.
    proof fn lemma_order(&self, ord: Seq<usize>, greedy: bool)
        requires
            self.wf(),
            ord == if greedy { self.empty_slots@ } else { self.empty_slots@.reverse() },
        ensures
            ord.len() == self.empty_slots@.len(),
            forall|j: int| 0 <= j < ord.len() ==> #[trigger] ord[j] < 81,
            forall|j: int, l: int| 0 <= j < l < ord.len() ==> ord[j] != ord[l],
            forall|x: usize| ord.contains(x) <==> self.empty_slots@.contains(x),
            forall|b: Seq<u32>, st: Seq<u32>, init: Seq<Domain>|
                #[trigger] completion(b, st, ord, init) == completion(b, st, self.empty_slots@, init),
    {
        let e = self.empty_slots@;
        let n = e.len() as int;
        if !greedy {
            assert forall|j: int| 0 <= j < n implies #[trigger] ord[j] == e[n - 1 - j] by {}
            assert forall|j: int, l: int| 0 <= j < l < n implies ord[j] != ord[l] by {
                assert(e[n - 1 - l] < e[n - 1 - j]);
            }
            assert forall|x: usize| ord.contains(x) <==> e.contains(x) by {
                if ord.contains(x) {
                    let j = choose|j: int| 0 <= j < n && ord[j] == x;
                    assert(e[n - 1 - j] == x);
                }
                if e.contains(x) {
                    let j = choose|j: int| 0 <= j < n && e[j] == x;
                    assert(ord[n - 1 - j] == x);
                }
            }
        } else {
            assert forall|j: int, l: int| 0 <= j < l < n implies ord[j] != ord[l] by {
                assert(e[j] < e[l]);
            }
        }
    }

    /// Plain backtracking. The scheduler picks blank cells by
    /// `slot_heuristic`; each gets the first of its candidates, drawn by
    /// `value_heuristic`, that no peer holds. At a dead end (no candidate is
    /// free, or every cell left has no candidate) the cell is cleared, its
    /// candidates are restored, the counter goes up by one, and the scheduler
    /// steps back; when it cannot, the grid is unsolvable. Returns the outcome
    /// and the number of dead ends. A grid reported solved is complete, keeps
    /// its givens, and has no value twice in a row, column or block. With the
    /// blanks taken in order (`Greedy` or `Reverse`) on a grid whose blanks
    /// are clear, unsolved means that no completion of the givens with the
    /// cells' candidates exists. Should the counter reach `u64::MAX`, the
    /// search stops as unsolved.
    #[verifier::rlimit(100)]
    pub fn solve(&mut self, value_heuristic: &Heuristic, slot_heuristic: &Heuristic) -> (r: (Outcome, u64))
        requires
            old(self).wf(),
            consistent(old(self).cells()),
            old(self).givens_filled(),
        ensures
            final(self).wf(),
            final(self).blanks() == old(self).blanks(),
            consistent(final(self).cells()),
            forall|i: int|
                0 <= i < 81 && !old(self).blanks().contains(i as usize) ==> #[trigger] final(self).cells()[i]
                    == old(self).cells()[i],
            r.0 == Outcome::Solved ==> complete(final(self).cells()),
            old(self).blanks().len() == 0 ==> r == (Outcome::Solved, 0u64),
            r.0 == Outcome::Unsolved ==> r.1 > 0,
            (*slot_heuristic == Heuristic::Greedy || *slot_heuristic == Heuristic::Reverse) && (forall|i: int|
                0 <= i < 81 && old(self).blanks().contains(i as usize) ==> #[trigger] old(self).cells()[i] == 0)
                && r.0 == Outcome::Unsolved && r.1 < u64::MAX ==> forall|b: Seq<u32>|
                !#[trigger] completion(b, old(self).cells(), old(self).blanks(), old(self).domains_view()),
    {
        let domain_holder = self.copy_domains();
        let mut backtrack_counter: u64 = 0;
        let mut slots = EmptySlots::from(self.copy_blanks());
        slots.set_heuristic(slot_heuristic);
        let ghost blanks = self.empty_slots@;
        let ghost start = self.board@;
        let _ = self.empty_slots.len();
        let ghost greedy = *slot_heuristic == Heuristic::Greedy;
        let ghost ordered = (greedy || *slot_heuristic == Heuristic::Reverse) && (forall|i: int|
            0 <= i < 81 && blanks.contains(i as usize) ==> #[trigger] start[i] == 0);
        let ghost ord = if greedy { blanks } else { blanks.reverse() };
        proof {
            self.lemma_order(ord, greedy);
            if ordered {
                assert(blanks.subrange(0, blanks.len() as int) =~= blanks);
                if blanks.len() > 0 {
                    assert forall|b: Seq<u32>|
                        #[trigger] completion(b, start, ord, domain_holder@) && agrees(b, self.board@, ord, 0)
                            implies self.domains@[ord[0] as int]@.contains(b[ord[0] as int]) by {
                        assert(ord.contains(ord[0]));
                    }
                }
                assert forall|m: int| 0 < m < ord.len() implies self.board@[#[trigger] ord[m] as int] == 0 by {
                    assert(ord.contains(ord[m]));
                }
            }
            assert forall|i: int| 0 <= i < 81 && !slots.slots_view().contains(i as usize) implies #[trigger] self.board@[i] != 0 by {
                assert(!self.blanks().contains(i as usize));
            }
        }
        loop
            invariant
                self.wf(),
                self.empty_slots@ == blanks,
                blanks == old(self).blanks(),
                start == old(self).cells(),
                consistent(self.board@),
                slots.wf(),
                domain_holder@ == old(self).domains_view(),
                domain_holder@.len() == 81,
                blanks.len() == 0 ==> backtrack_counter == 0,
                slots.heuristic_view() == *slot_heuristic,
                greedy == (*slot_heuristic == Heuristic::Greedy),
                ordered == ((greedy || *slot_heuristic == Heuristic::Reverse) && (forall|i: int|
                    0 <= i < 81 && blanks.contains(i as usize) ==> #[trigger] start[i] == 0)),
                ord == if greedy { blanks } else { blanks.reverse() },
                ord.len() == blanks.len(),
                forall|j: int| 0 <= j < ord.len() ==> #[trigger] ord[j] < 81,
                forall|j: int, l: int| 0 <= j < l < ord.len() ==> ord[j] != ord[l],
                forall|x: usize| ord.contains(x) <==> blanks.contains(x),
                ordered ==> in_order_search(self.board@, self.domains@, ord, start, domain_holder@, slots.taken_view().len() as int),
                ordered ==> sched_shape(blanks, greedy, slots.slots_view(), slots.taken_view()),
                blanks.len() <= usize::MAX,
                forall|i: int, v: u32| 0 <= i < 81 && #[trigger] domain_holder@[i]@.contains(v) ==> 1 <= v <= 9,
                forall|k: int| 0 <= k < slots.slots_view().len() ==> blanks.contains(#[trigger] slots.slots_view()[k]),
                forall|k: int| 0 <= k < slots.taken_view().len() ==> blanks.contains(#[trigger] slots.taken_view()[k].1),
                forall|i: int| 0 <= i < 81 && !slots.slots_view().contains(i as usize) ==> #[trigger] self.board@[i] != 0,
                forall|i: int| 0 <= i < 81 && !blanks.contains(i as usize) ==> #[trigger] self.board@[i] == start[i],
            decreases u64::MAX - backtrack_counter, slots.slots_view().len(),
        {
            let ghost s0 = slots.slots_view();
            let ghost t0 = slots.taken_view();
            proof {
                assert forall|k: int| 0 <= k < s0.len() implies #[trigger] s0[k] < self.domains@.len() by {
                    assert(blanks.contains(s0[k]));
                }
            }
            match slots.next(self.domains.as_slice()) {
                Some(slot) => {
                    let ghost p = slots.taken_view().last().0 as int;
                    proof {
                        assert(blanks.contains(s0[p]));
                        assert(blanks.len() > 0);
                        lemma_coords((slot / 9) as int, (slot % 9) as int);
                        assert forall|k: int| 0 <= k < slots.slots_view().len() implies blanks.contains(#[trigger] slots.slots_view()[k]) by {
                            lemma_remove_contains(s0, p, slots.slots_view()[k]);
                            assert(slots.slots_view().contains(slots.slots_view()[k]));
                        }
                        assert forall|k: int| 0 <= k < slots.taken_view().len() implies blanks.contains(#[trigger] slots.taken_view()[k].1) by {
                            if k < t0.len() {
                                assert(slots.taken_view()[k] == t0[k]);
                            }
                        }
                    }
                    let (row, col) = self.board_coords[slot];
                    let ghost board0 = self.board@;
                    let ghost dom0 = self.domains@;
                    proof {
                        if ordered {
                            let k = t0.len() as int;
                            let n = blanks.len() as int;
                            assert(k < n);
                            lemma_shape_take(blanks, greedy, s0, t0, p, slots.slots_view(), slots.taken_view());
                            assert(slot == ord[k]);
                            assert forall|i: int| 0 <= i < 81 && !ord.contains(i as usize) implies #[trigger] board0[i] == start[i] by {
                                assert(!blanks.contains(i as usize));
                            }
                        }
                    }
                    match self.find_solution(row, col, value_heuristic) {
                        Some(solution) => {
                            proof {
                                lemma_assign_consistent(self.board@, slot as int, solution);
                                if ordered {
                                    lemma_in_order_take(board0, dom0, ord, start, domain_holder@, t0.len() as int, solution, self.domains@[slot as int]);
                                    assert(self.domains@ =~= dom0.update(slot as int, self.domains@[slot as int]));
                                }
                            }
                            self.set_number(row, col, solution);
                            proof {
                                assert forall|i: int| 0 <= i < 81 && !slots.slots_view().contains(i as usize) implies #[trigger] self.board@[i] != 0 by {
                                    if i != slot as int {
                                        lemma_remove_contains(s0, p, i as usize);
                                    }
                                }
                            }
                        },
                        None => {
                            // no solution found, reset cell and go back to previous one
                            proof {
                                lemma_clear_consistent(self.board@, slot as int);
                                if ordered {
                                    assert(self.domains@ =~= dom0);
                                    lemma_in_order_back(board0, dom0, ord, start, domain_holder@, t0.len() as int);
                                }
                            }
                            self.set_number(row, col, 0);
                            self.set_domain(row, col, domain_holder[slot]);
                            if backtrack_counter == u64::MAX {
                                return (Outcome::Unsolved, backtrack_counter);
                            }
                            backtrack_counter = backtrack_counter + 1;
                            let ghost s1 = slots.slots_view();
                            let ghost t1 = slots.taken_view();
                            if slots.backtrack().is_none() {
                                proof {
                                    assert(t1.len() == t0.len() + 1);
                                    self.lemma_order(ord, greedy);
                                    if ordered {
                                        assert forall|b: Seq<u32>| !#[trigger] completion(b, start, blanks, domain_holder@) by {
                                            assert(completion(b, start, ord, domain_holder@) == completion(b, start, blanks, domain_holder@));
                                        }
                                    }
                                }
                                return (Outcome::Unsolved, backtrack_counter);
                            }
                            proof {
                                if ordered {
                                    let k = t0.len() as int;
                                    lemma_shape_back(blanks, greedy, s1, t1, slots.slots_view(), slots.taken_view());
                                    assert(slots.taken_view().len() == k - 1);
                                    assert(self.board@ =~= board0.update(slot as int, 0));
                                    assert(self.domains@ =~= dom0.update(slot as int, domain_holder@[slot as int]));
                                }
                                let n = t1.len();
                                let s2 = s1.insert(t1[n - 1].0 as int, t1[n - 1].1);
                                assert(t1[n - 1].1 == slot);
                                assert(blanks.contains(t1[n - 2].1));
                                assert forall|y: usize| s1.contains(y) || y == slot || y == t1[n - 2].1 implies slots.slots_view().contains(y) by {
                                    lemma_insert_contains(s1, t1[n - 1].0 as int, t1[n - 1].1, y);
                                    lemma_insert_contains(s2, t1[n - 2].0 as int, t1[n - 2].1, y);
                                }
                                assert forall|y: usize| slots.slots_view().contains(y) implies s1.contains(y) || y == slot || y == t1[n - 2].1 by {
                                    lemma_insert_contains(s1, t1[n - 1].0 as int, t1[n - 1].1, y);
                                    lemma_insert_contains(s2, t1[n - 2].0 as int, t1[n - 2].1, y);
                                }
                                assert forall|k: int| 0 <= k < slots.slots_view().len() implies blanks.contains(#[trigger] slots.slots_view()[k]) by {
                                    let y = slots.slots_view()[k];
                                    assert(slots.slots_view().contains(y));
                                    if s1.contains(y) {
                                        let m = choose|m: int| 0 <= m < s1.len() && s1[m] == y;
                                    }
                                }
                                assert forall|k: int| 0 <= k < slots.taken_view().len() implies blanks.contains(#[trigger] slots.taken_view()[k].1) by {
                                    assert(slots.taken_view()[k] == t1[k]);
                                }
                                assert forall|i: int| 0 <= i < 81 && !slots.slots_view().contains(i as usize) implies #[trigger] self.board@[i] != 0 by {
                                    lemma_remove_contains(s0, p, i as usize);
                                    lemma_insert_contains(s1, t1[n - 1].0 as int, t1[n - 1].1, i as usize);
                                    lemma_insert_contains(s2, t1[n - 2].0 as int, t1[n - 2].1, i as usize);
                                }
                            }
                        },
                    }
                },
                None => {
                    if slots.remaining() == 0 {
                        proof {
                            assert forall|i: int| 0 <= i < 81 implies 1 <= #[trigger] self.board@[i] <= 9 by {
                                assert(!slots.slots_view().contains(i as usize));
                            }
                        }
                        return (Outcome::Solved, backtrack_counter);
                    }
                    // every cell left has no candidate: a dead end
                    proof {
                        assert(*slot_heuristic != Heuristic::Greedy && *slot_heuristic != Heuristic::Reverse);
                        assert(blanks.contains(s0[0]));
                        assert(blanks.len() > 0);
                    }
                    if backtrack_counter == u64::MAX {
                        return (Outcome::Unsolved, backtrack_counter);
                    }
                    backtrack_counter = backtrack_counter + 1;
                    let ghost t1 = slots.taken_view();
                    if slots.backtrack().is_none() {
                        return (Outcome::Unsolved, backtrack_counter);
                    }
                    proof {
                        let n = t1.len();
                        let s2 = s0.insert(t1[n - 1].0 as int, t1[n - 1].1);
                        assert(blanks.contains(t1[n - 1].1));
                        assert(blanks.contains(t1[n - 2].1));
                        assert forall|y: usize| s0.contains(y) implies slots.slots_view().contains(y) by {
                            lemma_insert_contains(s0, t1[n - 1].0 as int, t1[n - 1].1, y);
                            lemma_insert_contains(s2, t1[n - 2].0 as int, t1[n - 2].1, y);
                        }
                        assert forall|y: usize| slots.slots_view().contains(y) implies s0.contains(y) || y == t1[n - 1].1 || y == t1[n - 2].1 by {
                            lemma_insert_contains(s0, t1[n - 1].0 as int, t1[n - 1].1, y);
                            lemma_insert_contains(s2, t1[n - 2].0 as int, t1[n - 2].1, y);
                        }
                        assert forall|k: int| 0 <= k < slots.slots_view().len() implies blanks.contains(#[trigger] slots.slots_view()[k]) by {
                            let y = slots.slots_view()[k];
                            assert(slots.slots_view().contains(y));
                            if s0.contains(y) {
                                let m = choose|m: int| 0 <= m < s0.len() && s0[m] == y;
                            }
                        }
                        assert forall|k: int| 0 <= k < slots.taken_view().len() implies blanks.contains(#[trigger] slots.taken_view()[k].1) by {
                            assert(slots.taken_view()[k] == t1[k]);
                        }
                    }
                },
            }
        }
    }

    /// Removes from `d` every nonzero value that a cell of `unit` other than
    /// `index` holds.
    fn remove_peer_values(&self, d: &mut Domain, unit: &Vec<usize>, index: usize)
        requires
            self.wf(),
            unit@.len() == 9,
            forall|j: int| 0 <= j < 9 ==> #[trigger] unit@[j] < 81,
        ensures
            forall|v: u32|
                final(d)@.contains(v) <==> old(d)@.contains(v) && (v == 0 || forall|j: int|
                    0 <= j < 9 ==> #[trigger] unit@[j] == index || self.cells()[unit@[j] as int] != v),
    {
        let mut k: usize = 0;
        while k < 9
            invariant
                self.wf(),
                unit@.len() == 9,
                forall|j: int| 0 <= j < 9 ==> #[trigger] unit@[j] < 81,
                k <= 9,
                forall|v: u32|
                    d@.contains(v) <==> old(d)@.contains(v) && (v == 0 || forall|j: int|
                        0 <= j < k ==> #[trigger] unit@[j] == index || self.board@[unit@[j] as int] != v),
            decreases 9 - k,
        {
            let i = unit[k];
            let v = self.board[i];
            if i != index && v != 0 {
                d.remove(v);
            }
            proof {
                assert forall|w: u32|
                    d@.contains(w) <==> old(d)@.contains(w) && (w == 0 || forall|j: int|
                        0 <= j < k + 1 ==> #[trigger] unit@[j] == index || self.board@[unit@[j] as int] != w) by {
                    if old(d)@.contains(w) && w != 0 && !(forall|j: int|
                        0 <= j < k + 1 ==> #[trigger] unit@[j] == index || self.board@[unit@[j] as int] != w) {
                        let j = choose|j: int| 0 <= j < k + 1 && !(#[trigger] unit@[j] == index || self.board@[unit@[j] as int] != w);
                        if j < k {
                        }
                    }
                }
            }
            k = k + 1;
        }
    }

    /// Narrows the candidates of cell `idx` to the values that no peer holds;
    /// fails, leaving them as they were, when none is left.
    fn try_update_domain(&mut self, idx: usize) -> (r: Result<(), ()>)
        requires
            old(self).wf(),
            idx < 81,
        ensures
            final(self).wf(),
            final(self).cells() == old(self).cells(),
            final(self).blanks() == old(self).blanks(),
            r is Ok ==> final(self).domains_view() == old(self).domains_view().update(idx as int, final(self).domains_view()[idx as int]),
            r is Err ==> final(self).domains_view() == old(self).domains_view(),
            r is Ok <==> candidates(old(self).cells(), idx as int, old(self).domains_view()[idx as int]@).len() > 0,
            r is Ok ==> final(self).domains_view()[idx as int]@ == candidates(old(self).cells(), idx as int, old(self).domains_view()[idx as int]@),
    {
        let (row, col) = self.board_coords[idx];
        let square = Self::square(row, col);
        let mut domain = self.domains[idx];
        proof {
            lemma_coords(row as int, col as int);
            lemma_units_in_range(row as int, col as int, square as int);
            assert(self.board_rows@[row as int]@ == row_cells(row as int));
            assert(self.board_cols@[col as int]@ == col_cells(col as int));
            assert(self.board_squares@[square as int]@ == block_cells(square as int));
        }
        let ghost d0 = domain@;
        self.remove_peer_values(&mut domain, &self.board_rows[row], idx);
        self.remove_peer_values(&mut domain, &self.board_cols[col], idx);
        self.remove_peer_values(&mut domain, &self.board_squares[square], idx);
        proof {
            let b = self.cells();
            assert forall|v: u32| domain@.contains(v) <==> candidates(b, idx as int, d0).contains(v) by {
                let free = (forall|j: int|
                    0 <= j < 9 ==> #[trigger] row_cells(row as int)[j] == row * 9 + col || b[row_cells(row as int)[j] as int]
                        != v) && (forall|j: int|
                    0 <= j < 9 ==> #[trigger] col_cells(col as int)[j] == row * 9 + col || b[col_cells(col as int)[j] as int]
                        != v) && (forall|j: int|
                    0 <= j < 9 ==> #[trigger] block_cells(block_of(row * 9 + col))[j] == row * 9 + col
                        || b[block_cells(block_of(row * 9 + col))[j] as int] != v);
                lemma_free_of_units(b, row as int, col as int, v, free);
                if d0.contains(v) {
                    assert(self.domains@[idx as int]@.contains(v));
                }
            }
            assert(domain@ =~= candidates(b, idx as int, d0));
            domain.lemma_elems();
        }
        if domain.is_empty() {
            return Err(());
        }
        self.domains.set(idx, domain);
        Ok(())
    }

    /// One propagation pass: narrows every cell's candidates to the values
    /// that no peer holds, failing at the first cell left with none.
    fn propagate(&mut self) -> (r: Result<(), ()>)
        requires
            old(self).wf(),
            consistent(old(self).cells()),
            holds_own(old(self).cells(), old(self).domains_view()),
        ensures
            final(self).wf(),
            final(self).cells() == old(self).cells(),
            final(self).blanks() == old(self).blanks(),
            r is Ok ==> propagated(final(self).cells(), final(self).domains_view()),
            r is Ok ==> forall|x: int| 0 <= x < 81 ==> (#[trigger] final(self).domains_view()[x])@.subset_of(old(self).domains_view()[x]@)
                && final(self).domains_view()[x]@.len() > 0,
    {
        let ghost d0 = self.domains@;
        let mut idx: usize = 0;
        while idx < 81
            invariant
                self.wf(),
                self.cells() == old(self).cells(),
                self.blanks() == old(self).blanks(),
                d0 == old(self).domains_view(),
                consistent(self.cells()),
                holds_own(self.cells(), d0),
                idx <= 81,
                forall|x: int| idx <= x < 81 ==> #[trigger] self.domains@[x] == d0[x],
                forall|x: int| 0 <= x < idx ==> (#[trigger] self.domains@[x])@ == candidates(self.cells(), x, d0[x]@),
                forall|x: int| 0 <= x < idx ==> (#[trigger] self.domains@[x])@.len() > 0,
            decreases 81 - idx,
        {
            let r = self.try_update_domain(idx);
            if r.is_err() {
                return Err(());
            }
            idx = idx + 1;
        }
        proof {
            let b = self.cells();
            let d = self.domains@;
            assert forall|x: int| 0 <= x < 81 && b[x] != 0 implies (#[trigger] d[x])@.contains(b[x]) by {
                assert(d0[x]@.contains(b[x]));
                assert(free_of(b, x, b[x]));
            }
            assert forall|x: int, y: int|
                0 <= x < 81 && 0 <= y < 81 && peers(x, y) && b[y] != 0 implies !(#[trigger] d[x])@.contains(
                    #[trigger] b[y]) by {
                assert(!free_of(b, x, b[y]));
            }
            assert forall|x: int| 0 <= x < 81 implies (#[trigger] d[x])@.subset_of(d0[x]@) by {
                assert(d[x]@ == candidates(b, x, d0[x]@));
            }
        }
        Ok(())
    }

    /// Fills the first blank cell whose candidates have shrunk to one value
    /// with that value; returns whether it found one.
    fn try_update_value(&mut self, heuristic: &Heuristic) -> (r: bool)
        requires
            old(self).wf(),
            propagated(old(self).cells(), old(self).domains_view()),
        ensures
            final(self).wf(),
            final(self).blanks() == old(self).blanks(),
            final(self).domains_view() == old(self).domains_view(),
            consistent(final(self).cells()),
            holds_own(final(self).cells(), final(self).domains_view()),
            !r ==> final(self).cells() == old(self).cells(),
            !r ==> forall|y: int| 0 <= y < 81 ==> !(old(self).cells()[y] == 0 && (#[trigger] old(self).domains_view()[y])@.len() == 1),
            r ==> exists|x: int| {
                &&& 0 <= x < 81
                &&& old(self).cells()[x] == 0
                &&& (#[trigger] old(self).domains_view()[x])@.len() == 1
                &&& old(self).domains_view()[x]@.contains(final(self).cells()[x])
                &&& final(self).cells() == old(self).cells().update(x, final(self).cells()[x])
                &&& forall|y: int| 0 <= y < x ==> !(old(self).cells()[y] == 0 && (#[trigger] old(self).domains_view()[y])@.len() == 1)
            },
            forall|x: int| 0 <= x < 81 && old(self).cells()[x] != 0 ==> #[trigger] final(self).cells()[x] == old(self).cells()[x],
    {
        let mut idx: usize = 0;
        while idx < 81
            invariant
                self.wf(),
                self == old(self),
                propagated(self.cells(), self.domains_view()),
                idx <= 81,
                forall|y: int| 0 <= y < idx ==> !(self.cells()[y] == 0 && (#[trigger] self.domains_view()[y])@.len() == 1),
            decreases 81 - idx,
        {
            let d = self.domains[idx];
            if d.len() == 1 {
                let value = d.pick(heuristic);
                if value != self.board[idx] {
                    proof {
                        d.lemma_elems();
                        let b = self.cells();
                        if b[idx as int] != 0 {
                            assert(d@.contains(b[idx as int]));
                            lemma_single(d@, value, b[idx as int]);
                        }
                        assert forall|j: int| 0 <= j < 81 && peers(idx as int, j) implies b[j] != value by {
                            if b[j] != 0 {
                                assert(!self.domains@[idx as int]@.contains(b[j]));
                            }
                        }
                        lemma_assign_consistent(b, idx as int, value);
                    }
                    self.board.set(idx, value);
                    proof {
                        let b = old(self).cells();
                        let b2 = self.cells();
                        assert(b2 == b.update(idx as int, b2[idx as int]));
                        assert(old(self).domains_view()[idx as int]@.len() == 1);
                        assert forall|x: int| 0 <= x < 81 && b2[x] != 0 implies (#[trigger] self.domains@[x])@.contains(b2[x]) by {
                            if x != idx {
                                assert(b[x] != 0);
                            }
                        }
                    }
                    return true;
                }
                proof {
                    d.lemma_elems();
                    assert(d@.contains(value));
                }
            }
            idx = idx + 1;
        }
        false
    }

    /// Propagation after an assignment: one pass, then, if a cell left with a
    /// single candidate was filled, one more pass.
    fn try_update_domains(&mut self, heuristic: &Heuristic) -> (r: Result<(), ()>)
        requires
            old(self).wf(),
            consistent(old(self).cells()),
            holds_own(old(self).cells(), old(self).domains_view()),
        ensures
            final(self).wf(),
            final(self).blanks() == old(self).blanks(),
            r is Ok ==> propagated(final(self).cells(), final(self).domains_view()),
            r is Ok ==> forall|x: int| 0 <= x < 81 ==> (#[trigger] final(self).domains_view()[x])@.subset_of(old(self).domains_view()[x]@)
                && final(self).domains_view()[x]@.len() > 0,
            forall|x: int| 0 <= x < 81 && old(self).cells()[x] != 0 ==> #[trigger] final(self).cells()[x] == old(self).cells()[x],
    {
        let r = self.propagate();
        if r.is_err() {
            return Err(());
        }
        // if some value was changed, update the domains once more
        let ghost d1 = self.domains@;
        if self.try_update_value(heuristic) {
            let r = self.propagate();
            if r.is_err() {
                return Err(());
            }
            proof {
                assert forall|x: int| 0 <= x < 81 implies (#[trigger] self.domains@[x])@.subset_of(old(self).domains@[x]@) by {
                    assert(self.domains@[x]@.subset_of(d1[x]@));
                    assert(d1[x]@.subset_of(old(self).domains@[x]@));
                }
            }
        }
        Ok(())
    }

    /// A copy of the values.
    fn copy_board(&self) -> (r: Vec<u32>)
        ensures
            r@ == self.board@,
    {
        let mut out: Vec<u32> = Vec::new();
        let mut i: usize = 0;
        while i < self.board.len()
            invariant
                i <= self.board@.len(),
                out@ =~= self.board@.take(i as int),
            decreases self.board@.len() - i,
        {
            out.push(self.board[i]);
            i = i + 1;
        }
        proof {
            assert(self.board@.take(self.board@.len() as int) =~= self.board@);
        }
        out
    }

    /// Goes back to a saved state, clears the cell of its position in the
    /// list of blanks and takes `value` out of that cell's candidates. Returns
    /// the position: `Ok` when candidates remain there, `Err` when none do.
    fn backtrack(&mut self, version: (Vec<u32>, Vec<Domain>, usize), value: u32) -> (r: Result<usize, usize>)
        requires
            old(self).wf(),
            value < 64,
            version.0@.len() == 81,
            version.1@.len() == 81,
            forall|i: int| 0 <= i < 81 ==> #[trigger] version.0@[i] <= 9,
            forall|i: int, w: u32| 0 <= i < 81 && #[trigger] version.1@[i]@.contains(w) ==> 1 <= w <= 9,
            version.2 < old(self).blanks().len(),
        ensures
            final(self).wf(),
            final(self).blanks() == old(self).blanks(),
            ({
                let e = old(self).blanks()[version.2 as int] as int;
                &&& final(self).cells() == version.0@.update(e, 0)
                &&& final(self).domains_view().len() == 81
                &&& forall|x: int| 0 <= x < 81 && x != e ==> #[trigger] final(self).domains_view()[x] == version.1@[x]
                &&& final(self).domains_view()[e]@ == version.1@[e]@.remove(value)
                &&& r == if final(self).domains_view()[e]@.len() == 0 {
                    Err::<usize, usize>(version.2)
                } else {
                    Ok::<usize, usize>(version.2)
                }
            }),
    {
        let (board, domains, k) = version;
        self.board = board;
        self.domains = domains;
        let e = self.empty_slots[k];
        self.board.set(e, 0);
        let mut d = self.domains[e];
        d.remove(value);
        self.domains.set(e, d);
        if d.is_empty() {
            return Err(k);
        }
        Ok(k)
    }

    /// Forward checking. Blanks are visited in order; a blank already filled
    /// by propagation is passed over. Each step first saves the state; the
    /// cell then takes the candidate that `heuristic` picks, and propagation
    /// runs (see `try_update_domains`). When it fails, the counter goes up by
    /// one and the saved state comes back with that value taken out of the
    /// cell's candidates; if none remain there, the state saved before it
    /// comes back too, with the value its cell holds now taken out. A cell
    /// with no candidate counts one too and goes back two states. With no
    /// saved state left the grid is unsolvable. Returns the outcome and the
    /// count; a grid reported solved is complete, keeps its givens, and has
    /// no value twice in a row, column or block. Should the counter reach
    /// `u64::MAX`, the search stops as unsolved.
    pub fn solve_fc(&mut self, heuristic: &Heuristic) -> (r: (Outcome, u64))
        requires
            old(self).wf(),
            old(self).givens_filled(),
            propagated(old(self).cells(), old(self).domains_view()),
        ensures
            final(self).wf(),
            final(self).blanks() == old(self).blanks(),
            forall|i: int|
                0 <= i < 81 && !old(self).blanks().contains(i as usize) ==> #[trigger] final(self).cells()[i]
                    == old(self).cells()[i],
            r.0 == Outcome::Solved ==> complete(final(self).cells()) && consistent(final(self).cells()),
            old(self).blanks().len() == 0 ==> r == (Outcome::Solved, 0u64),
            r.0 == Outcome::Unsolved ==> r.1 > 0,
    {
        let mut i: usize = 0;
        let mut backtrack_counter: u64 = 0;
        let mut versions: Vec<(Vec<u32>, Vec<Domain>, usize)> = Vec::new();
        let ghost blanks = self.empty_slots@;
        let ghost start = self.board@;
        while i < self.empty_slots.len()
            invariant
                self.wf(),
                self.empty_slots@ == blanks,
                blanks == old(self).blanks(),
                start == old(self).cells(),
                forall|x: int| 0 <= x < 81 && !blanks.contains(x as usize) ==> #[trigger] start[x] != 0,
                propagated(self.board@, self.domains@),
                i <= blanks.len(),
                forall|m: int| 0 <= m < i ==> #[trigger] self.board@[blanks[m] as int] != 0,
                forall|x: int| 0 <= x < 81 && !blanks.contains(x as usize) ==> #[trigger] self.board@[x] == start[x],
                forall|k: int| 0 <= k < versions@.len() ==> snapshot_ok(#[trigger] versions@[k], blanks, start),
                blanks.len() == 0 ==> backtrack_counter == 0,
            decreases u64::MAX - backtrack_counter, blanks.len() - i,
        {
            versions.push((self.copy_board(), self.copy_domains(), i));
            proof {
                assert forall|k: int| 0 <= k < versions@.len() implies snapshot_ok(#[trigger] versions@[k], blanks, start) by {
                    if k < versions@.len() - 1 {
                    }
                }
            }
            let slot = self.empty_slots[i];
            let (row, col) = self.board_coords[slot];
            proof {
                lemma_coords((slot / 9) as int, (slot % 9) as int);
            }
            // a cell filled during forward checking is passed over
            if self.board[slot] != 0 {
                i = i + 1;
                continue;
            }
            let d = self.domains[slot];
            if !d.is_empty() {
                let solution = d.pick(heuristic);
                proof {
                    let b = self.board@;
                    assert(d@.contains(solution));
                    assert forall|j: int| 0 <= j < 81 && peers(slot as int, j) implies b[j] != solution by {
                        if b[j] != 0 {
                            assert(!self.domains@[slot as int]@.contains(b[j]));
                        }
                    }
                    lemma_assign_consistent(b, slot as int, solution);
                }
                self.set_number(row, col, solution);
                let ghost mid = self.board@;
                if self.try_update_domains(heuristic).is_err() {
                    if backtrack_counter == u64::MAX {
                        return (Outcome::Unsolved, backtrack_counter);
                    }
                    backtrack_counter = backtrack_counter + 1;
                    match versions.pop() {
                        Some(previous_version) => {
                            proof {
                                assert(snapshot_ok(previous_version, blanks, start));
                            }
                            match self.backtrack(previous_version, solution) {
                                Ok(_) => {
                                    proof {
                                        self.lemma_restored(previous_version, solution, blanks, start);
                                    }
                                },
                                Err(_) => {
                                    proof {
                                        self.lemma_restored(previous_version, solution, blanks, start);
                                    }
                                    match versions.pop() {
                                        Some(older) => {
                                            proof {
                                                assert(snapshot_ok(older, blanks, start));
                                            }
                                            let value = self.board[self.empty_slots[older.2]];
                                            let ghost o = older;
                                            let k = match self.backtrack(older, value) {
                                                Ok(k) => k,
                                                Err(k) => k,
                                            };
                                            proof {
                                                self.lemma_restored(o, value, blanks, start);
                                            }
                                            i = k;
                                        },
                                        None => {
                                            return (Outcome::Unsolved, backtrack_counter);
                                        },
                                    }
                                },
                            }
                        },
                        None => {
                            return (Outcome::Unsolved, backtrack_counter);
                        },
                    }
                } else {
                    proof {
                        assert forall|m: int| 0 <= m < i + 1 implies #[trigger] self.board@[blanks[m] as int] != 0 by {
                            assert(mid[blanks[m] as int] != 0);
                        }
                        assert forall|x: int| 0 <= x < 81 && !blanks.contains(x as usize) implies #[trigger] self.board@[x] == start[x] by {
                            assert(mid[x] != 0);
                        }
                    }
                    i = i + 1;
                }
            } else {
                if backtrack_counter == u64::MAX {
                    return (Outcome::Unsolved, backtrack_counter);
                }
                backtrack_counter = backtrack_counter + 1;
                versions.pop();
                match versions.pop() {
                    Some(older) => {
                        proof {
                            assert(snapshot_ok(older, blanks, start));
                        }
                        let value = self.board[self.empty_slots[older.2]];
                        let ghost o = older;
                        let k = match self.backtrack(older, value) {
                            Ok(k) => k,
                            Err(k) => k,
                        };
                        proof {
                            self.lemma_restored(o, value, blanks, start);
                        }
                        i = k;
                    },
                    None => {
                        return (Outcome::Unsolved, backtrack_counter);
                    },
                }
            }
        }
        proof {
            let b = self.board@;
            assert forall|x: int| 0 <= x < 81 implies 1 <= #[trigger] b[x] <= 9 by {
                if blanks.contains(x as usize) {
                    let m = choose|m: int| 0 <= m < blanks.len() && blanks[m] == x as usize;
                    assert(b[blanks[m] as int] != 0);
                }
            }
        }
        (Outcome::Solved, backtrack_counter)
    }

    /// A state brought back by `backtrack` from a sound snapshot is sound.
    proof fn lemma_restored(&self, v: (Vec<u32>, Vec<Domain>, usize), value: u32, blanks: Seq<usize>, start: Seq<u32>)
        requires
            self.wf(),
            self.blanks() == blanks,
            snapshot_ok(v, blanks, start),
            ({
                let e = blanks[v.2 as int] as int;
                &&& self.cells() == v.0@.update(e, 0)
                &&& forall|x: int| 0 <= x < 81 && x != e ==> #[trigger] self.domains_view()[x] == v.1@[x]
                &&& self.domains_view()[e]@ == v.1@[e]@.remove(value)
            }),
        ensures
            propagated(self.cells(), self.domains_view()),
            forall|m: int| 0 <= m < v.2 ==> #[trigger] self.cells()[blanks[m] as int] != 0,
            forall|x: int| 0 <= x < 81 && !blanks.contains(x as usize) ==> #[trigger] self.cells()[x] == start[x],
    {
        let e = blanks[v.2 as int] as int;
        let b = self.cells();
        let d = self.domains_view();
        lemma_clear_consistent(v.0@, e);
        assert forall|x: int| 0 <= x < 81 && b[x] != 0 implies (#[trigger] d[x])@.contains(b[x]) by {
            assert(v.1@[x]@.contains(v.0@[x]));
        }
        assert forall|x: int, y: int|
            0 <= x < 81 && 0 <= y < 81 && peers(x, y) && b[y] != 0 implies !(#[trigger] d[x])@.contains(
                #[trigger] b[y]) by {
            assert(!v.1@[x]@.contains(v.0@[y]));
        }
        assert forall|m: int| 0 <= m < v.2 implies #[trigger] b[blanks[m] as int] != 0 by {
            assert(blanks[m] < blanks[v.2 as int]);
            assert(v.0@[blanks[m] as int] != 0);
        }
        assert forall|x: int| 0 <= x < 81 && !blanks.contains(x as usize) implies #[trigger] b[x] == start[x] by {
            assert(blanks.contains(blanks[v.2 as int]));
            assert(v.0@[x] == start[x]);
        }
    }

    /// The values of the cells, row by row (0 for blank).
    pub fn get_values(&self) -> (r: Vec<u32>)
        ensures
            r@ == self.cells(),
    {
        self.copy_board()
    }

    /// The cells that were blank in the puzzle, in ascending order.
    pub fn empty_slots(&self) -> (r: Vec<usize>)
        ensures
            r@ == self.blanks(),
    {
        self.copy_blanks()
    }

    /// Whether every cell holds a value that no peer holds.
    pub fn solved(&self) -> (r: bool)
        requires
            self.wf(),
        ensures
            r == (complete(self.cells()) && consistent(self.cells())),
    {
        let mut i: usize = 0;
        while i < 81
            invariant
                self.wf(),
                i <= 81,
                forall|k: int| 0 <= k < i ==> 1 <= #[trigger] self.cells()[k] <= 9 && free_of(self.cells(), k, self.cells()[k]),
            decreases 81 - i,
        {
            let v = self.board[i];
            proof {
                lemma_coords((i / 9) as int, (i % 9) as int);
            }
            if v == 0 || !self.is_valid(i / 9, i % 9, v) {
                return false;
            }
            i = i + 1;
        }
        proof {
            let b = self.cells();
            assert forall|x: int, y: int| 0 <= x < 81 && 0 <= y < 81 && peers(x, y) && b[x] != 0 implies b[x] != b[y] by {
                assert(free_of(b, x, b[x]));
            }
        }
        true
    }

    /// The cells of row `r`, left to right.
    pub fn row_indices(&self, r: usize) -> (v: Vec<usize>)
        requires
            self.wf(),
            r < 9,
        ensures
            v@ == row_cells(r as int),
    {
        self.board_rows[r].clone()
    }

    /// The cells of column `c`, top to bottom.
    pub fn col_indices(&self, c: usize) -> (v: Vec<usize>)
        requires
            self.wf(),
            c < 9,
        ensures
            v@ == col_cells(c as int),
    {
        self.board_cols[c].clone()
    }

    /// The cells of block `b`, row by row.
    pub fn block_indices(&self, b: usize) -> (v: Vec<usize>)
        requires
            self.wf(),
            b < 9,
        ensures
            v@ == block_cells(b as int),
    {
        self.board_squares[b].clone()
    }
}

} // verus!
