use vstd::arithmetic::div_mod::{lemma_add_mod_noop, lemma_mul_mod_noop_general};
use vstd::prelude::*;

verus! {

/// The wheel's modulus: candidates are the numbers coprime to 2, 3 and 5.
pub const MOD: usize = 30;

/// The primes that the wheel skips.
pub const SMALL_PRIMES: [usize; 3] = [2, 3, 5];

/// Number of residues coprime to `MOD`, one spoke each.
pub const RELATIVE_PRIMES_SIZE: usize = 8;

/// The first member of each spoke (31 stands for residue 1, past 1 itself).
pub const RELATIVE_PRIMES: [usize; 8] = [7, 11, 13, 17, 19, 23, 29, 31];

/// Row `i`: the steps from a member of spoke `i` to the next numbers coprime to
/// `MOD`; the first step is 0, so the first hop is the square.
pub const DIFFS: [[usize; 8]; 8] = [
    [0, 4, 2, 4, 2, 4, 6, 2],
    [0, 2, 4, 2, 4, 6, 2, 6],
    [0, 4, 2, 4, 6, 2, 6, 4],
    [0, 2, 4, 6, 2, 6, 4, 2],
    [0, 4, 6, 2, 6, 4, 2, 4],
    [0, 6, 2, 6, 4, 2, 4, 2],
    [0, 2, 6, 4, 2, 4, 2, 4],
    [0, 6, 4, 2, 4, 2, 4, 6],
];

/// Row `i`, entry `j`: the spoke that holds the composite of hop `j` of a prime
/// of spoke `i`.
pub const MULTIPLICATION_TABLE: [[usize; 8]; 8] = [
    [4, 3, 7, 6, 2, 1, 5, 0],
    [7, 5, 0, 6, 2, 4, 1, 3],
    [4, 1, 0, 6, 3, 2, 7, 5],
    [4, 5, 7, 2, 3, 6, 0, 1],
    [7, 3, 1, 4, 2, 6, 0, 5],
    [4, 0, 5, 1, 2, 6, 7, 3],
    [7, 6, 5, 4, 3, 2, 1, 0],
    [7, 0, 1, 2, 3, 4, 5, 6],
];

/// `RELATIVE_PRIMES[i]`.
pub open spec fn rp(i: int) -> int {
    seq![7int, 11, 13, 17, 19, 23, 29, 31][i]
}

/// `DIFFS[i][j]`.
pub open spec fn diff(i: int, j: int) -> int {
    seq![
        seq![0int, 4, 2, 4, 2, 4, 6, 2],
        seq![0int, 2, 4, 2, 4, 6, 2, 6],
        seq![0int, 4, 2, 4, 6, 2, 6, 4],
        seq![0int, 2, 4, 6, 2, 6, 4, 2],
        seq![0int, 4, 6, 2, 6, 4, 2, 4],
        seq![0int, 6, 2, 6, 4, 2, 4, 2],
        seq![0int, 2, 6, 4, 2, 4, 2, 4],
        seq![0int, 6, 4, 2, 4, 2, 4, 6],
    ][i][j]
}

/// `MULTIPLICATION_TABLE[i][j]`.
pub open spec fn route(i: int, j: int) -> int {
    seq![
        seq![4int, 3, 7, 6, 2, 1, 5, 0],
        seq![7int, 5, 0, 6, 2, 4, 1, 3],
        seq![4int, 1, 0, 6, 3, 2, 7, 5],
        seq![4int, 5, 7, 2, 3, 6, 0, 1],
        seq![7int, 3, 1, 4, 2, 6, 0, 5],
        seq![4int, 0, 5, 1, 2, 6, 7, 3],
        seq![7int, 6, 5, 4, 3, 2, 1, 0],
        seq![7int, 0, 1, 2, 3, 4, 5, 6],
    ][i][j]
}

/// Sum of the steps of row `i` up to and including step `j`.
pub open spec fn prefix(i: int, j: int) -> int
    decreases j + 1,
{
    if j < 0 {
        0
    } else {
        prefix(i, j - 1) + diff(i, j)
    }
}

/// The composite reached at hop `j` from the prime `p` of spoke `i`.
pub open spec fn hop(p: int, i: int, j: int) -> int {
    p * (p + prefix(i, j))
}

/// The first member of spoke `i`.
pub fn relative_prime(i: usize) -> (r: usize)
    requires
        i < 8,
    ensures
        r == rp(i as int),
{
    let t = RELATIVE_PRIMES;
    t[i]
}

fn step(i: usize, j: usize) -> (r: usize)
    requires
        i < 8,
        j < 8,
    ensures
        r == diff(i as int, j as int),
{
    let t = DIFFS;
    t[i][j]
}

fn destination(i: usize, j: usize) -> (r: usize)
    requires
        i < 8,
        j < 8,
    ensures
        r == route(i as int, j as int),
        r < 8,
{
    let t = MULTIPLICATION_TABLE;
    t[i][j]
}

/// Checks one entry of the routing table against residue arithmetic, by the
/// row it stands in.
proof fn lemma_table_entry(i: int, j: int)
    requires
        0 <= i < 8,
        0 <= j < 8,
    ensures
        (rp(i) * (rp(i) + prefix(i, j))) % 30 == rp(route(i, j)) % 30,
        0 <= prefix(i, j) <= 28,
{
    if i == 0 {
        lemma_row_zero(j);
    } else if i == 1 {
        lemma_row_one(j);
    } else if i == 2 {
        lemma_row_two(j);
    } else if i == 3 {
        lemma_row_three(j);
    } else if i == 4 {
        lemma_row_four(j);
    } else if i == 5 {
        lemma_row_five(j);
    } else if i == 6 {
        lemma_row_six(j);
    } else {
        lemma_row_seven(j);
    }
}

proof fn lemma_row_zero(j: int)
    requires
        0 <= j < 8,
    ensures
        (rp(0) * (rp(0) + prefix(0, j))) % 30 == rp(route(0, j)) % 30,
        0 <= prefix(0, j) <= 28,
{
    reveal_with_fuel(prefix, 9);
    if j == 0 {
        assert(prefix(0, j) == 0);
        assert(7 * (7 + 0) == 49);
    } else if j == 1 {
        assert(prefix(0, j) == 4);
        assert(7 * (7 + 4) == 77);
    } else if j == 2 {
        assert(prefix(0, j) == 6);
        assert(7 * (7 + 6) == 91);
    } else if j == 3 {
        assert(prefix(0, j) == 10);
        assert(7 * (7 + 10) == 119);
    } else if j == 4 {
        assert(prefix(0, j) == 12);
        assert(7 * (7 + 12) == 133);
    } else if j == 5 {
        assert(prefix(0, j) == 16);
        assert(7 * (7 + 16) == 161);
    } else if j == 6 {
        assert(prefix(0, j) == 22);
        assert(7 * (7 + 22) == 203);
    } else {
        assert(prefix(0, j) == 24);
        assert(7 * (7 + 24) == 217);
    }
}

proof fn lemma_row_one(j: int)
    requires
        0 <= j < 8,
    ensures
        (rp(1) * (rp(1) + prefix(1, j))) % 30 == rp(route(1, j)) % 30,
        0 <= prefix(1, j) <= 28,
{
    reveal_with_fuel(prefix, 9);
    if j == 0 {
        assert(prefix(1, j) == 0);
        assert(11 * (11 + 0) == 121);
    } else if j == 1 {
        assert(prefix(1, j) == 2);
        assert(11 * (11 + 2) == 143);
    } else if j == 2 {
        assert(prefix(1, j) == 6);
        assert(11 * (11 + 6) == 187);
    } else if j == 3 {
        assert(prefix(1, j) == 8);
        assert(11 * (11 + 8) == 209);
    } else if j == 4 {
        assert(prefix(1, j) == 12);
        assert(11 * (11 + 12) == 253);
    } else if j == 5 {
        assert(prefix(1, j) == 18);
        assert(11 * (11 + 18) == 319);
    } else if j == 6 {
        assert(prefix(1, j) == 20);
        assert(11 * (11 + 20) == 341);
    } else {
        assert(prefix(1, j) == 26);
        assert(11 * (11 + 26) == 407);
    }
}

proof fn lemma_row_two(j: int)
    requires
        0 <= j < 8,
    ensures
        (rp(2) * (rp(2) + prefix(2, j))) % 30 == rp(route(2, j)) % 30,
        0 <= prefix(2, j) <= 28,
{
    reveal_with_fuel(prefix, 9);
    if j == 0 {
        assert(prefix(2, j) == 0);
        assert(13 * (13 + 0) == 169);
    } else if j == 1 {
        assert(prefix(2, j) == 4);
        assert(13 * (13 + 4) == 221);
    } else if j == 2 {
        assert(prefix(2, j) == 6);
        assert(13 * (13 + 6) == 247);
    } else if j == 3 {
        assert(prefix(2, j) == 10);
        assert(13 * (13 + 10) == 299);
    } else if j == 4 {
        assert(prefix(2, j) == 16);
        assert(13 * (13 + 16) == 377);
    } else if j == 5 {
        assert(prefix(2, j) == 18);
        assert(13 * (13 + 18) == 403);
    } else if j == 6 {
        assert(prefix(2, j) == 24);
        assert(13 * (13 + 24) == 481);
    } else {
        assert(prefix(2, j) == 28);
        assert(13 * (13 + 28) == 533);
    }
}

proof fn lemma_row_three(j: int)
    requires
        0 <= j < 8,
    ensures
        (rp(3) * (rp(3) + prefix(3, j))) % 30 == rp(route(3, j)) % 30,
        0 <= prefix(3, j) <= 28,
{
    reveal_with_fuel(prefix, 9);
    if j == 0 {
        assert(prefix(3, j) == 0);
        assert(17 * (17 + 0) == 289);
    } else if j == 1 {
        assert(prefix(3, j) == 2);
        assert(17 * (17 + 2) == 323);
    } else if j == 2 {
        assert(prefix(3, j) == 6);
        assert(17 * (17 + 6) == 391);
    } else if j == 3 {
        assert(prefix(3, j) == 12);
        assert(17 * (17 + 12) == 493);
    } else if j == 4 {
        assert(prefix(3, j) == 14);
        assert(17 * (17 + 14) == 527);
    } else if j == 5 {
        assert(prefix(3, j) == 20);
        assert(17 * (17 + 20) == 629);
    } else if j == 6 {
        assert(prefix(3, j) == 24);
        assert(17 * (17 + 24) == 697);
    } else {
        assert(prefix(3, j) == 26);
        assert(17 * (17 + 26) == 731);
    }
}

proof fn lemma_row_four(j: int)
    requires
        0 <= j < 8,
    ensures
        (rp(4) * (rp(4) + prefix(4, j))) % 30 == rp(route(4, j)) % 30,
        0 <= prefix(4, j) <= 28,
{
    reveal_with_fuel(prefix, 9);
    if j == 0 {
        assert(prefix(4, j) == 0);
        assert(19 * (19 + 0) == 361);
    } else if j == 1 {
        assert(prefix(4, j) == 4);
        assert(19 * (19 + 4) == 437);
    } else if j == 2 {
        assert(prefix(4, j) == 10);
        assert(19 * (19 + 10) == 551);
    } else if j == 3 {
        assert(prefix(4, j) == 12);
        assert(19 * (19 + 12) == 589);
    } else if j == 4 {
        assert(prefix(4, j) == 18);
        assert(19 * (19 + 18) == 703);
    } else if j == 5 {
        assert(prefix(4, j) == 22);
        assert(19 * (19 + 22) == 779);
    } else if j == 6 {
        assert(prefix(4, j) == 24);
        assert(19 * (19 + 24) == 817);
    } else {
        assert(prefix(4, j) == 28);
        assert(19 * (19 + 28) == 893);
    }
}

proof fn lemma_row_five(j: int)
    requires
        0 <= j < 8,
    ensures
        (rp(5) * (rp(5) + prefix(5, j))) % 30 == rp(route(5, j)) % 30,
        0 <= prefix(5, j) <= 28,
{
    reveal_with_fuel(prefix, 9);
    if j == 0 {
        assert(prefix(5, j) == 0);
        assert(23 * (23 + 0) == 529);
    } else if j == 1 {
        assert(prefix(5, j) == 6);
        assert(23 * (23 + 6) == 667);
    } else if j == 2 {
        assert(prefix(5, j) == 8);
        assert(23 * (23 + 8) == 713);
    } else if j == 3 {
        assert(prefix(5, j) == 14);
        assert(23 * (23 + 14) == 851);
    } else if j == 4 {
        assert(prefix(5, j) == 18);
        assert(23 * (23 + 18) == 943);
    } else if j == 5 {
        assert(prefix(5, j) == 20);
        assert(23 * (23 + 20) == 989);
    } else if j == 6 {
        assert(prefix(5, j) == 24);
        assert(23 * (23 + 24) == 1081);
    } else {
        assert(prefix(5, j) == 26);
        assert(23 * (23 + 26) == 1127);
    }
}

proof fn lemma_row_six(j: int)
    requires
        0 <= j < 8,
    ensures
        (rp(6) * (rp(6) + prefix(6, j))) % 30 == rp(route(6, j)) % 30,
        0 <= prefix(6, j) <= 28,
{
    reveal_with_fuel(prefix, 9);
    if j == 0 {
        assert(prefix(6, j) == 0);
        assert(29 * (29 + 0) == 841);
    } else if j == 1 {
        assert(prefix(6, j) == 2);
        assert(29 * (29 + 2) == 899);
    } else if j == 2 {
        assert(prefix(6, j) == 8);
        assert(29 * (29 + 8) == 1073);
    } else if j == 3 {
        assert(prefix(6, j) == 12);
        assert(29 * (29 + 12) == 1189);
    } else if j == 4 {
        assert(prefix(6, j) == 14);
        assert(29 * (29 + 14) == 1247);
    } else if j == 5 {
        assert(prefix(6, j) == 18);
        assert(29 * (29 + 18) == 1363);
    } else if j == 6 {
        assert(prefix(6, j) == 20);
        assert(29 * (29 + 20) == 1421);
    } else {
        assert(prefix(6, j) == 24);
        assert(29 * (29 + 24) == 1537);
    }
}

proof fn lemma_row_seven(j: int)
    requires
        0 <= j < 8,
    ensures
        (rp(7) * (rp(7) + prefix(7, j))) % 30 == rp(route(7, j)) % 30,
        0 <= prefix(7, j) <= 28,
{
    reveal_with_fuel(prefix, 9);
    if j == 0 {
        assert(prefix(7, j) == 0);
        assert(31 * (31 + 0) == 961);
    } else if j == 1 {
        assert(prefix(7, j) == 6);
        assert(31 * (31 + 6) == 1147);
    } else if j == 2 {
        assert(prefix(7, j) == 10);
        assert(31 * (31 + 10) == 1271);
    } else if j == 3 {
        assert(prefix(7, j) == 12);
        assert(31 * (31 + 12) == 1333);
    } else if j == 4 {
        assert(prefix(7, j) == 16);
        assert(31 * (31 + 16) == 1457);
    } else if j == 5 {
        assert(prefix(7, j) == 18);
        assert(31 * (31 + 18) == 1519);
    } else if j == 6 {
        assert(prefix(7, j) == 22);
        assert(31 * (31 + 22) == 1643);
    } else {
        assert(prefix(7, j) == 28);
        assert(31 * (31 + 28) == 1829);
    }
}

pub proof fn lemma_prefix_nonneg(i: int, j: int)
    requires
        0 <= i < 8,
        0 <= j < 8,
    ensures
        0 <= prefix(i, j) <= 28,
{
    lemma_table_entry(i, j);
}

pub proof fn lemma_route_range(i: int, j: int)
    requires
        0 <= i < 8,
        0 <= j < 8,
    ensures
        0 <= route(i, j) < 8,
{
    assert(i == 0 || i == 1 || i == 2 || i == 3 || i == 4 || i == 5 || i == 6 || i == 7);
    assert(j == 0 || j == 1 || j == 2 || j == 3 || j == 4 || j == 5 || j == 6 || j == 7);
}

pub proof fn lemma_rp_range(k: int)
    requires
        0 <= k < 8,
    ensures
        7 <= rp(k) <= 31,
        k < 7 ==> rp(k) <= 29,
        k == 7 ==> rp(k) == 31,
{
    assert(k == 0 || k == 1 || k == 2 || k == 3 || k == 4 || k == 5 || k == 6 || k == 7);
}

/// Distinct spokes hold distinct residues modulo 30.
pub proof fn lemma_residues_distinct(a: int, b: int)
    requires
        0 <= a < 8,
        0 <= b < 8,
        a != b,
    ensures
        rp(a) % 30 != rp(b) % 30,
{
    assert(a == 0 || a == 1 || a == 2 || a == 3 || a == 4 || a == 5 || a == 6 || a == 7);
    assert(b == 0 || b == 1 || b == 2 || b == 3 || b == 4 || b == 5 || b == 6 || b == 7);
}

pub proof fn lemma_diff_positive(i: int, j: int)
    requires
        0 <= i < 8,
        1 <= j < 8,
    ensures
        diff(i, j) > 0,
{
    assert(i == 0 || i == 1 || i == 2 || i == 3 || i == 4 || i == 5 || i == 6 || i == 7);
    assert(j == 1 || j == 2 || j == 3 || j == 4 || j == 5 || j == 6 || j == 7);
}

/// The relatives of a spoke's row grow with each hop.
pub proof fn lemma_prefix_increasing(i: int, a: int, b: int)
    requires
        0 <= i < 8,
        0 <= a < b < 8,
    ensures
        prefix(i, a) < prefix(i, b),
    decreases b,
{
    lemma_diff_positive(i, b);
    if a < b - 1 {
        lemma_prefix_increasing(i, a, b - 1);
    }
}

/// The hops of a row reach every number coprime to 30 in the 30 numbers from
/// the row's residue on: `d` is one of the row's prefix sums.
pub proof fn lemma_wheel_cover(i: int, d: int) -> (j: int)
    requires
        0 <= i < 8,
        0 <= d < 30,
        (rp(i) + d) % 2 != 0,
        (rp(i) + d) % 3 != 0,
        (rp(i) + d) % 5 != 0,
    ensures
        0 <= j < 8,
        prefix(i, j) == d,
{
    if i == 0 {
        lemma_cover_zero(d)
    } else if i == 1 {
        lemma_cover_one(d)
    } else if i == 2 {
        lemma_cover_two(d)
    } else if i == 3 {
        lemma_cover_three(d)
    } else if i == 4 {
        lemma_cover_four(d)
    } else if i == 5 {
        lemma_cover_five(d)
    } else if i == 6 {
        lemma_cover_six(d)
    } else {
        lemma_cover_seven(d)
    }
}

proof fn lemma_cover_zero(d: int) -> (j: int)
    requires
        0 <= d < 30,
        (7 + d) % 2 != 0,
        (7 + d) % 3 != 0,
        (7 + d) % 5 != 0,
    ensures
        0 <= j < 8,
        prefix(0, j) == d,
{
    reveal_with_fuel(prefix, 9);
    assert(d == 0 || d == 4 || d == 6 || d == 10 || d == 12 || d == 16 || d == 22 || d == 24);
    if d == 0 {
        0
    } else if d == 4 {
        1
    } else if d == 6 {
        2
    } else if d == 10 {
        3
    } else if d == 12 {
        4
    } else if d == 16 {
        5
    } else if d == 22 {
        6
    } else {
        7
    }
}

proof fn lemma_cover_one(d: int) -> (j: int)
    requires
        0 <= d < 30,
        (11 + d) % 2 != 0,
        (11 + d) % 3 != 0,
        (11 + d) % 5 != 0,
    ensures
        0 <= j < 8,
        prefix(1, j) == d,
{
    reveal_with_fuel(prefix, 9);
    assert(d == 0 || d == 2 || d == 6 || d == 8 || d == 12 || d == 18 || d == 20 || d == 26);
    if d == 0 {
        0
    } else if d == 2 {
        1
    } else if d == 6 {
        2
    } else if d == 8 {
        3
    } else if d == 12 {
        4
    } else if d == 18 {
        5
    } else if d == 20 {
        6
    } else {
        7
    }
}

proof fn lemma_cover_two(d: int) -> (j: int)
    requires
        0 <= d < 30,
        (13 + d) % 2 != 0,
        (13 + d) % 3 != 0,
        (13 + d) % 5 != 0,
    ensures
        0 <= j < 8,
        prefix(2, j) == d,
{
    reveal_with_fuel(prefix, 9);
    assert(d == 0 || d == 4 || d == 6 || d == 10 || d == 16 || d == 18 || d == 24 || d == 28);
    if d == 0 {
        0
    } else if d == 4 {
        1
    } else if d == 6 {
        2
    } else if d == 10 {
        3
    } else if d == 16 {
        4
    } else if d == 18 {
        5
    } else if d == 24 {
        6
    } else {
        7
    }
}

proof fn lemma_cover_three(d: int) -> (j: int)
    requires
        0 <= d < 30,
        (17 + d) % 2 != 0,
        (17 + d) % 3 != 0,
        (17 + d) % 5 != 0,
    ensures
        0 <= j < 8,
        prefix(3, j) == d,
{
    reveal_with_fuel(prefix, 9);
    assert(d == 0 || d == 2 || d == 6 || d == 12 || d == 14 || d == 20 || d == 24 || d == 26);
    if d == 0 {
        0
    } else if d == 2 {
        1
    } else if d == 6 {
        2
    } else if d == 12 {
        3
    } else if d == 14 {
        4
    } else if d == 20 {
        5
    } else if d == 24 {
        6
    } else {
        7
    }
}

proof fn lemma_cover_four(d: int) -> (j: int)
    requires
        0 <= d < 30,
        (19 + d) % 2 != 0,
        (19 + d) % 3 != 0,
        (19 + d) % 5 != 0,
    ensures
        0 <= j < 8,
        prefix(4, j) == d,
{
    reveal_with_fuel(prefix, 9);
    assert(d == 0 || d == 4 || d == 10 || d == 12 || d == 18 || d == 22 || d == 24 || d == 28);
    if d == 0 {
        0
    } else if d == 4 {
        1
    } else if d == 10 {
        2
    } else if d == 12 {
        3
    } else if d == 18 {
        4
    } else if d == 22 {
        5
    } else if d == 24 {
        6
    } else {
        7
    }
}

proof fn lemma_cover_five(d: int) -> (j: int)
    requires
        0 <= d < 30,
        (23 + d) % 2 != 0,
        (23 + d) % 3 != 0,
        (23 + d) % 5 != 0,
    ensures
        0 <= j < 8,
        prefix(5, j) == d,
{
    reveal_with_fuel(prefix, 9);
    assert(d == 0 || d == 6 || d == 8 || d == 14 || d == 18 || d == 20 || d == 24 || d == 26);
    if d == 0 {
        0
    } else if d == 6 {
        1
    } else if d == 8 {
        2
    } else if d == 14 {
        3
    } else if d == 18 {
        4
    } else if d == 20 {
        5
    } else if d == 24 {
        6
    } else {
        7
    }
}

proof fn lemma_cover_six(d: int) -> (j: int)
    requires
        0 <= d < 30,
        (29 + d) % 2 != 0,
        (29 + d) % 3 != 0,
        (29 + d) % 5 != 0,
    ensures
        0 <= j < 8,
        prefix(6, j) == d,
{
    reveal_with_fuel(prefix, 9);
    assert(d == 0 || d == 2 || d == 8 || d == 12 || d == 14 || d == 18 || d == 20 || d == 24);
    if d == 0 {
        0
    } else if d == 2 {
        1
    } else if d == 8 {
        2
    } else if d == 12 {
        3
    } else if d == 14 {
        4
    } else if d == 18 {
        5
    } else if d == 20 {
        6
    } else {
        7
    }
}

proof fn lemma_cover_seven(d: int) -> (j: int)
    requires
        0 <= d < 30,
        (31 + d) % 2 != 0,
        (31 + d) % 3 != 0,
        (31 + d) % 5 != 0,
    ensures
        0 <= j < 8,
        prefix(7, j) == d,
{
    reveal_with_fuel(prefix, 9);
    assert(d == 0 || d == 6 || d == 10 || d == 12 || d == 16 || d == 18 || d == 22 || d == 28);
    if d == 0 {
        0
    } else if d == 6 {
        1
    } else if d == 10 {
        2
    } else if d == 12 {
        3
    } else if d == 16 {
        4
    } else if d == 18 {
        5
    } else if d == 22 {
        6
    } else {
        7
    }
}

/// Routing law of the wheel: for every prime `p` of spoke `i` (that is,
/// `p` congruent to that spoke's residue modulo 30), the composite of hop `j`
/// lies in the residue class of spoke `MULTIPLICATION_TABLE[i][j]`.
pub proof fn lemma_wheel_routing(p: int, i: int, j: int)
    requires
        0 <= i < 8,
        0 <= j < 8,
        p % 30 == rp(i) % 30,
    ensures
        hop(p, i, j) % 30 == rp(route(i, j)) % 30,
{
    lemma_table_entry(i, j);
    let c = prefix(i, j);
    let b = rp(i);
    lemma_add_mod_noop(p, c, 30);
    lemma_add_mod_noop(b, c, 30);
    lemma_mul_mod_noop_general(p, p + c, 30);
    lemma_mul_mod_noop_general(b, b + c, 30);
}

/// The hops of the prime `prime` of spoke `spoke`, up to `max`: the composite of
/// each hop with the spoke that holds it, stopping before the first composite
/// above `max`.
pub fn hops(prime: usize, spoke: usize, max: usize) -> (r: Vec<(usize, usize)>)
    requires
        spoke < 8,
        prime >= 1,
    ensures
        r.len() <= 8,
        forall|j: int|
            0 <= j < r.len() ==> {
                &&& #[trigger] r@[j].0 == hop(prime as int, spoke as int, j)
                &&& r@[j].0 <= max
                &&& r@[j].1 == route(spoke as int, j)
            },
        r.len() < 8 ==> hop(prime as int, spoke as int, r.len() as int) > max,
{
    let mut out: Vec<(usize, usize)> = Vec::new();
    let mut relative: usize = prime;
    let mut j: usize = 0;
    while j < 8
        invariant
            j <= 8,
            out.len() == j,
            relative == prime + prefix(spoke as int, j - 1),
            spoke < 8,
            prime >= 1,
            forall|t: int|
                0 <= t < j ==> {
                    &&& #[trigger] out@[t].0 == hop(prime as int, spoke as int, t)
                    &&& out@[t].0 <= max
                    &&& out@[t].1 == route(spoke as int, t)
                },
        decreases 8 - j,
    {
        proof {
            lemma_table_entry(spoke as int, j as int);
        }
        let d = step(spoke, j);
        if relative > max || d > max - relative {
            proof {
                assert(prime * (prime + prefix(spoke as int, j as int)) > max) by (nonlinear_arith)
                    requires
                        prime + prefix(spoke as int, j as int) > max,
                        prime >= 1,
                        prime + prefix(spoke as int, j as int) >= 0,
                ;
            }
            return out;
        }
        relative = relative + d;
        match prime.checked_mul(relative) {
            Some(composite) => {
                if composite > max {
                    return out;
                }
                out.push((composite, destination(spoke, j)));
            },
            None => {
                return out;
            },
        }
        j = j + 1;
    }
    out
}

} // verus!
