//! Catalan numbers: the mathematical definition and the lookup table that
//! sizes the buffers of the variant enumeration.

use vstd::prelude::*;

verus! {

/// Number of entries of the lookup table.
pub const CATALAN_TABLE_LEN: usize = 25;

/// The Catalan numbers `C(0)` to `C(24)`.
pub const CATALAN_NUMBERS: [u64; 25] = [
    1, 1, 2, 5, 14, 42, 132, 429, 1430, 4862, 16796, 58786, 208012,
    742900, 2674440, 9694845, 35357670, 129644790, 477638700, 1767263190,
    6564120420, 24466267020, 91482563640, 343059613650, 1289904147324,
];

/// The `n`-th Catalan number, by Segner's recurrence:
/// `C(0) = 1` and `C(n + 1) = C(0) C(n) + C(1) C(n - 1) + ... + C(n) C(0)`.
pub open spec fn catalan_number(n: nat) -> nat
    decreases n, n + 1,
{
    if n == 0 {
        1
    } else {
        catalan_convolution((n - 1) as nat, n)
    }
}

/// The first `k` terms of the convolution that defines `C(m + 1)`:
/// the sum of `C(i) * C(m - i)` over `i < k`.
pub open spec fn catalan_convolution(m: nat, k: nat) -> nat
    decreases m + 1, k,
{
    if k == 0 || k > m + 1 {
        0
    } else {
        catalan_convolution(m, (k - 1) as nat) + catalan_number((k - 1) as nat) * catalan_number(
            (m - (k - 1)) as nat,
        )
    }
}

/// Looks up `C(n)` in the table.
pub fn catalan(n: usize) -> (c: u64)
    requires
        n < CATALAN_TABLE_LEN,
    ensures
        c == CATALAN_NUMBERS[n as int],
        c == catalan_number(n as nat),
{
    proof {
        lemma_catalan_table();
    }
    CATALAN_NUMBERS[n]
}

/// The capacity error of the lookup: the table has no entry for this index.
#[derive(Clone, Copy, PartialEq, Eq, Debug, Structural)]
pub struct TableExceeded(pub usize);

/// Looks up `C(n)` in the table, and refuses every index that the table does
/// not reach.
pub fn checked_catalan(n: usize) -> (r: Result<u64, TableExceeded>)
    ensures
        match r {
            Ok(c) => n < CATALAN_TABLE_LEN && c == catalan_number(n as nat),
            Err(e) => n >= CATALAN_TABLE_LEN && e == TableExceeded(n),
        },
{
    if n < CATALAN_TABLE_LEN {
        Ok(catalan(n))
    } else {
        Err(TableExceeded(n))
    }
}

/// One more term of the convolution, with the two factors given by value.
proof fn lemma_convolution_term(m: nat, k: nat, a: nat, b: nat)
    requires
        1 <= k <= m + 1,
        catalan_number((k - 1) as nat) == a,
        catalan_number((m + 1 - k) as nat) == b,
    ensures
        catalan_convolution(m, k) == catalan_convolution(m, (k - 1) as nat) + a * b,
{
}

/// The Catalan numbers `C(0)` to `C(8)`, each summed up term by term.
proof fn lemma_catalan_rows_low()
    ensures
        catalan_number(0) == 1,
        catalan_number(1) == 1,
        catalan_number(2) == 2,
        catalan_number(3) == 5,
        catalan_number(4) == 14,
        catalan_number(5) == 42,
        catalan_number(6) == 132,
        catalan_number(7) == 429,
        catalan_number(8) == 1430,
{
    assert(catalan_convolution(0, 0) == 0);
    lemma_convolution_term(0, 1, 1, 1);
    assert(catalan_number(1) == 1);
    assert(catalan_convolution(1, 0) == 0);
    lemma_convolution_term(1, 1, 1, 1);
    lemma_convolution_term(1, 2, 1, 1);
    assert(catalan_number(2) == 2);
    assert(catalan_convolution(2, 0) == 0);
    lemma_convolution_term(2, 1, 1, 2);
    lemma_convolution_term(2, 2, 1, 1);
    lemma_convolution_term(2, 3, 2, 1);
    assert(catalan_number(3) == 5);
    assert(catalan_convolution(3, 0) == 0);
    lemma_convolution_term(3, 1, 1, 5);
    lemma_convolution_term(3, 2, 1, 2);
    lemma_convolution_term(3, 3, 2, 1);
    lemma_convolution_term(3, 4, 5, 1);
    assert(catalan_number(4) == 14);
    assert(catalan_convolution(4, 0) == 0);
    lemma_convolution_term(4, 1, 1, 14);
    lemma_convolution_term(4, 2, 1, 5);
    lemma_convolution_term(4, 3, 2, 2);
    lemma_convolution_term(4, 4, 5, 1);
    lemma_convolution_term(4, 5, 14, 1);
    assert(catalan_number(5) == 42);
    assert(catalan_convolution(5, 0) == 0);
    lemma_convolution_term(5, 1, 1, 42);
    lemma_convolution_term(5, 2, 1, 14);
    lemma_convolution_term(5, 3, 2, 5);
    lemma_convolution_term(5, 4, 5, 2);
    lemma_convolution_term(5, 5, 14, 1);
    lemma_convolution_term(5, 6, 42, 1);
    assert(catalan_number(6) == 132);
    assert(catalan_convolution(6, 0) == 0);
    lemma_convolution_term(6, 1, 1, 132);
    lemma_convolution_term(6, 2, 1, 42);
    lemma_convolution_term(6, 3, 2, 14);
    lemma_convolution_term(6, 4, 5, 5);
    lemma_convolution_term(6, 5, 14, 2);
    lemma_convolution_term(6, 6, 42, 1);
    lemma_convolution_term(6, 7, 132, 1);
    assert(catalan_number(7) == 429);
    assert(catalan_convolution(7, 0) == 0);
    lemma_convolution_term(7, 1, 1, 429);
    lemma_convolution_term(7, 2, 1, 132);
    lemma_convolution_term(7, 3, 2, 42);
    lemma_convolution_term(7, 4, 5, 14);
    lemma_convolution_term(7, 5, 14, 5);
    lemma_convolution_term(7, 6, 42, 2);
    lemma_convolution_term(7, 7, 132, 1);
    lemma_convolution_term(7, 8, 429, 1);
    assert(catalan_number(8) == 1430);
}

/// The Catalan numbers `C(9)` to `C(16)`, each summed up term by term.
proof fn lemma_catalan_rows_mid()
    requires
        catalan_number(0) == 1,
        catalan_number(1) == 1,
        catalan_number(2) == 2,
        catalan_number(3) == 5,
        catalan_number(4) == 14,
        catalan_number(5) == 42,
        catalan_number(6) == 132,
        catalan_number(7) == 429,
        catalan_number(8) == 1430,
    ensures
        catalan_number(9) == 4862,
        catalan_number(10) == 16796,
        catalan_number(11) == 58786,
        catalan_number(12) == 208012,
        catalan_number(13) == 742900,
        catalan_number(14) == 2674440,
        catalan_number(15) == 9694845,
        catalan_number(16) == 35357670,
{
    assert(catalan_convolution(8, 0) == 0);
    lemma_convolution_term(8, 1, 1, 1430);
    lemma_convolution_term(8, 2, 1, 429);
    lemma_convolution_term(8, 3, 2, 132);
    lemma_convolution_term(8, 4, 5, 42);
    lemma_convolution_term(8, 5, 14, 14);
    lemma_convolution_term(8, 6, 42, 5);
    lemma_convolution_term(8, 7, 132, 2);
    lemma_convolution_term(8, 8, 429, 1);
    lemma_convolution_term(8, 9, 1430, 1);
    assert(catalan_number(9) == 4862);
    assert(catalan_convolution(9, 0) == 0);
    lemma_convolution_term(9, 1, 1, 4862);
    lemma_convolution_term(9, 2, 1, 1430);
    lemma_convolution_term(9, 3, 2, 429);
    lemma_convolution_term(9, 4, 5, 132);
    lemma_convolution_term(9, 5, 14, 42);
    lemma_convolution_term(9, 6, 42, 14);
    lemma_convolution_term(9, 7, 132, 5);
    lemma_convolution_term(9, 8, 429, 2);
    lemma_convolution_term(9, 9, 1430, 1);
    lemma_convolution_term(9, 10, 4862, 1);
    assert(catalan_number(10) == 16796);
    assert(catalan_convolution(10, 0) == 0);
    lemma_convolution_term(10, 1, 1, 16796);
    lemma_convolution_term(10, 2, 1, 4862);
    lemma_convolution_term(10, 3, 2, 1430);
    lemma_convolution_term(10, 4, 5, 429);
    lemma_convolution_term(10, 5, 14, 132);
    lemma_convolution_term(10, 6, 42, 42);
    lemma_convolution_term(10, 7, 132, 14);
    lemma_convolution_term(10, 8, 429, 5);
    lemma_convolution_term(10, 9, 1430, 2);
    lemma_convolution_term(10, 10, 4862, 1);
    lemma_convolution_term(10, 11, 16796, 1);
    assert(catalan_number(11) == 58786);
    assert(catalan_convolution(11, 0) == 0);
    lemma_convolution_term(11, 1, 1, 58786);
    lemma_convolution_term(11, 2, 1, 16796);
    lemma_convolution_term(11, 3, 2, 4862);
    lemma_convolution_term(11, 4, 5, 1430);
    lemma_convolution_term(11, 5, 14, 429);
    lemma_convolution_term(11, 6, 42, 132);
    lemma_convolution_term(11, 7, 132, 42);
    lemma_convolution_term(11, 8, 429, 14);
    lemma_convolution_term(11, 9, 1430, 5);
    lemma_convolution_term(11, 10, 4862, 2);
    lemma_convolution_term(11, 11, 16796, 1);
    lemma_convolution_term(11, 12, 58786, 1);
    assert(catalan_number(12) == 208012);
    assert(catalan_convolution(12, 0) == 0);
    lemma_convolution_term(12, 1, 1, 208012);
    lemma_convolution_term(12, 2, 1, 58786);
    lemma_convolution_term(12, 3, 2, 16796);
    lemma_convolution_term(12, 4, 5, 4862);
    lemma_convolution_term(12, 5, 14, 1430);
    lemma_convolution_term(12, 6, 42, 429);
    lemma_convolution_term(12, 7, 132, 132);
    lemma_convolution_term(12, 8, 429, 42);
    lemma_convolution_term(12, 9, 1430, 14);
    lemma_convolution_term(12, 10, 4862, 5);
    lemma_convolution_term(12, 11, 16796, 2);
    lemma_convolution_term(12, 12, 58786, 1);
    lemma_convolution_term(12, 13, 208012, 1);
    assert(catalan_number(13) == 742900);
    assert(catalan_convolution(13, 0) == 0);
    lemma_convolution_term(13, 1, 1, 742900);
    lemma_convolution_term(13, 2, 1, 208012);
    lemma_convolution_term(13, 3, 2, 58786);
    lemma_convolution_term(13, 4, 5, 16796);
    lemma_convolution_term(13, 5, 14, 4862);
    lemma_convolution_term(13, 6, 42, 1430);
    lemma_convolution_term(13, 7, 132, 429);
    lemma_convolution_term(13, 8, 429, 132);
    lemma_convolution_term(13, 9, 1430, 42);
    lemma_convolution_term(13, 10, 4862, 14);
    lemma_convolution_term(13, 11, 16796, 5);
    lemma_convolution_term(13, 12, 58786, 2);
    lemma_convolution_term(13, 13, 208012, 1);
    lemma_convolution_term(13, 14, 742900, 1);
    assert(catalan_number(14) == 2674440);
    assert(catalan_convolution(14, 0) == 0);
    lemma_convolution_term(14, 1, 1, 2674440);
    lemma_convolution_term(14, 2, 1, 742900);
    lemma_convolution_term(14, 3, 2, 208012);
    lemma_convolution_term(14, 4, 5, 58786);
    lemma_convolution_term(14, 5, 14, 16796);
    lemma_convolution_term(14, 6, 42, 4862);
    lemma_convolution_term(14, 7, 132, 1430);
    lemma_convolution_term(14, 8, 429, 429);
    lemma_convolution_term(14, 9, 1430, 132);
    lemma_convolution_term(14, 10, 4862, 42);
    lemma_convolution_term(14, 11, 16796, 14);
    lemma_convolution_term(14, 12, 58786, 5);
    lemma_convolution_term(14, 13, 208012, 2);
    lemma_convolution_term(14, 14, 742900, 1);
    lemma_convolution_term(14, 15, 2674440, 1);
    assert(catalan_number(15) == 9694845);
    assert(catalan_convolution(15, 0) == 0);
    lemma_convolution_term(15, 1, 1, 9694845);
    lemma_convolution_term(15, 2, 1, 2674440);
    lemma_convolution_term(15, 3, 2, 742900);
    lemma_convolution_term(15, 4, 5, 208012);
    lemma_convolution_term(15, 5, 14, 58786);
    lemma_convolution_term(15, 6, 42, 16796);
    lemma_convolution_term(15, 7, 132, 4862);
    lemma_convolution_term(15, 8, 429, 1430);
    lemma_convolution_term(15, 9, 1430, 429);
    lemma_convolution_term(15, 10, 4862, 132);
    lemma_convolution_term(15, 11, 16796, 42);
    lemma_convolution_term(15, 12, 58786, 14);
    lemma_convolution_term(15, 13, 208012, 5);
    lemma_convolution_term(15, 14, 742900, 2);
    lemma_convolution_term(15, 15, 2674440, 1);
    lemma_convolution_term(15, 16, 9694845, 1);
    assert(catalan_number(16) == 35357670);
}

/// The Catalan numbers `C(17)` to `C(24)`, each summed up term by term.
proof fn lemma_catalan_rows_high()
    requires
        catalan_number(0) == 1,
        catalan_number(1) == 1,
        catalan_number(2) == 2,
        catalan_number(3) == 5,
        catalan_number(4) == 14,
        catalan_number(5) == 42,
        catalan_number(6) == 132,
        catalan_number(7) == 429,
        catalan_number(8) == 1430,
        catalan_number(9) == 4862,
        catalan_number(10) == 16796,
        catalan_number(11) == 58786,
        catalan_number(12) == 208012,
        catalan_number(13) == 742900,
        catalan_number(14) == 2674440,
        catalan_number(15) == 9694845,
        catalan_number(16) == 35357670,
    ensures
        catalan_number(17) == 129644790,
        catalan_number(18) == 477638700,
        catalan_number(19) == 1767263190,
        catalan_number(20) == 6564120420,
        catalan_number(21) == 24466267020,
        catalan_number(22) == 91482563640,
        catalan_number(23) == 343059613650,
        catalan_number(24) == 1289904147324,
{
    assert(catalan_convolution(16, 0) == 0);
    lemma_convolution_term(16, 1, 1, 35357670);
    lemma_convolution_term(16, 2, 1, 9694845);
    lemma_convolution_term(16, 3, 2, 2674440);
    lemma_convolution_term(16, 4, 5, 742900);
    lemma_convolution_term(16, 5, 14, 208012);
    lemma_convolution_term(16, 6, 42, 58786);
    lemma_convolution_term(16, 7, 132, 16796);
    lemma_convolution_term(16, 8, 429, 4862);
    lemma_convolution_term(16, 9, 1430, 1430);
    lemma_convolution_term(16, 10, 4862, 429);
    lemma_convolution_term(16, 11, 16796, 132);
    lemma_convolution_term(16, 12, 58786, 42);
    lemma_convolution_term(16, 13, 208012, 14);
    lemma_convolution_term(16, 14, 742900, 5);
    lemma_convolution_term(16, 15, 2674440, 2);
    lemma_convolution_term(16, 16, 9694845, 1);
    lemma_convolution_term(16, 17, 35357670, 1);
    assert(catalan_number(17) == 129644790);
    assert(catalan_convolution(17, 0) == 0);
    lemma_convolution_term(17, 1, 1, 129644790);
    lemma_convolution_term(17, 2, 1, 35357670);
    lemma_convolution_term(17, 3, 2, 9694845);
    lemma_convolution_term(17, 4, 5, 2674440);
    lemma_convolution_term(17, 5, 14, 742900);
    lemma_convolution_term(17, 6, 42, 208012);
    lemma_convolution_term(17, 7, 132, 58786);
    lemma_convolution_term(17, 8, 429, 16796);
    lemma_convolution_term(17, 9, 1430, 4862);
    lemma_convolution_term(17, 10, 4862, 1430);
    lemma_convolution_term(17, 11, 16796, 429);
    lemma_convolution_term(17, 12, 58786, 132);
    lemma_convolution_term(17, 13, 208012, 42);
    lemma_convolution_term(17, 14, 742900, 14);
    lemma_convolution_term(17, 15, 2674440, 5);
    lemma_convolution_term(17, 16, 9694845, 2);
    lemma_convolution_term(17, 17, 35357670, 1);
    lemma_convolution_term(17, 18, 129644790, 1);
    assert(catalan_number(18) == 477638700);
    assert(catalan_convolution(18, 0) == 0);
    lemma_convolution_term(18, 1, 1, 477638700);
    lemma_convolution_term(18, 2, 1, 129644790);
    lemma_convolution_term(18, 3, 2, 35357670);
    lemma_convolution_term(18, 4, 5, 9694845);
    lemma_convolution_term(18, 5, 14, 2674440);
    lemma_convolution_term(18, 6, 42, 742900);
    lemma_convolution_term(18, 7, 132, 208012);
    lemma_convolution_term(18, 8, 429, 58786);
    lemma_convolution_term(18, 9, 1430, 16796);
    lemma_convolution_term(18, 10, 4862, 4862);
    lemma_convolution_term(18, 11, 16796, 1430);
    lemma_convolution_term(18, 12, 58786, 429);
    lemma_convolution_term(18, 13, 208012, 132);
    lemma_convolution_term(18, 14, 742900, 42);
    lemma_convolution_term(18, 15, 2674440, 14);
    lemma_convolution_term(18, 16, 9694845, 5);
    lemma_convolution_term(18, 17, 35357670, 2);
    lemma_convolution_term(18, 18, 129644790, 1);
    lemma_convolution_term(18, 19, 477638700, 1);
    assert(catalan_number(19) == 1767263190);
    assert(catalan_convolution(19, 0) == 0);
    lemma_convolution_term(19, 1, 1, 1767263190);
    lemma_convolution_term(19, 2, 1, 477638700);
    lemma_convolution_term(19, 3, 2, 129644790);
    lemma_convolution_term(19, 4, 5, 35357670);
    lemma_convolution_term(19, 5, 14, 9694845);
    lemma_convolution_term(19, 6, 42, 2674440);
    lemma_convolution_term(19, 7, 132, 742900);
    lemma_convolution_term(19, 8, 429, 208012);
    lemma_convolution_term(19, 9, 1430, 58786);
    lemma_convolution_term(19, 10, 4862, 16796);
    lemma_convolution_term(19, 11, 16796, 4862);
    lemma_convolution_term(19, 12, 58786, 1430);
    lemma_convolution_term(19, 13, 208012, 429);
    lemma_convolution_term(19, 14, 742900, 132);
    lemma_convolution_term(19, 15, 2674440, 42);
    lemma_convolution_term(19, 16, 9694845, 14);
    lemma_convolution_term(19, 17, 35357670, 5);
    lemma_convolution_term(19, 18, 129644790, 2);
    lemma_convolution_term(19, 19, 477638700, 1);
    lemma_convolution_term(19, 20, 1767263190, 1);
    assert(catalan_number(20) == 6564120420);
    assert(catalan_convolution(20, 0) == 0);
    lemma_convolution_term(20, 1, 1, 6564120420);
    lemma_convolution_term(20, 2, 1, 1767263190);
    lemma_convolution_term(20, 3, 2, 477638700);
    lemma_convolution_term(20, 4, 5, 129644790);
    lemma_convolution_term(20, 5, 14, 35357670);
    lemma_convolution_term(20, 6, 42, 9694845);
    lemma_convolution_term(20, 7, 132, 2674440);
    lemma_convolution_term(20, 8, 429, 742900);
    lemma_convolution_term(20, 9, 1430, 208012);
    lemma_convolution_term(20, 10, 4862, 58786);
    lemma_convolution_term(20, 11, 16796, 16796);
    lemma_convolution_term(20, 12, 58786, 4862);
    lemma_convolution_term(20, 13, 208012, 1430);
    lemma_convolution_term(20, 14, 742900, 429);
    lemma_convolution_term(20, 15, 2674440, 132);
    lemma_convolution_term(20, 16, 9694845, 42);
    lemma_convolution_term(20, 17, 35357670, 14);
    lemma_convolution_term(20, 18, 129644790, 5);
    lemma_convolution_term(20, 19, 477638700, 2);
    lemma_convolution_term(20, 20, 1767263190, 1);
    lemma_convolution_term(20, 21, 6564120420, 1);
    assert(catalan_number(21) == 24466267020);
    assert(catalan_convolution(21, 0) == 0);
    lemma_convolution_term(21, 1, 1, 24466267020);
    lemma_convolution_term(21, 2, 1, 6564120420);
    lemma_convolution_term(21, 3, 2, 1767263190);
    lemma_convolution_term(21, 4, 5, 477638700);
    lemma_convolution_term(21, 5, 14, 129644790);
    lemma_convolution_term(21, 6, 42, 35357670);
    lemma_convolution_term(21, 7, 132, 9694845);
    lemma_convolution_term(21, 8, 429, 2674440);
    lemma_convolution_term(21, 9, 1430, 742900);
    lemma_convolution_term(21, 10, 4862, 208012);
    lemma_convolution_term(21, 11, 16796, 58786);
    lemma_convolution_term(21, 12, 58786, 16796);
    lemma_convolution_term(21, 13, 208012, 4862);
    lemma_convolution_term(21, 14, 742900, 1430);
    lemma_convolution_term(21, 15, 2674440, 429);
    lemma_convolution_term(21, 16, 9694845, 132);
    lemma_convolution_term(21, 17, 35357670, 42);
    lemma_convolution_term(21, 18, 129644790, 14);
    lemma_convolution_term(21, 19, 477638700, 5);
    lemma_convolution_term(21, 20, 1767263190, 2);
    lemma_convolution_term(21, 21, 6564120420, 1);
    lemma_convolution_term(21, 22, 24466267020, 1);
    assert(catalan_number(22) == 91482563640);
    assert(catalan_convolution(22, 0) == 0);
    lemma_convolution_term(22, 1, 1, 91482563640);
    lemma_convolution_term(22, 2, 1, 24466267020);
    lemma_convolution_term(22, 3, 2, 6564120420);
    lemma_convolution_term(22, 4, 5, 1767263190);
    lemma_convolution_term(22, 5, 14, 477638700);
    lemma_convolution_term(22, 6, 42, 129644790);
    lemma_convolution_term(22, 7, 132, 35357670);
    lemma_convolution_term(22, 8, 429, 9694845);
    lemma_convolution_term(22, 9, 1430, 2674440);
    lemma_convolution_term(22, 10, 4862, 742900);
    lemma_convolution_term(22, 11, 16796, 208012);
    lemma_convolution_term(22, 12, 58786, 58786);
    lemma_convolution_term(22, 13, 208012, 16796);
    lemma_convolution_term(22, 14, 742900, 4862);
    lemma_convolution_term(22, 15, 2674440, 1430);
    lemma_convolution_term(22, 16, 9694845, 429);
    lemma_convolution_term(22, 17, 35357670, 132);
    lemma_convolution_term(22, 18, 129644790, 42);
    lemma_convolution_term(22, 19, 477638700, 14);
    lemma_convolution_term(22, 20, 1767263190, 5);
    lemma_convolution_term(22, 21, 6564120420, 2);
    lemma_convolution_term(22, 22, 24466267020, 1);
    lemma_convolution_term(22, 23, 91482563640, 1);
    assert(catalan_number(23) == 343059613650);
    assert(catalan_convolution(23, 0) == 0);
    lemma_convolution_term(23, 1, 1, 343059613650);
    lemma_convolution_term(23, 2, 1, 91482563640);
    lemma_convolution_term(23, 3, 2, 24466267020);
    lemma_convolution_term(23, 4, 5, 6564120420);
    lemma_convolution_term(23, 5, 14, 1767263190);
    lemma_convolution_term(23, 6, 42, 477638700);
    lemma_convolution_term(23, 7, 132, 129644790);
    lemma_convolution_term(23, 8, 429, 35357670);
    lemma_convolution_term(23, 9, 1430, 9694845);
    lemma_convolution_term(23, 10, 4862, 2674440);
    lemma_convolution_term(23, 11, 16796, 742900);
    lemma_convolution_term(23, 12, 58786, 208012);
    lemma_convolution_term(23, 13, 208012, 58786);
    lemma_convolution_term(23, 14, 742900, 16796);
    lemma_convolution_term(23, 15, 2674440, 4862);
    lemma_convolution_term(23, 16, 9694845, 1430);
    lemma_convolution_term(23, 17, 35357670, 429);
    lemma_convolution_term(23, 18, 129644790, 132);
    lemma_convolution_term(23, 19, 477638700, 42);
    lemma_convolution_term(23, 20, 1767263190, 14);
    lemma_convolution_term(23, 21, 6564120420, 5);
    lemma_convolution_term(23, 22, 24466267020, 2);
    lemma_convolution_term(23, 23, 91482563640, 1);
    lemma_convolution_term(23, 24, 343059613650, 1);
    assert(catalan_number(24) == 1289904147324);
}

/// The Catalan numbers never fall.
pub proof fn lemma_catalan_rising(a: nat, b: nat)
    requires
        a <= b,
    ensures
        catalan_number(a) <= catalan_number(b),
    decreases b - a,
{
    if a < b {
        lemma_catalan_rising(a, (b - 1) as nat);
        let m = (b - 1) as nat;
        assert(catalan_number(b) == catalan_convolution(m, b));
        assert(catalan_convolution(m, b) == catalan_convolution(m, m) + catalan_number(m)
            * catalan_number(0));
        assert(catalan_number(m) * catalan_number(0) == catalan_number(m)) by (nonlinear_arith)
            requires
                catalan_number(0) == 1,
        ;
    }
}

/// No Catalan number is zero.
pub proof fn lemma_catalan_positive(n: nat)
    ensures
        catalan_number(n) >= 1,
{
    lemma_catalan_rising(0, n);
}

/// Every entry of the table is the Catalan number of its index.
pub proof fn lemma_catalan_table()
    ensures
        forall|n: int| 0 <= n < 25 ==> CATALAN_NUMBERS[n] == #[trigger] catalan_number(n as nat),
{
    lemma_catalan_rows_low();
    lemma_catalan_rows_mid();
    lemma_catalan_rows_high();
}

} // verus!
