//! A 256-bit board set: four 64-bit lanes, one bit per cell of the star
//! board.
//!
//! The cell layout makes each of the six hex-neighbour directions a fixed
//! index offset: east/west are `+1`/`-1`, the two southern neighbours are
//! `+13` and `+14`, the two northern ones `-13` and `-14`.  Even rows hold
//! 13 indexable columns; odd rows are offset by half a cell.  Of the 256
//! indices, 121 are playing cells; the rest form a fixed invalid mask.

use vstd::prelude::*;

verus! {

/// Index of a cell in the 256-bit board layout.
pub type BitIndex = u8;

const LONG_ROW: u8 = 13;
const TWO_ROWS: u8 = 27;

/// The index of the cell in column `x` of row `y`.
pub open spec fn spec_pos_to_index(x: int, y: int) -> int {
    (y / 2) * 27 + (y % 2) * 13 + x
}

/// Column and row of the cell with index `i`.
pub open spec fn spec_index_to_pos(i: int) -> (int, int) {
    (((i % 27) % 13), 2 * (i / 27) + (i % 27) / 13)
}

/// Maps board coordinates to the cell index of the bit layout.
pub fn pos_to_index(x: u8, y: u8) -> (r: BitIndex)
    requires
        x < 13,
        y < 17,
    ensures
        r as int == spec_pos_to_index(x as int, y as int),
{
    y / 2 * TWO_ROWS + (y % 2) * LONG_ROW + x
}

/// Maps a cell index back to board coordinates.
pub fn index_to_pos(index: BitIndex) -> (r: (i8, i8))
    ensures
        r.0 as int == spec_index_to_pos(index as int).0,
        r.1 as int == spec_index_to_pos(index as int).1,
{
    let mut index = index;
    let mut y: u8 = 0;

    y += 2 * (index / TWO_ROWS);
    index %= TWO_ROWS;

    y += index / LONG_ROW;
    index -= (index / LONG_ROW) * LONG_ROW;

    let x = index;
    (x as i8, y as i8)
}

/// Round trip: a valid coordinate pair survives conversion to a cell
/// index and back.
pub proof fn lemma_pos_index_round_trip(x: int, y: int)
    requires
        0 <= x < 13,
        0 <= y < 17,
    ensures
        spec_pos_to_index(x, y) < 256,
        spec_index_to_pos(spec_pos_to_index(x, y)) == (x, y),
{
    let i = spec_pos_to_index(x, y);
    let b = (y % 2) * 13 + x;
    assert(0 <= b < 27);
    assert(i == (y / 2) * 27 + b);
    assert(i / 27 == y / 2 && i % 27 == b) by (nonlinear_arith)
        requires
            i == (y / 2) * 27 + b,
            0 <= b < 27,
            0 <= y / 2 <= 8,
    ;
    assert(b / 13 == y % 2 && b % 13 == x) by (nonlinear_arith)
        requires
            b == (y % 2) * 13 + x,
            0 <= x < 13,
            0 <= y % 2 <= 1,
    ;
}

/// True when bit `k` of `x` is set.
pub open spec fn u64_bit(x: u64, k: u64) -> bool {
    (x >> k) & 1u64 == 1u64
}

proof fn lemma_u64_zero_bits()
    by (bit_vector)
    ensures
        forall|k: u64| #![trigger (0u64 >> k)] k < 64 ==> !u64_bit(0u64, k),
{
}

proof fn lemma_u64_and_bits(a: u64, b: u64)
    by (bit_vector)
    ensures
        forall|k: u64|
            #![trigger ((a & b) >> k)]
            k < 64 ==> u64_bit(a & b, k) == (u64_bit(a, k) && u64_bit(b, k)),
{
}

proof fn lemma_u64_or_bits(a: u64, b: u64)
    by (bit_vector)
    ensures
        forall|k: u64|
            #![trigger ((a | b) >> k)]
            k < 64 ==> u64_bit(a | b, k) == (u64_bit(a, k) || u64_bit(b, k)),
{
}

proof fn lemma_u64_xor_bits(a: u64, b: u64)
    by (bit_vector)
    ensures
        forall|k: u64|
            #![trigger ((a ^ b) >> k)]
            k < 64 ==> u64_bit(a ^ b, k) == (u64_bit(a, k) != u64_bit(b, k)),
{
}

proof fn lemma_u64_not_bits(a: u64)
    by (bit_vector)
    ensures
        forall|k: u64| #![trigger ((!a) >> k)] k < 64 ==> u64_bit(!a, k) == !u64_bit(a, k),
{
}

proof fn lemma_u64_set_bit(a: u64, j: u64)
    by (bit_vector)
    requires
        j < 64,
    ensures
        forall|k: u64|
            #![trigger ((a | (1u64 << j)) >> k)]
            k < 64 ==> u64_bit(a | (1u64 << j), k) == (k == j || u64_bit(a, k)),
{
}

proof fn lemma_u64_unset_bit(a: u64, j: u64)
    by (bit_vector)
    requires
        j < 64,
    ensures
        forall|k: u64|
            #![trigger ((a & !(1u64 << j)) >> k)]
            k < 64 ==> u64_bit(a & !(1u64 << j), k) == (k != j && u64_bit(a, k)),
{
}

proof fn lemma_u64_shl_low(a: u64, b: u64)
    by (bit_vector)
    requires
        0 < b < 64,
    ensures
        forall|k: u64|
            #![trigger ((a << b) >> k)]
            k < 64 ==> u64_bit(a << b, k) == (k >= b && u64_bit(a, (k - b) as u64)),
{
}

proof fn lemma_u64_shl_carry(hi: u64, lo: u64, b: u64, c: u64)
    by (bit_vector)
    requires
        0 < b < 64,
        b + c == 64,
    ensures
        forall|k: u64|
            #![trigger (((hi << b) | (lo >> c)) >> k)]
            k < 64 ==> u64_bit((hi << b) | (lo >> c), k) == (if k >= b {
                u64_bit(hi, (k - b) as u64)
            } else {
                u64_bit(lo, (k + c) as u64)
            }),
{
}

proof fn lemma_u64_shr_high(a: u64, b: u64)
    by (bit_vector)
    requires
        0 < b < 64,
    ensures
        forall|k: u64|
            #![trigger ((a >> b) >> k)]
            k < 64 ==> u64_bit(a >> b, k) == (k + b < 64 && u64_bit(a, (k + b) as u64)),
{
}

proof fn lemma_u64_shr_carry(lo: u64, hi: u64, b: u64, c: u64)
    by (bit_vector)
    requires
        0 < b < 64,
        b + c == 64,
    ensures
        forall|k: u64|
            #![trigger (((lo >> b) | (hi << c)) >> k)]
            k < 64 ==> u64_bit((lo >> b) | (hi << c), k) == (if k + b < 64 {
                u64_bit(lo, (k + b) as u64)
            } else {
                u64_bit(hi, (k + b - 64) as u64)
            }),
{
}

proof fn lemma_u64_clear_lowest(x: u64, t: u64)
    by (bit_vector)
    requires
        t < 64,
        u64_bit(x, t),
        x << ((64 - t) as u64) == 0,
    ensures
        forall|k: u64|
            #![trigger ((x & ((x - 1) as u64)) >> k)]
            k < 64 ==> u64_bit(x & ((x - 1) as u64), k) == (u64_bit(x, k) && k != t),
        forall|k: u64| #![trigger (x >> k)] k < t ==> !u64_bit(x, k),
{
}

/// Bit-level extensionality for 64-bit lanes.
proof fn lemma_u64_eq_from_bits(a: u64, b: u64)
    requires
        forall|k: u64| k < 64 ==> #[trigger] u64_bit(a, k) == u64_bit(b, k),
    ensures
        a == b,
{
    if a != b {
        let x = a ^ b;
        assert(x != 0) by (bit_vector)
            requires
                a != b,
                x == a ^ b,
        ;
        vstd::std_specs::bits::axiom_u64_trailing_zeros(x);
        let t = vstd::std_specs::bits::u64_trailing_zeros(x) as u64;
        assert(t < 64 && u64_bit(x, t));
        assert(u64_bit(a, t) != u64_bit(b, t)) by (bit_vector)
            requires
                x == a ^ b,
                t < 64,
                u64_bit(x, t),
        ;
    }
}

/// A 256-bit set of board cells: four 64-bit lanes, least significant
/// lane first.
#[derive(Clone, Copy, Debug)]
pub struct Bitboard {
    lanes: [u64; 4],
}

impl PartialEq for Bitboard {
    fn eq(&self, other: &Bitboard) -> (r: bool) {
        let r = self.lanes[0] == other.lanes[0] && self.lanes[1] == other.lanes[1] && self.lanes[2]
            == other.lanes[2] && self.lanes[3] == other.lanes[3];
        proof {
            broadcast use vstd::array::group_array_axioms;

            if r {
                assert(self.lanes =~= other.lanes);
            }
        }
        r
    }
}

impl Eq for Bitboard {

}

impl vstd::std_specs::cmp::PartialEqSpecImpl for Bitboard {
    open spec fn obeys_eq_spec() -> bool {
        true
    }

    open spec fn eq_spec(&self, other: &Bitboard) -> bool {
        *self == *other
    }
}

impl Bitboard {
    /// True when bit `i` of the 256-bit value is set.
    pub closed spec fn spec_bit(self, i: int) -> bool {
        u64_bit(self.lanes[i / 64], (i % 64) as u64)
    }

    /// The set of indices of the set bits.
    pub open spec fn bits(self) -> Set<int> {
        Set::new(|i: int| 0 <= i < 256 && self.spec_bit(i))
    }

    /// Full-width extensionality: boards with the same bits are equal.
    pub proof fn lemma_bit_ext(a: Bitboard, b: Bitboard)
        requires
            forall|i: int| 0 <= i < 256 ==> a.spec_bit(i) == b.spec_bit(i),
        ensures
            a == b,
    {
        broadcast use vstd::array::group_array_axioms;

        assert forall|l: int| 0 <= l < 4 implies a.lanes[l] == b.lanes[l] by {
            assert forall|k: u64| k < 64 implies #[trigger] u64_bit(a.lanes[l], k) == u64_bit(
                b.lanes[l],
                k,
            ) by {
                let i = 64 * l + k;
                assert(i / 64 == l && i % 64 == k as int);
                assert(a.spec_bit(i) == b.spec_bit(i));
            }
            lemma_u64_eq_from_bits(a.lanes[l], b.lanes[l]);
        }
        assert(a.lanes =~= b.lanes);
    }

    /// The lane holding bit `i`, for the lane-by-lane proofs below.
    proof fn lemma_lane_of_bit(self, i: int)
        requires
            0 <= i < 256,
        ensures
            0 <= i / 64 < 4,
            0 <= i % 64 < 64,
            i == 64 * (i / 64) + i % 64,
            self.spec_bit(i) == u64_bit(self.lanes[i / 64], (i % 64) as u64),
    {
    }

    /// The board with bit `i` additionally set.
    pub closed spec fn spec_set(self, i: int) -> Bitboard {
        Bitboard {
            lanes: [
                if i / 64 == 0 {
                    self.lanes[0] | (1u64 << ((i % 64) as u64))
                } else {
                    self.lanes[0]
                },
                if i / 64 == 1 {
                    self.lanes[1] | (1u64 << ((i % 64) as u64))
                } else {
                    self.lanes[1]
                },
                if i / 64 == 2 {
                    self.lanes[2] | (1u64 << ((i % 64) as u64))
                } else {
                    self.lanes[2]
                },
                if i / 64 == 3 {
                    self.lanes[3] | (1u64 << ((i % 64) as u64))
                } else {
                    self.lanes[3]
                },
            ],
        }
    }

    /// The board with bit `i` cleared.
    pub closed spec fn spec_unset(self, i: int) -> Bitboard {
        Bitboard {
            lanes: [
                if i / 64 == 0 {
                    self.lanes[0] & !(1u64 << ((i % 64) as u64))
                } else {
                    self.lanes[0]
                },
                if i / 64 == 1 {
                    self.lanes[1] & !(1u64 << ((i % 64) as u64))
                } else {
                    self.lanes[1]
                },
                if i / 64 == 2 {
                    self.lanes[2] & !(1u64 << ((i % 64) as u64))
                } else {
                    self.lanes[2]
                },
                if i / 64 == 3 {
                    self.lanes[3] & !(1u64 << ((i % 64) as u64))
                } else {
                    self.lanes[3]
                },
            ],
        }
    }

    /// Bit description of `spec_set`.
    pub proof fn lemma_spec_set(self, i: int)
        requires
            0 <= i < 256,
        ensures
            forall|j: int|
                0 <= j < 256 ==> #[trigger] self.spec_set(i).spec_bit(j) == (j == i
                    || self.spec_bit(j)),
    {
        let r = self.spec_set(i);
        lemma_u64_set_bit(self.lanes[i / 64], (i % 64) as u64);
        assert forall|j: int|
            0 <= j < 256 implies r.spec_bit(j) == (j == i || self.spec_bit(j)) by {
            self.lemma_lane_of_bit(j);
            r.lemma_lane_of_bit(j);
            self.lemma_lane_of_bit(i);
            if j / 64 == i / 64 {
                assert(r.lanes[j / 64] == self.lanes[i / 64] | (1u64 << ((i % 64) as u64)));
            }
        }
    }

    /// Bit description of `spec_unset`.
    pub proof fn lemma_spec_unset(self, i: int)
        requires
            0 <= i < 256,
        ensures
            forall|j: int|
                0 <= j < 256 ==> #[trigger] self.spec_unset(i).spec_bit(j) == (j != i
                    && self.spec_bit(j)),
    {
        let r = self.spec_unset(i);
        lemma_u64_unset_bit(self.lanes[i / 64], (i % 64) as u64);
        assert forall|j: int|
            0 <= j < 256 implies r.spec_bit(j) == (j != i && self.spec_bit(j)) by {
            self.lemma_lane_of_bit(j);
            r.lemma_lane_of_bit(j);
            self.lemma_lane_of_bit(i);
            if j / 64 == i / 64 {
                assert(r.lanes[j / 64] == self.lanes[i / 64] & !(1u64 << ((i % 64) as u64)));
            }
        }
    }

    /// A board from its four 64-bit lanes, least significant first.
    pub fn from_lanes(lanes: [u64; 4]) -> (r: Self)
        ensures
            forall|i: int|
                0 <= i < 256 ==> #[trigger] r.spec_bit(i) == u64_bit(
                    lanes[i / 64],
                    (i % 64) as u64,
                ),
    {
        let r = Bitboard { lanes };
        proof {
            assert forall|i: int|
                0 <= i < 256 implies #[trigger] r.spec_bit(i) == u64_bit(
                lanes[i / 64],
                (i % 64) as u64,
            ) by {
                r.lemma_lane_of_bit(i);
            }
        }
        r
    }

    /// The board with no bits set.
    pub fn empty() -> (r: Self)
        ensures
            forall|i: int| 0 <= i < 256 ==> !r.spec_bit(i),
    {
        let r = Bitboard { lanes: [0u64, 0u64, 0u64, 0u64] };
        proof {
            lemma_u64_zero_bits();
            assert forall|i: int| 0 <= i < 256 implies !r.spec_bit(i) by {
                r.lemma_lane_of_bit(i);
            }
        }
        r
    }

    /// The board holding exactly bit `index`.
    pub fn bit(index: BitIndex) -> (r: Self)
        ensures
            forall|i: int| 0 <= i < 256 ==> r.spec_bit(i) == (i == index as int),
    {
        let mut result = Bitboard::empty();
        result.set_bit(index);
        result
    }

    /// Whether no bit is set.
    pub fn is_empty(&self) -> (r: bool)
        ensures
            r == forall|i: int| 0 <= i < 256 ==> !self.spec_bit(i),
    {
        let r = self.lanes[0] == 0 && self.lanes[1] == 0 && self.lanes[2] == 0 && self.lanes[3]
            == 0;
        proof {
            if r {
                lemma_u64_zero_bits();
                assert forall|i: int| 0 <= i < 256 implies !self.spec_bit(i) by {
                    self.lemma_lane_of_bit(i);
                }
            } else {
                assert(exists|l: int| 0 <= l < 4 && self.lanes[l] != 0);
                let l = choose|l: int| 0 <= l < 4 && self.lanes[l] != 0;
                if forall|i: int| 0 <= i < 256 ==> !self.spec_bit(i) {
                    lemma_u64_zero_bits();
                    assert forall|k: u64| k < 64 implies #[trigger] u64_bit(self.lanes[l], k)
                        == u64_bit(0u64, k) by {
                        let i = 64 * l + k;
                        assert(i / 64 == l && i % 64 == k as int);
                        assert(!self.spec_bit(i));
                    }
                    lemma_u64_eq_from_bits(self.lanes[l], 0u64);
                    assert(false);
                }
            }
        }
        r
    }

    /// Sets bit `i`.
    pub fn set_bit(&mut self, i: BitIndex)
        ensures
            *final (self) == old(self).spec_set(i as int),
            forall|j: int|
                0 <= j < 256 ==> final (self).spec_bit(j) == (j == i as int || old(self).spec_bit(
                    j,
                )),
    {
        let lane = (i / 64) as usize;
        let off = (i % 64) as u64;
        self.lanes[lane] = self.lanes[lane] | (1u64 << off);
        proof {
            broadcast use vstd::array::group_array_axioms;

            lemma_u64_set_bit(old(self).lanes[lane as int], off);
            assert forall|j: int|
                0 <= j < 256 implies self.spec_bit(j) == (j == i as int || old(self).spec_bit(
                j,
            )) by {
                old(self).lemma_lane_of_bit(j);
                self.lemma_lane_of_bit(j);
                assert(i as int == 64 * (lane as int) + off as int);
            }
            old(self).lemma_spec_set(i as int);
            assert(self.lanes =~= old(self).spec_set(i as int).lanes);
        }
    }

    /// Clears bit `i`.
    pub fn unset_bit(&mut self, i: BitIndex)
        ensures
            *final (self) == old(self).spec_unset(i as int),
            forall|j: int|
                0 <= j < 256 ==> final (self).spec_bit(j) == (j != i as int && old(self).spec_bit(
                    j,
                )),
    {
        let lane = (i / 64) as usize;
        let off = (i % 64) as u64;
        self.lanes[lane] = self.lanes[lane] & !(1u64 << off);
        proof {
            broadcast use vstd::array::group_array_axioms;

            lemma_u64_unset_bit(old(self).lanes[lane as int], off);
            assert forall|j: int|
                0 <= j < 256 implies self.spec_bit(j) == (j != i as int && old(self).spec_bit(
                j,
            )) by {
                old(self).lemma_lane_of_bit(j);
                self.lemma_lane_of_bit(j);
                assert(i as int == 64 * (lane as int) + off as int);
            }
            old(self).lemma_spec_unset(i as int);
            assert(self.lanes =~= old(self).spec_unset(i as int).lanes);
        }
    }

    /// Tests bit `i`.
    pub fn get_bit(&self, i: BitIndex) -> (r: bool)
        ensures
            r == self.spec_bit(i as int),
    {
        let lane = (i / 64) as usize;
        let off = (i % 64) as u64;
        (self.lanes[lane] >> off) & 1u64 == 1u64
    }

    /// Bitwise intersection.
    pub fn and(self, other: Self) -> (r: Self)
        ensures
            forall|i: int|
                0 <= i < 256 ==> r.spec_bit(i) == (self.spec_bit(i) && other.spec_bit(i)),
    {
        let r = Bitboard {
            lanes: [
                self.lanes[0] & other.lanes[0],
                self.lanes[1] & other.lanes[1],
                self.lanes[2] & other.lanes[2],
                self.lanes[3] & other.lanes[3],
            ],
        };
        proof {
            assert forall|i: int|
                0 <= i < 256 implies r.spec_bit(i) == (self.spec_bit(i) && other.spec_bit(i)) by {
                r.lemma_lane_of_bit(i);
                let l = i / 64;
                lemma_u64_and_bits(self.lanes[l], other.lanes[l]);
                assert(r.lanes[l] == self.lanes[l] & other.lanes[l]);
            }
        }
        r
    }

    /// Bitwise union.
    pub fn or(self, other: Self) -> (r: Self)
        ensures
            forall|i: int|
                0 <= i < 256 ==> r.spec_bit(i) == (self.spec_bit(i) || other.spec_bit(i)),
    {
        let r = Bitboard {
            lanes: [
                self.lanes[0] | other.lanes[0],
                self.lanes[1] | other.lanes[1],
                self.lanes[2] | other.lanes[2],
                self.lanes[3] | other.lanes[3],
            ],
        };
        proof {
            assert forall|i: int|
                0 <= i < 256 implies r.spec_bit(i) == (self.spec_bit(i) || other.spec_bit(i)) by {
                r.lemma_lane_of_bit(i);
                let l = i / 64;
                lemma_u64_or_bits(self.lanes[l], other.lanes[l]);
                assert(r.lanes[l] == self.lanes[l] | other.lanes[l]);
            }
        }
        r
    }

    /// Bitwise symmetric difference.
    pub fn xor(self, other: Self) -> (r: Self)
        ensures
            forall|i: int|
                0 <= i < 256 ==> r.spec_bit(i) == (self.spec_bit(i) != other.spec_bit(i)),
    {
        let r = Bitboard {
            lanes: [
                self.lanes[0] ^ other.lanes[0],
                self.lanes[1] ^ other.lanes[1],
                self.lanes[2] ^ other.lanes[2],
                self.lanes[3] ^ other.lanes[3],
            ],
        };
        proof {
            assert forall|i: int|
                0 <= i < 256 implies r.spec_bit(i) == (self.spec_bit(i) != other.spec_bit(i)) by {
                r.lemma_lane_of_bit(i);
                let l = i / 64;
                lemma_u64_xor_bits(self.lanes[l], other.lanes[l]);
                assert(r.lanes[l] == self.lanes[l] ^ other.lanes[l]);
            }
        }
        r
    }

    /// Bitwise complement.
    pub fn complement(self) -> (r: Self)
        ensures
            forall|i: int| 0 <= i < 256 ==> r.spec_bit(i) == !self.spec_bit(i),
    {
        let r = Bitboard {
            lanes: [!self.lanes[0], !self.lanes[1], !self.lanes[2], !self.lanes[3]],
        };
        proof {
            assert forall|i: int| 0 <= i < 256 implies r.spec_bit(i) == !self.spec_bit(i) by {
                r.lemma_lane_of_bit(i);
                let l = i / 64;
                lemma_u64_not_bits(self.lanes[l]);
                assert(r.lanes[l] == !self.lanes[l]);
            }
        }
        r
    }

    /// Full-width left shift by `bits` places (bit `i` moves to `i + bits`;
    /// the top `bits` bits are discarded).
    pub fn shl(self, bits: u8) -> (r: Self)
        requires
            0 < bits < 64,
        ensures
            forall|i: int|
                0 <= i < 256 ==> r.spec_bit(i) == (i - bits >= 0 && self.spec_bit(i - bits)),
    {
        let b = bits as u64;
        let c = 64 - b;
        let r = Bitboard {
            lanes: [
                self.lanes[0] << b,
                (self.lanes[1] << b) | (self.lanes[0] >> c),
                (self.lanes[2] << b) | (self.lanes[1] >> c),
                (self.lanes[3] << b) | (self.lanes[2] >> c),
            ],
        };
        proof {
            assert forall|i: int|
                0 <= i < 256 implies r.spec_bit(i) == (i - bits >= 0 && self.spec_bit(
                i - bits,
            )) by {
                r.lemma_lane_of_bit(i);
                let l = i / 64;
                let k = (i % 64) as u64;
                if l == 0 {
                    lemma_u64_shl_low(self.lanes[0], b);
                    if k >= b {
                        self.lemma_lane_of_bit(i - bits);
                        assert((i - bits) / 64 == 0 && (i - bits) % 64 == k - b);
                    }
                } else {
                    lemma_u64_shl_carry(self.lanes[l], self.lanes[l - 1], b, c);
                    assert(r.lanes[l] == (self.lanes[l] << b) | (self.lanes[l - 1] >> c));
                    if k >= b {
                        self.lemma_lane_of_bit(i - bits);
                        assert((i - bits) / 64 == l && (i - bits) % 64 == k - b);
                    } else {
                        self.lemma_lane_of_bit(i - bits);
                        assert((i - bits) / 64 == l - 1 && (i - bits) % 64 == 64 + k - b);
                    }
                }
            }
        }
        r
    }

    /// Full-width right shift by `bits` places (bit `i` moves to `i - bits`;
    /// the bottom `bits` bits are discarded).
    pub fn shr(self, bits: u8) -> (r: Self)
        requires
            0 < bits < 64,
        ensures
            forall|i: int|
                0 <= i < 256 ==> r.spec_bit(i) == (i + bits < 256 && self.spec_bit(i + bits)),
    {
        let b = bits as u64;
        let c = 64 - b;
        let r = Bitboard {
            lanes: [
                (self.lanes[0] >> b) | (self.lanes[1] << c),
                (self.lanes[1] >> b) | (self.lanes[2] << c),
                (self.lanes[2] >> b) | (self.lanes[3] << c),
                self.lanes[3] >> b,
            ],
        };
        proof {
            assert forall|i: int|
                0 <= i < 256 implies r.spec_bit(i) == (i + bits < 256 && self.spec_bit(
                i + bits,
            )) by {
                r.lemma_lane_of_bit(i);
                let l = i / 64;
                let k = (i % 64) as u64;
                if l == 3 {
                    lemma_u64_shr_high(self.lanes[3], b);
                    if k + b < 64 {
                        self.lemma_lane_of_bit(i + bits);
                        assert((i + bits) / 64 == 3 && (i + bits) % 64 == k + b);
                    }
                } else {
                    lemma_u64_shr_carry(self.lanes[l], self.lanes[l + 1], b, c);
                    assert(r.lanes[l] == (self.lanes[l] >> b) | (self.lanes[l + 1] << c));
                    if k + b < 64 {
                        self.lemma_lane_of_bit(i + bits);
                        assert((i + bits) / 64 == l && (i + bits) % 64 == k + b);
                    } else {
                        self.lemma_lane_of_bit(i + bits);
                        assert((i + bits) / 64 == l + 1 && (i + bits) % 64 == k + b - 64);
                    }
                }
            }
        }
        r
    }

    /// Removes and returns the least set bit, or `None` when the board is
    /// empty.
    pub fn pop(&mut self) -> (r: Option<BitIndex>)
        ensures
            match r {
                None => *final (self) == *old(self) && (forall|i: int|
                    0 <= i < 256 ==> !old(self).spec_bit(i)),
                Some(ix) => old(self).spec_bit(ix as int) && (forall|j: int|
                    0 <= j < ix as int ==> !old(self).spec_bit(j)) && (forall|j: int|
                    0 <= j < 256 ==> final (self).spec_bit(j) == (old(self).spec_bit(j) && j
                        != ix as int)),
            },
    {
        let mut i: usize = 0;
        while i < 4
            invariant
                i <= 4,
                *self == *old(self),
                forall|l: int| 0 <= l < i ==> self.lanes[l] == 0,
            decreases 4 - i,
        {
            if self.lanes[i] != 0 {
                let lane = self.lanes[i];
                proof {
                    vstd::std_specs::bits::axiom_u64_trailing_zeros(lane);
                }
                let t = lane.trailing_zeros();
                let index = 64 * (i as u8) + t as u8;
                self.lanes[i] = lane & (lane - 1);
                proof {
                    broadcast use vstd::array::group_array_axioms;

                    let ti = t as int;
                    lemma_u64_clear_lowest(lane, t as u64);
                    lemma_u64_zero_bits();
                    assert(index as int == 64 * (i as int) + ti);
                    assert(old(self).spec_bit(index as int)) by {
                        old(self).lemma_lane_of_bit(index as int);
                        assert((index as int) / 64 == i as int && (index as int) % 64 == ti);
                    }
                    assert forall|j: int| 0 <= j < index as int implies !old(self).spec_bit(j) by {
                        old(self).lemma_lane_of_bit(j);
                        if j / 64 < i as int {
                            assert(old(self).lanes[j / 64] == 0);
                        } else {
                            assert(j / 64 == i as int && j % 64 < ti);
                        }
                    }
                    assert forall|j: int| 0 <= j < 256 implies self.spec_bit(j) == (old(
                        self,
                    ).spec_bit(j) && j != index as int) by {
                        old(self).lemma_lane_of_bit(j);
                        self.lemma_lane_of_bit(j);
                        if j / 64 == i as int {
                            assert(self.lanes[j / 64] == lane & ((lane - 1) as u64));
                        }
                    }
                }
                return Some(index);
            }
            i += 1;
        }
        proof {
            lemma_u64_zero_bits();
            assert forall|j: int| 0 <= j < 256 implies !old(self).spec_bit(j) by {
                old(self).lemma_lane_of_bit(j);
            }
        }
        None
    }

    /// Iterator over the set bits, least significant first.
    pub fn ones(self) -> (r: OnesIterator)
        ensures
            r.spec_remaining() == self,
    {
        OnesIterator { bb: self }
    }

    /// The number of set bits.
    pub fn popcount(self) -> (r: usize)
        ensures
            r == self.bits().len(),
    {
        proof {
            lemma_bits_finite(self);
        }
        let mut rest = self;
        let mut count: usize = 0;
        loop
            invariant
                rest.bits().finite(),
                rest.bits().len() <= 256,
                self.bits().len() <= 256,
                count + rest.bits().len() == self.bits().len(),
            ensures
                count == self.bits().len(),
            decreases rest.bits().len(),
        {
            let ghost prev = rest;
            match rest.pop() {
                Some(ix) => {
                    proof {
                        assert(rest.bits() =~= prev.bits().remove(ix as int));
                        lemma_bits_finite(rest);
                    }
                    count = count + 1;
                },
                None => {
                    proof {
                        assert(rest.bits() =~= Set::<int>::empty());
                    }
                    break ;
                },
            }
        }
        count
    }
}

/// Every board holds a finite set of at most 256 bits.
pub proof fn lemma_bits_finite(b: Bitboard)
    ensures
        b.bits().finite(),
        b.bits().len() <= 256,
{
    let range = vstd::set_lib::set_int_range(0, 256);
    vstd::set_lib::lemma_int_range(0, 256);
    assert(b.bits().subset_of(range));
    vstd::set_lib::lemma_len_subset(b.bits(), range);
}

/// A strictly larger set of bits has a strictly larger count.
pub proof fn lemma_bits_card_strict(a: Bitboard, b: Bitboard)
    requires
        forall|i: int| 0 <= i < 256 ==> (a.spec_bit(i) ==> b.spec_bit(i)),
        a != b,
    ensures
        a.bits().len() < b.bits().len(),
{
    lemma_bits_finite(a);
    lemma_bits_finite(b);
    if forall|i: int| 0 <= i < 256 ==> a.spec_bit(i) == b.spec_bit(i) {
        Bitboard::lemma_bit_ext(a, b);
        assert(false);
    }
    let w = choose|i: int| 0 <= i < 256 && a.spec_bit(i) != b.spec_bit(i);
    assert(!a.spec_bit(w) && b.spec_bit(w));
    assert(a.bits().subset_of(b.bits().remove(w)));
    vstd::set_lib::lemma_len_subset(a.bits(), b.bits().remove(w));
    assert(b.bits().remove(w).len() == b.bits().len() - 1);
}

impl Default for Bitboard {
    /// The empty board.
    fn default() -> (r: Self)
        ensures
            forall|i: int| 0 <= i < 256 ==> !r.spec_bit(i),
    {
        Bitboard::empty()
    }
}

/// Leftmost playing column of row `y`.
pub open spec fn spec_row_left(y: int) -> int {
    if y == 0 || y == 16 {
        6
    } else if y == 1 || y == 15 {
        6
    } else if y == 2 || y == 14 {
        5
    } else if y == 3 || y == 13 {
        5
    } else if y == 4 || y == 12 {
        0
    } else if y == 5 || y == 11 {
        1
    } else if y == 6 || y == 10 {
        1
    } else if y == 7 || y == 9 {
        2
    } else {
        2
    }
}

/// Rightmost playing column of row `y`.
pub open spec fn spec_row_right(y: int) -> int {
    if y == 0 || y == 16 {
        6
    } else if y == 1 || y == 15 {
        7
    } else if y == 2 || y == 14 {
        7
    } else if y == 3 || y == 13 {
        8
    } else if y == 4 || y == 12 {
        12
    } else if y == 5 || y == 11 {
        12
    } else if y == 6 || y == 10 {
        11
    } else if y == 7 || y == 9 {
        11
    } else {
        10
    }
}

/// True when column `x` of row `y` is a playing cell of the star.
pub open spec fn spec_valid_loc(x: int, y: int) -> bool {
    0 <= y < 17 && spec_row_left(y) <= x <= spec_row_right(y)
}

/// `spec_valid_loc` over 64-bit words, for the mask proof below.  A pair
/// of rows spans 27 indices: 13 for the even row, then 14 for the odd
/// row, whose 14th slot is never a playing cell.
spec fn bv_valid(i: u64) -> bool {
    let q = i / 27;
    let r = i % 27;
    let x = (if r < 13 { r } else { (r - 13) as u64 });
    let y = (if r < 13 { (2 * q) as u64 } else { (2 * q + 1) as u64 });
    y < 17 && bv_row_left(y) <= x && x <= bv_row_right(y)
}

spec fn bv_row_left(y: u64) -> u64 {
    if y == 0 || y == 16 {
        6
    } else if y == 1 || y == 15 {
        6
    } else if y == 2 || y == 14 {
        5
    } else if y == 3 || y == 13 {
        5
    } else if y == 4 || y == 12 {
        0
    } else if y == 5 || y == 11 {
        1
    } else if y == 6 || y == 10 {
        1
    } else if y == 7 || y == 9 {
        2
    } else {
        2
    }
}

spec fn bv_row_right(y: u64) -> u64 {
    if y == 0 || y == 16 {
        6
    } else if y == 1 || y == 15 {
        7
    } else if y == 2 || y == 14 {
        7
    } else if y == 3 || y == 13 {
        8
    } else if y == 4 || y == 12 {
        12
    } else if y == 5 || y == 11 {
        12
    } else if y == 6 || y == 10 {
        11
    } else if y == 7 || y == 9 {
        11
    } else {
        10
    }
}

proof fn lemma_invalid_mask_lanes()
    by (bit_vector)
    ensures
        forall|k: u64|
            #![trigger (0b00000000_00111110_00011111_11111000_11111111_11100111_11111111_10111111u64 >> k)]
            k < 64 ==> u64_bit(
                0b00000000_00111110_00011111_11111000_11111111_11100111_11111111_10111111u64,
                k,
            ) == !bv_valid(k),
        forall|k: u64|
            #![trigger (0b00000111_10000000_00111100_00000000_11100000_00000011_00000000_00001000u64 >> k)]
            k < 64 ==> u64_bit(
                0b00000111_10000000_00111100_00000000_11100000_00000011_00000000_00001000u64,
                k,
            ) == !bv_valid((k + 64) as u64),
        forall|k: u64|
            #![trigger (0b11111111_00001111_10000000_00000010_00000000_00011000_00000000_11100000u64 >> k)]
            k < 64 ==> u64_bit(
                0b11111111_00001111_10000000_00000010_00000000_00011000_00000000_11100000u64,
                k,
            ) == !bv_valid((k + 128) as u64),
        forall|k: u64|
            #![trigger (0b11111111_11111111_11111111_11111111_10111111_11111100_11111111_11100011u64 >> k)]
            k < 64 ==> u64_bit(
                0b11111111_11111111_11111111_11111111_10111111_11111100_11111111_11100011u64,
                k,
            ) == !bv_valid((k + 192) as u64),
{
}

/// The invalid mask agrees with the row geometry: the cell of a
/// coordinate pair inside the 13 by 17 grid is valid exactly when the
/// column lies between the row's bounds.
pub proof fn lemma_valid_cell_at(x: int, y: int)
    requires
        0 <= x < 13,
        0 <= y < 17,
    ensures
        spec_valid_cell(spec_pos_to_index(x, y)) == spec_valid_loc(x, y),
{
    lemma_pos_index_round_trip(x, y);
    let i = spec_pos_to_index(x, y);
    let m = spec_invalid_cells();
    lemma_invalid_mask_lanes();
    let l = i / 64;
    let k = (i % 64) as u64;
    m.lemma_lane_of_bit(i);
    assert(m.spec_bit(i) == !bv_valid(i as u64)) by {
        assert(i == 64 * l + k);
    }
    let iu = i as u64;
    let q = iu / 27;
    let r = iu % 27;
    assert(q == i / 27 && r == i % 27);
    let b = (y % 2) * 13 + x;
    assert(i == (y / 2) * 27 + b);
    assert(i / 27 == y / 2 && i % 27 == b) by (nonlinear_arith)
        requires
            i == (y / 2) * 27 + b,
            0 <= b < 27,
            0 <= y / 2 <= 8,
    ;
    if y % 2 == 0 {
        assert(r < 13 && r == x && 2 * q == y);
    } else {
        assert(r >= 13 && r - 13 == x && 2 * q + 1 == y);
    }
    assert(bv_row_left(y as u64) == spec_row_left(y) && bv_row_right(y as u64) == spec_row_right(
        y,
    ));
}

/// A valid cell's coordinates lie inside the 13 by 17 grid, form a
/// playing location, and convert back to the same index.
pub proof fn lemma_valid_cell_bounds(i: int)
    requires
        spec_valid_cell(i),
    ensures
        0 <= spec_index_to_pos(i).0 < 13,
        0 <= spec_index_to_pos(i).1 < 17,
        spec_valid_loc(spec_index_to_pos(i).0, spec_index_to_pos(i).1),
        spec_pos_to_index(spec_index_to_pos(i).0, spec_index_to_pos(i).1) == i,
{
    let m = spec_invalid_cells();
    lemma_invalid_mask_lanes();
    let l = i / 64;
    let k = (i % 64) as u64;
    m.lemma_lane_of_bit(i);
    assert(m.spec_bit(i) == !bv_valid(i as u64)) by {
        assert(i == 64 * l + k);
    }
    assert(bv_valid(i as u64));
    let iu = i as u64;
    let q = iu / 27;
    let r = iu % 27;
    assert(q == i / 27 && r == i % 27);
    assert(i == 27 * (i / 27) + i % 27);
    let x = spec_index_to_pos(i).0;
    let y = spec_index_to_pos(i).1;
    if r < 13 {
        assert(x == r && y == 2 * q);
        assert(bv_row_left((2 * q) as u64) == spec_row_left(y) && bv_row_right((2 * q) as u64)
            == spec_row_right(y));
        assert(spec_pos_to_index(x, y) == (y / 2) * 27 + (y % 2) * 13 + x);
        assert(y / 2 == q && y % 2 == 0) by (nonlinear_arith)
            requires
                y == 2 * q,
                q >= 0,
        ;
    } else {
        assert(x == (r - 13) % 13 && y == 2 * q + 1);
        assert(r <= 26);
        if r == 26 {
            assert(!bv_valid(iu));
        }
        assert(x == r - 13);
        assert(bv_row_left((2 * q + 1) as u64) == spec_row_left(y) && bv_row_right(
            (2 * q + 1) as u64,
        ) == spec_row_right(y));
        assert(y / 2 == q && y % 2 == 1) by (nonlinear_arith)
            requires
                y == 2 * q + 1,
                q >= 0,
        ;
    }
}

/// The fixed mask of the 135 indices that are not playing cells.
pub closed spec fn spec_invalid_cells() -> Bitboard {
    Bitboard {
        lanes: [
            0b00000000_00111110_00011111_11111000_11111111_11100111_11111111_10111111u64,
            0b00000111_10000000_00111100_00000000_11100000_00000011_00000000_00001000u64,
            0b11111111_00001111_10000000_00000010_00000000_00011000_00000000_11100000u64,
            0b11111111_11111111_11111111_11111111_10111111_11111100_11111111_11100011u64,
        ],
    }
}

/// True when `i` is one of the 121 playing cells.
pub open spec fn spec_valid_cell(i: int) -> bool {
    0 <= i < 256 && !spec_invalid_cells().spec_bit(i)
}

/// The mask of indices that are not playing cells.
pub fn invalid_cells() -> (r: Bitboard)
    ensures
        r == spec_invalid_cells(),
{
    Bitboard {
        lanes: [
            0b00000000_00111110_00011111_11111000_11111111_11100111_11111111_10111111u64,
            0b00000111_10000000_00111100_00000000_11100000_00000011_00000000_00001000u64,
            0b11111111_00001111_10000000_00000010_00000000_00011000_00000000_11100000u64,
            0b11111111_11111111_11111111_11111111_10111111_11111100_11111111_11100011u64,
        ],
    }
}

/// The goal triangle of `player`: the 15 cells the player's pieces must
/// reach to win.
pub closed spec fn spec_target_cells(player: int) -> Bitboard {
    if player == 0 {
        Bitboard {
            lanes: [
                0u64,
                0u64,
                0b00000000_11110000_00000111_11000000_00000000_00000000_00000000_00000000u64,
                0b00000000_00000000_00000000_00000000_01000000_00000011_00000000_00011100u64,
            ],
        }
    } else {
        Bitboard {
            lanes: [
                0b01111100_00000001_11100000_00000111_00000000_00011000_00000000_01000000u64,
                0u64,
                0u64,
                0u64,
            ],
        }
    }
}

/// The goal triangle mask of `player`.
pub fn target_cells(player: u8) -> (r: Bitboard)
    requires
        player < 2,
    ensures
        r == spec_target_cells(player as int),
{
    if player == 0 {
        Bitboard {
            lanes: [
                0u64,
                0u64,
                0b00000000_11110000_00000111_11000000_00000000_00000000_00000000_00000000u64,
                0b00000000_00000000_00000000_00000000_01000000_00000011_00000000_00011100u64,
            ],
        }
    } else {
        Bitboard {
            lanes: [
                0b01111100_00000001_11100000_00000111_00000000_00011000_00000000_01000000u64,
                0u64,
                0u64,
                0u64,
            ],
        }
    }
}

/// Iterator over the set bits of a board, least significant first.
pub struct OnesIterator {
    bb: Bitboard,
}

impl OnesIterator {
    /// The bits not yet yielded.
    pub closed spec fn spec_remaining(self) -> Bitboard {
        self.bb
    }

    /// Yields the least remaining bit, or `None` when all bits have been
    /// yielded.
    pub fn next(&mut self) -> (r: Option<BitIndex>)
        ensures
            match r {
                None => *final (self) == *old(self) && (forall|i: int|
                    0 <= i < 256 ==> !old(self).spec_remaining().spec_bit(i)),
                Some(ix) => old(self).spec_remaining().spec_bit(ix as int) && (forall|j: int|
                    0 <= j < ix as int ==> !old(self).spec_remaining().spec_bit(j)) && (forall|
                    j: int,
                |
                    0 <= j < 256 ==> final (self).spec_remaining().spec_bit(j) == (old(
                        self,
                    ).spec_remaining().spec_bit(j) && j != ix as int)),
            },
    {
        self.bb.pop()
    }
}

} // verus!
