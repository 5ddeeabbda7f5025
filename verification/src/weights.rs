use vstd::prelude::*;
use crate::slide::{
    SlideBoard, lemma_adj_bounds, lemma_empty_bounds, lemma_max_bounds, lemma_rough_bounds,
    spec_adjacent, spec_empty, spec_max_value, spec_rough,
};

verus! {

// The weighted scorer and the quantized projection of weight vectors.
//
// Coefficients are fixed-point numbers in thousandths (a coefficient of
// 1500 means 1.5), so range enumeration is exact and repeatable. The
// quantized key keeps one part in ten of a unit: coefficients that agree
// at that resolution collapse to one key.

/// Largest coefficient, in thousandths: weights above one thousand units
/// serve no feature and would overflow the scorer's 64-bit accumulation.
pub const COEFF_LIMIT: u64 = 1_000_000;

/// Thousandths per quantization cell: the key keeps tenths of a unit.
pub const QUANT_UNIT: u64 = 100;

/// One coefficient per feature of the sliding board, in thousandths.
#[derive(Copy, Clone, Debug, PartialEq, Eq, Structural)]
pub struct Weights {
    pub max_value: u64,
    pub adjacent: u64,
    pub empty_cells: u64,
    pub smoothness: u64,
}

/// The quantized projection of a weight vector: each coefficient divided
/// by the quantization unit, truncated.
#[derive(Copy, Clone, Debug, PartialEq, Eq, Hash, Structural)]
pub struct QuantKey {
    pub max_value: u64,
    pub adjacent: u64,
    pub empty_cells: u64,
    pub smoothness: u64,
}

impl Weights {
    pub open spec fn wf(&self) -> bool {
        &&& self.max_value <= COEFF_LIMIT
        &&& self.adjacent <= COEFF_LIMIT
        &&& self.empty_cells <= COEFF_LIMIT
        &&& self.smoothness <= COEFF_LIMIT
    }

    /// A weight vector from the four coefficients, in thousandths.
    pub fn new(max_value: u64, adjacent: u64, empty_cells: u64, smoothness: u64) -> (w: Weights)
        requires
            max_value <= COEFF_LIMIT,
            adjacent <= COEFF_LIMIT,
            empty_cells <= COEFF_LIMIT,
            smoothness <= COEFF_LIMIT,
        ensures
            w == (Weights { max_value, adjacent, empty_cells, smoothness }),
            w.wf(),
    {
        Weights { max_value, adjacent, empty_cells, smoothness }
    }
}

/// The trivial scorer: every coefficient zero, so every state scores
/// zero. It stands in for the no-op evaluation of pure-random or
/// fixed-heuristic agents, as an explicit variant rather than a missing
/// case.
pub fn trivial_weights() -> (w: Weights)
    ensures
        w == (Weights { max_value: 0u64, adjacent: 0u64, empty_cells: 0u64, smoothness: 0u64 }),
        w.wf(),
{
    Weights { max_value: 0, adjacent: 0, empty_cells: 0, smoothness: 0 }
}

/// Under the trivial scorer every board scores zero.
pub proof fn lemma_trivial_scorer(b: Seq<u32>)
    ensures
        spec_score(b, Weights { max_value: 0u64, adjacent: 0u64, empty_cells: 0u64, smoothness: 0u64 }) == 0,
{
    let w = Weights { max_value: 0u64, adjacent: 0u64, empty_cells: 0u64, smoothness: 0u64 };
    assert(spec_max_value(b) * w.max_value == 0) by (nonlinear_arith)
        requires w.max_value == 0,
    ;
    assert(spec_adjacent(b) * w.adjacent == 0) by (nonlinear_arith)
        requires w.adjacent == 0,
    ;
    assert(spec_empty(b) * w.empty_cells == 0) by (nonlinear_arith)
        requires w.empty_cells == 0,
    ;
    assert(spec_rough(b) * w.smoothness == 0) by (nonlinear_arith)
        requires w.smoothness == 0,
    ;
}

/// The weighted score of a board: every feature value times its
/// coefficient, summed. The result is in thousandths, so no precision is
/// lost to truncation; all features add, and the roughness penalty is
/// tamed by giving it a small coefficient.
pub open spec fn spec_score(b: Seq<u32>, w: Weights) -> int {
    spec_max_value(b) * w.max_value
        + spec_adjacent(b) * w.adjacent
        + spec_empty(b) * w.empty_cells
        + spec_rough(b) * w.smoothness
}

/// Weighted score of a board under a weight vector, in thousandths.
/// Total over every well-formed board; pure, with no side effects.
pub fn score(board: &SlideBoard, weights: &Weights) -> (s: u64)
    requires
        board.wf(),
        weights.wf(),
    ensures
        s as int == spec_score(board@, *weights),
{
    let maxv = board.max_value() as u64;
    let adj = board.adjacent_bonus();
    let empty = board.empty_cells() as u64;
    let rough = board.roughness();
    proof {
        lemma_max_bounds(board@, 0);
        lemma_adj_bounds(board@, 0);
        lemma_empty_bounds(board@, 0);
        lemma_rough_bounds(board@, 0);
        assert(maxv as int * weights.max_value as int <= 0xffff_ffffi64 as int * 1_000_000) by (nonlinear_arith)
            requires
                0 <= maxv as int <= 0xffff_ffffi64 as int,
                0 <= weights.max_value as int <= 1_000_000,
        ;
        assert(adj as int * weights.adjacent as int <= 137438953440 * 1_000_000) by (nonlinear_arith)
            requires
                0 <= adj as int <= 137438953440,
                0 <= weights.adjacent as int <= 1_000_000,
        ;
        assert(empty as int * weights.empty_cells as int <= 16 * 1_000_000) by (nonlinear_arith)
            requires
                0 <= empty as int <= 16,
                0 <= weights.empty_cells as int <= 1_000_000,
        ;
        assert(rough as int * weights.smoothness as int <= 137438953440 * 1_000_000) by (nonlinear_arith)
            requires
                0 <= rough as int <= 137438953440,
                0 <= weights.smoothness as int <= 1_000_000,
        ;
    }
    maxv * weights.max_value + adj * weights.adjacent + empty * weights.empty_cells
        + rough * weights.smoothness
}

/// Feature monotonicity: with every other coefficient held fixed, raising
/// the empty-cells coefficient strictly raises the score of a fixed board
/// exactly when the board has at least one empty cell.
pub proof fn lemma_empty_weight_monotonicity(b: Seq<u32>, w1: Weights, w2: Weights)
    requires
        w1.max_value == w2.max_value,
        w1.adjacent == w2.adjacent,
        w1.smoothness == w2.smoothness,
        w1.empty_cells < w2.empty_cells,
    ensures
        spec_score(b, w2) > spec_score(b, w1) <==> spec_empty(b) > 0,
{
    lemma_empty_bounds(b, 0);
    let e = spec_empty(b);
    let d1 = w1.empty_cells as int;
    let d2 = w2.empty_cells as int;
    let m = spec_max_value(b);
    let aj = spec_adjacent(b);
    let r = spec_rough(b);
    assert(spec_score(b, w1) == m * w1.max_value + aj * w1.adjacent + e * d1 + r * w1.smoothness);
    assert(spec_score(b, w2) == m * w2.max_value + aj * w2.adjacent + e * d2 + r * w2.smoothness);
    assert(spec_score(b, w2) - spec_score(b, w1) == e * d2 - e * d1);
    assert(e * d2 - e * d1 > 0 <==> e > 0) by (nonlinear_arith)
        requires
            0 <= e,
            d1 < d2,
    ;
}

/// Key coordinate of one coefficient: truncated division by the unit.
pub open spec fn quant_coord(x: u64) -> u64 {
    ((x as int) / (QUANT_UNIT as int)) as u64
}

pub open spec fn spec_quantize(w: Weights) -> QuantKey {
    QuantKey {
        max_value: quant_coord(w.max_value),
        adjacent: quant_coord(w.adjacent),
        empty_cells: quant_coord(w.empty_cells),
        smoothness: quant_coord(w.smoothness),
    }
}

pub open spec fn spec_dequantize(k: QuantKey) -> Weights {
    Weights {
        max_value: (k.max_value as int * QUANT_UNIT as int) as u64,
        adjacent: (k.adjacent as int * QUANT_UNIT as int) as u64,
        empty_cells: (k.empty_cells as int * QUANT_UNIT as int) as u64,
        smoothness: (k.smoothness as int * QUANT_UNIT as int) as u64,
    }
}

/// The quantized key of a weight vector: each coefficient scaled down to
/// tenths of a unit and truncated, so vectors that agree at that
/// resolution collapse to one key.
pub fn quantize(w: &Weights) -> (k: QuantKey)
    ensures
        k == spec_quantize(*w),
{
    proof {
        vstd::arithmetic::div_mod::lemma_div_is_ordered(0, w.max_value as int, 100);
        vstd::arithmetic::div_mod::lemma_div_is_ordered(w.max_value as int, u64::MAX as int, 100);
        vstd::arithmetic::div_mod::lemma_div_is_ordered(0, w.adjacent as int, 100);
        vstd::arithmetic::div_mod::lemma_div_is_ordered(w.adjacent as int, u64::MAX as int, 100);
        vstd::arithmetic::div_mod::lemma_div_is_ordered(0, w.empty_cells as int, 100);
        vstd::arithmetic::div_mod::lemma_div_is_ordered(w.empty_cells as int, u64::MAX as int, 100);
        vstd::arithmetic::div_mod::lemma_div_is_ordered(0, w.smoothness as int, 100);
        vstd::arithmetic::div_mod::lemma_div_is_ordered(w.smoothness as int, u64::MAX as int, 100);
    }
    QuantKey {
        max_value: w.max_value / QUANT_UNIT,
        adjacent: w.adjacent / QUANT_UNIT,
        empty_cells: w.empty_cells / QUANT_UNIT,
        smoothness: w.smoothness / QUANT_UNIT,
    }
}

/// The weight vector a key stands for, by inverse scaling.
pub fn dequantize(k: &QuantKey) -> (w: Weights)
    requires
        k.max_value <= COEFF_LIMIT / QUANT_UNIT,
        k.adjacent <= COEFF_LIMIT / QUANT_UNIT,
        k.empty_cells <= COEFF_LIMIT / QUANT_UNIT,
        k.smoothness <= COEFF_LIMIT / QUANT_UNIT,
    ensures
        w == spec_dequantize(*k),
        w.wf(),
{
    Weights {
        max_value: k.max_value * QUANT_UNIT,
        adjacent: k.adjacent * QUANT_UNIT,
        empty_cells: k.empty_cells * QUANT_UNIT,
        smoothness: k.smoothness * QUANT_UNIT,
    }
}

/// A key whose coordinates can be scaled back to coefficients in limit.
pub open spec fn key_in_limit(k: QuantKey) -> bool {
    &&& k.max_value <= COEFF_LIMIT / QUANT_UNIT
    &&& k.adjacent <= COEFF_LIMIT / QUANT_UNIT
    &&& k.empty_cells <= COEFF_LIMIT / QUANT_UNIT
    &&& k.smoothness <= COEFF_LIMIT / QUANT_UNIT
}

/// The key of a well-formed weight vector stays within the key limit.
pub proof fn lemma_quantize_in_limit(w: Weights)
    requires
        w.wf(),
    ensures
        key_in_limit(spec_quantize(w)),
{
    vstd::arithmetic::div_mod::lemma_div_is_ordered(0, w.max_value as int, 100);
    vstd::arithmetic::div_mod::lemma_div_is_ordered(w.max_value as int, COEFF_LIMIT as int, 100);
    vstd::arithmetic::div_mod::lemma_div_is_ordered(0, w.adjacent as int, 100);
    vstd::arithmetic::div_mod::lemma_div_is_ordered(w.adjacent as int, COEFF_LIMIT as int, 100);
    vstd::arithmetic::div_mod::lemma_div_is_ordered(0, w.empty_cells as int, 100);
    vstd::arithmetic::div_mod::lemma_div_is_ordered(w.empty_cells as int, COEFF_LIMIT as int, 100);
    vstd::arithmetic::div_mod::lemma_div_is_ordered(0, w.smoothness as int, 100);
    vstd::arithmetic::div_mod::lemma_div_is_ordered(w.smoothness as int, COEFF_LIMIT as int, 100);
}

/// Two coefficients in one quantization cell: the later one stays under
/// the next cell boundary.
pub open spec fn coord_close(a: u64, b: u64) -> bool {
    &&& a <= b ==> b - a < QUANT_UNIT - (a as int) % (QUANT_UNIT as int)
    &&& b <= a ==> a - b < QUANT_UNIT - (b as int) % (QUANT_UNIT as int)
}

proof fn lemma_coord_same_bucket(x: u64, y: u64)
    requires
        coord_close(x, y),
    ensures
        quant_coord(x) == quant_coord(y),
{
    let (a, b) = if x <= y { (x as int, y as int) } else { (y as int, x as int) };
    vstd::arithmetic::div_mod::lemma_fundamental_div_mod(a, 100);
    vstd::arithmetic::div_mod::lemma_mod_division_less_than_divisor(a, 100);
    let q = a / 100;
    assert(a == 100 * q + a % 100);
    assert(b < 100 * q + 100);
    assert(b == 100 * q + (b - 100 * q));
    vstd::arithmetic::div_mod::lemma_div_multiples_vanish_fancy(q, b - 100 * q, 100);
    assert(b / 100 == q);
}

proof fn lemma_coord_separate(x: u64, y: u64)
    requires
        x + QUANT_UNIT <= y,
    ensures
        quant_coord(x) < quant_coord(y),
{
    let a = x as int;
    let b = y as int;
    vstd::arithmetic::div_mod::lemma_fundamental_div_mod(a, 100);
    vstd::arithmetic::div_mod::lemma_mod_division_less_than_divisor(a, 100);
    let q = a / 100;
    assert(b >= 100 * (q + 1));
    vstd::arithmetic::div_mod::lemma_div_multiples_vanish(q + 1, 100);
    vstd::arithmetic::div_mod::lemma_div_is_ordered(100 * (q + 1), b, 100);
    assert(b / 100 >= q + 1);
}

/// Quantization collapses near-equal vectors: two weight vectors whose
/// coefficients differ by less than the quantization resolution in every
/// coordinate, without crossing a cell boundary, have the same key.
/// (A pair that straddles a boundary, such as 0.09 and 0.11 at resolution
/// 0.1, quantizes apart; the claim holds away from the boundaries.)
pub proof fn lemma_quantize_within_resolution(w1: Weights, w2: Weights)
    requires
        coord_close(w1.max_value, w2.max_value),
        coord_close(w1.adjacent, w2.adjacent),
        coord_close(w1.empty_cells, w2.empty_cells),
        coord_close(w1.smoothness, w2.smoothness),
    ensures
        spec_quantize(w1) == spec_quantize(w2),
{
    lemma_coord_same_bucket(w1.max_value, w2.max_value);
    lemma_coord_same_bucket(w1.adjacent, w2.adjacent);
    lemma_coord_same_bucket(w1.empty_cells, w2.empty_cells);
    lemma_coord_same_bucket(w1.smoothness, w2.smoothness);
}

/// Quantization separates distinct vectors: two weight vectors that differ
/// by at least one full resolution unit in some coordinate have different
/// keys.
pub proof fn lemma_quantize_separates(w1: Weights, w2: Weights)
    requires
        ({
            ||| w1.max_value + QUANT_UNIT <= w2.max_value
            ||| w2.max_value + QUANT_UNIT <= w1.max_value
            ||| w1.adjacent + QUANT_UNIT <= w2.adjacent
            ||| w2.adjacent + QUANT_UNIT <= w1.adjacent
            ||| w1.empty_cells + QUANT_UNIT <= w2.empty_cells
            ||| w2.empty_cells + QUANT_UNIT <= w1.empty_cells
            ||| w1.smoothness + QUANT_UNIT <= w2.smoothness
            ||| w2.smoothness + QUANT_UNIT <= w1.smoothness
        }),
    ensures
        spec_quantize(w1) != spec_quantize(w2),
{
    if w1.max_value + QUANT_UNIT <= w2.max_value {
        lemma_coord_separate(w1.max_value, w2.max_value);
    } else if w2.max_value + QUANT_UNIT <= w1.max_value {
        lemma_coord_separate(w2.max_value, w1.max_value);
    } else if w1.adjacent + QUANT_UNIT <= w2.adjacent {
        lemma_coord_separate(w1.adjacent, w2.adjacent);
    } else if w2.adjacent + QUANT_UNIT <= w1.adjacent {
        lemma_coord_separate(w2.adjacent, w1.adjacent);
    } else if w1.empty_cells + QUANT_UNIT <= w2.empty_cells {
        lemma_coord_separate(w1.empty_cells, w2.empty_cells);
    } else if w2.empty_cells + QUANT_UNIT <= w1.empty_cells {
        lemma_coord_separate(w2.empty_cells, w1.empty_cells);
    } else if w1.smoothness + QUANT_UNIT <= w2.smoothness {
        lemma_coord_separate(w1.smoothness, w2.smoothness);
    } else {
        lemma_coord_separate(w2.smoothness, w1.smoothness);
    }
}

/// Quantization is idempotent through reconstruction: the key of the
/// vector a key stands for is that key again.
pub proof fn lemma_quantize_roundtrip(k: QuantKey)
    requires
        k.max_value <= COEFF_LIMIT / QUANT_UNIT,
        k.adjacent <= COEFF_LIMIT / QUANT_UNIT,
        k.empty_cells <= COEFF_LIMIT / QUANT_UNIT,
        k.smoothness <= COEFF_LIMIT / QUANT_UNIT,
    ensures
        spec_quantize(spec_dequantize(k)) == k,
{
    vstd::arithmetic::div_mod::lemma_div_multiples_vanish(k.max_value as int, 100);
    vstd::arithmetic::div_mod::lemma_div_multiples_vanish(k.adjacent as int, 100);
    vstd::arithmetic::div_mod::lemma_div_multiples_vanish(k.empty_cells as int, 100);
    vstd::arithmetic::div_mod::lemma_div_multiples_vanish(k.smoothness as int, 100);
}

} // verus!
