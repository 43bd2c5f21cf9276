//! Rarity weights: reading them out of option identifiers, building the
//! cumulative table of a layer, and picking an option by a draw.
//!
//! An identifier carries its weight in markers: a `#` followed by decimal
//! digits. An option with no readable marker has weight 1.

use crate::text::{chars_of, names};
use rand::distributions::Uniform;
use rand::Rng;
use vstd::prelude::*;

verus! {

/// Whether `c` is one of the ten decimal digits.
pub open spec fn is_digit(c: char) -> bool {
    '0' <= c <= '9'
}

/// The number that a decimal digit stands for.
pub open spec fn digit_value(c: char) -> nat {
    (c as int - '0' as int) as nat
}

/// Where the run of digits that begins at `from` ends.
pub open spec fn digits_end(s: Seq<char>, from: int) -> int
    decreases s.len() - from,
{
    if from >= s.len() || !is_digit(s[from]) {
        from
    } else {
        digits_end(s, from + 1)
    }
}

/// The number written in decimal by the characters of `s` from `from` up to,
/// not including, `to`.
pub open spec fn decimal_value(s: Seq<char>, from: int, to: int) -> nat
    decreases to - from,
{
    if to <= from {
        0
    } else {
        decimal_value(s, from, to - 1) * 10 + digit_value(s[to - 1])
    }
}

/// The weight that a marker at position `at` carries: `s` has a `#` there,
/// at least one digit follows, and the digits up to the next other character
/// write a number that fits 64 bits. Anything else is no marker.
pub open spec fn marker_at(s: Seq<char>, at: int) -> Option<nat> {
    let end = digits_end(s, at + 1);
    if 0 <= at < s.len() && s[at] == '#' && end > at + 1 && decimal_value(s, at + 1, end)
        <= u64::MAX {
        Some(decimal_value(s, at + 1, end))
    } else {
        None
    }
}

/// How many markers begin in front of position `upto`.
pub open spec fn marker_count(s: Seq<char>, upto: int) -> nat
    decreases upto,
{
    if upto <= 0 {
        0
    } else {
        marker_count(s, upto - 1) + if marker_at(s, upto - 1) is Some {
            1nat
        } else {
            0nat
        }
    }
}

/// The sum of the markers that begin in front of position `upto`.
pub open spec fn marker_sum(s: Seq<char>, upto: int) -> nat
    decreases upto,
{
    if upto <= 0 {
        0
    } else {
        marker_sum(s, upto - 1) + match marker_at(s, upto - 1) {
            Some(value) => value,
            None => 0,
        }
    }
}

/// The weight of an option: the sum of its markers, or 1 when it has none.
pub open spec fn option_weight(identifier: Seq<char>) -> nat {
    if marker_count(identifier, identifier.len() as int) == 0 {
        1
    } else {
        marker_sum(identifier, identifier.len() as int)
    }
}

/// The sum of the weights of the options of a layer.
pub open spec fn total_weight(layer: Seq<Seq<char>>) -> nat
    decreases layer.len(),
{
    if layer.len() == 0 {
        0
    } else {
        total_weight(layer.drop_last()) + option_weight(layer.last())
    }
}

/// `n` as a 64-bit number, with everything above the largest one held at it.
pub open spec fn clamp(n: nat) -> u64 {
    if n > u64::MAX {
        u64::MAX
    } else {
        n as u64
    }
}

/// Whether `table` and `total` are the cumulative weights of `layer`: entry
/// `i` is the weight of the options up to and including option `i`, and
/// `total` is the weight of them all, each held at the largest 64-bit number.
pub open spec fn is_weight_table(layer: Seq<Seq<char>>, table: Seq<u64>, total: u64) -> bool {
    &&& table.len() == layer.len()
    &&& forall|i: int| 0 <= i < layer.len() ==> table[i] == clamp(total_weight(layer.take(i + 1)))
    &&& total == clamp(total_weight(layer))
}

/// Whether a draw falls on option `index` of a cumulative table: its entry is
/// the first that is above the draw.
pub open spec fn selects(table: Seq<u64>, draw: u64, index: int) -> bool {
    &&& 0 <= index < table.len()
    &&& table[index] > draw
    &&& forall|k: int| 0 <= k < index ==> table[k] <= draw
}

/// Whether the entries of a table never go down.
pub open spec fn nondecreasing(table: Seq<u64>) -> bool {
    forall|i: int, j: int| 0 <= i <= j < table.len() ==> table[i] <= table[j]
}

/// The total weight of a layer does not go down when options are added.
pub proof fn lemma_total_weight_monotone(layer: Seq<Seq<char>>, i: int, j: int)
    requires
        0 <= i <= j <= layer.len(),
    ensures
        total_weight(layer.take(i)) <= total_weight(layer.take(j)),
    decreases j - i,
{
    if i < j {
        lemma_total_weight_monotone(layer, i, j - 1);
        assert(layer.take(j).drop_last() == layer.take(j - 1));
    }
}

/// A cumulative table never goes down, and its last entry is the total.
pub proof fn lemma_weight_table_shape(layer: Seq<Seq<char>>, table: Seq<u64>, total: u64)
    requires
        is_weight_table(layer, table, total),
    ensures
        nondecreasing(table),
        table.len() > 0 ==> table[table.len() - 1] == total,
{
    assert forall|i: int, j: int| 0 <= i <= j < table.len() implies table[i] <= table[j] by {
        lemma_total_weight_monotone(layer, i + 1, j + 1);
    }
    if table.len() > 0 {
        assert(layer.take(layer.len() as int) == layer);
    }
}

/// A draw falls on one option at most.
pub proof fn lemma_selects_unique(table: Seq<u64>, draw: u64, a: int, b: int)
    requires
        selects(table, draw, a),
        selects(table, draw, b),
    ensures
        a == b,
{
}

/// Every option gets as many draws as its weight.
///
/// In a layer whose total weight fits 64 bits, the draws that fall on an
/// option are the numbers from the weight of the options in front of it up
/// to, not including, that weight and its own.
pub proof fn lemma_draws_by_weight(
    layer: Seq<Seq<char>>,
    table: Seq<u64>,
    total: u64,
    index: int,
    draw: u64,
)
    requires
        is_weight_table(layer, table, total),
        total_weight(layer) <= u64::MAX,
        0 <= index < layer.len(),
    ensures
        selects(table, draw, index) <==> total_weight(layer.take(index)) <= draw < total_weight(
            layer.take(index),
        ) + option_weight(layer[index]),
{
    assert(layer.take(index + 1).drop_last() == layer.take(index));
    assert(layer.take(layer.len() as int) == layer);
    assert forall|k: int| 0 <= k < layer.len() implies table[k] == total_weight(
        layer.take(k + 1),
    ) by {
        lemma_total_weight_monotone(layer, k + 1, layer.len() as int);
    }
    if index > 0 {
        assert(table[index - 1] == total_weight(layer.take(index)));
    }
    if total_weight(layer.take(index)) <= draw {
        assert forall|k: int| 0 <= k < index implies table[k] <= draw by {
            lemma_total_weight_monotone(layer, k + 1, index);
        }
    }
}

/// Reads the weight of an option out of its identifier.
///
/// Every `#` that is followed by digits is a marker, and the digits are its
/// value; a marker whose number does not fit 64 bits is passed over. The
/// weight is the sum of the markers, held at the largest 64-bit number, and 1
/// for an identifier without a marker.
pub fn parse_weight(identifier: &str) -> (weight: u64)
    ensures
        weight == clamp(option_weight(identifier@)),
{
    let s = chars_of(identifier);
    let mut found: bool = false;
    let mut sum: u64 = 0;
    let mut i: usize = 0;
    while i < s.len()
        invariant
            i <= s.len(),
            s@ == identifier@,
            found == (marker_count(s@, i as int) > 0),
            sum == clamp(marker_sum(s@, i as int)),
        decreases s.len() - i,
    {
        if s[i] == '#' {
            let mut j: usize = i + 1;
            let mut value: Option<u64> = Some(0);
            while j < s.len() && s[j] >= '0' && s[j] <= '9'
                invariant
                    i + 1 <= j <= s.len(),
                    digits_end(s@, i + 1) == digits_end(s@, j as int),
                    match value {
                        Some(v) => v == decimal_value(s@, i + 1, j as int),
                        None => decimal_value(s@, i + 1, j as int) > u64::MAX,
                    },
                decreases s.len() - j,
            {
                let digit: u64 = (s[j] as u32 - '0' as u32) as u64;
                value =
                match value {
                    Some(v) => match v.checked_mul(10) {
                        Some(tens) => tens.checked_add(digit),
                        None => None,
                    },
                    None => None,
                };
                j += 1;
            }
            if j > i + 1 {
                match value {
                    Some(v) => {
                        found = true;
                        sum = sum.saturating_add(v);
                    },
                    None => {},
                }
            }
        }
        i += 1;
    }
    if found {
        sum
    } else {
        1
    }
}

/// Builds the cumulative weight table of a layer and its total weight.
///
/// Entry `i` of the table is the weight of the options up to and including
/// option `i`; the total is the last entry, and 0 for a layer without
/// options.
pub fn calculate_weights_and_total(layer: &[String]) -> (result: (Vec<u64>, u64))
    ensures
        is_weight_table(names(layer@), result.0@, result.1),
{
    let mut total: u64 = 0;
    let mut weights: Vec<u64> = Vec::new();
    let ghost all = names(layer@);
    let mut i: usize = 0;
    while i < layer.len()
        invariant
            i <= layer.len(),
            all == names(layer@),
            weights.len() == i,
            total == clamp(total_weight(all.take(i as int))),
            forall|k: int| 0 <= k < i ==> weights[k] == clamp(total_weight(all.take(k + 1))),
        decreases layer.len() - i,
    {
        let weight = parse_weight(layer[i].as_str());
        proof {
            assert(all.take(i + 1).drop_last() == all.take(i as int));
        }
        total = total.saturating_add(weight);
        weights.push(total);
        i += 1;
    }
    proof {
        assert(all.take(layer.len() as int) == all);
    }
    (weights, total)
}

/// Finds the option on which a draw falls: the first entry of the table that
/// is above the draw.
pub fn weighted_index(weights: &[u64], draw: u64) -> (index: usize)
    requires
        nondecreasing(weights@),
        weights.len() > 0,
        draw < weights[weights.len() - 1],
    ensures
        selects(weights@, draw, index as int),
{
    let mut low: usize = 0;
    let mut high: usize = weights.len() - 1;
    while low < high
        invariant
            low <= high < weights.len(),
            nondecreasing(weights@),
            weights[high as int] > draw,
            forall|k: int| 0 <= k < low ==> weights[k] <= draw,
        decreases high - low,
    {
        let mid: usize = low + (high - low) / 2;
        if weights[mid] <= draw {
            low = mid + 1;
        } else {
            high = mid;
        }
    }
    low
}

/// Draws a number below `bound`.
///
/// The body asks `rand::thread_rng` for a sample of
/// `rand::distributions::Uniform` over the half-open range from 0 to `bound`,
/// through `rand::Rng::sample`. That range is refused when it is empty, so
/// `bound` must not be 0. All that is claimed of the sample is that it lies
/// in the range.
#[verifier::external_body]
pub(crate) fn draw_below(bound: u64) -> (value: u64)
    requires
        bound > 0,
    ensures
        value < bound,
{
    rand::thread_rng().sample(Uniform::from(0..bound))
}

/// The option of `layer` on which `draw` falls.
pub fn option_for_draw<'a>(layer: &'a [String], weights: &[u64], draw: u64) -> (chosen:
    &'a String)
    requires
        layer.len() == weights.len(),
        nondecreasing(weights@),
        weights.len() > 0,
        draw < weights[weights.len() - 1],
    ensures
        exists|i: int| selects(weights@, draw, i) && *chosen == layer[i],
{
    let index = weighted_index(weights, draw);
    &layer[index]
}

/// Picks one option of `layer` at random, by its weight.
///
/// `weights` and `total_weight` are the cumulative table and the total of
/// `layer`, and the total is not 0. One number below the total is drawn, and
/// the option on which it falls is the choice.
pub fn choose_image_with_precomputed_weights<'a>(
    layer: &'a [String],
    weights: &[u64],
    total_weight: u64,
) -> (chosen: &'a String)
    requires
        is_weight_table(names(layer@), weights@, total_weight),
        total_weight > 0,
    ensures
        exists|i: int, draw: u64|
            draw < total_weight && selects(weights@, draw, i) && *chosen == layer[i],
{
    proof {
        lemma_weight_table_shape(names(layer@), weights@, total_weight);
    }
    let draw = draw_below(total_weight);
    option_for_draw(layer, weights, draw)
}

} // verus!
