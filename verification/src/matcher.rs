//! Choice of the glyph whose ink pattern is closest to a bit pattern, read
//! as it stands or inverted. Distances and complements are taken over the
//! positions of the cell.

use vstd::prelude::*;
use crate::bitmask::{
    complement, hamming, hamming_distance, in_cell, lemma_complement_twice,
    lemma_hamming_complement, lemma_hamming_in_cell, lemma_hamming_zero,
};

verus! {

/// Which reading of a bit pattern a glyph was matched against.
#[derive(Debug, Clone, Copy, PartialEq, Eq)]
pub enum Polarity {
    /// The glyph's ink stands for the ink of the pattern.
    Direct,
    /// The glyph's ink stands for the positions the pattern leaves blank.
    Inverted,
}

/// The outcome of a match: the entry chosen, the reading it was chosen for
/// and its distance from that reading.
#[derive(Debug, Clone, Copy, PartialEq, Eq)]
pub struct BestFit {
    pub index: usize,
    pub character: char,
    pub bitmap: u128,
    pub polarity: Polarity,
    pub distance: u32,
}

/// How far a glyph is from a pattern of `positions` positions: the smaller of
/// its distances to the pattern and to the pattern's complement.
pub open spec fn fitness(glyph: u128, mask: u128, positions: u32) -> nat {
    if hamming(glyph, mask, positions) <= hamming(
        glyph,
        complement(mask, positions),
        positions,
    ) {
        hamming(glyph, mask, positions)
    } else {
        hamming(glyph, complement(mask, positions), positions)
    }
}

/// The reading that gives the fitness; the direct one where both do.
pub open spec fn polarity_of(glyph: u128, mask: u128, positions: u32) -> Polarity {
    if hamming(glyph, mask, positions) <= hamming(
        glyph,
        complement(mask, positions),
        positions,
    ) {
        Polarity::Direct
    } else {
        Polarity::Inverted
    }
}

/// Entry `index` is the first of the catalog among those of least fitness.
pub open spec fn is_best_fit(
    catalog: Seq<(char, u128)>,
    mask: u128,
    positions: u32,
    index: int,
) -> bool {
    &&& 0 <= index < catalog.len()
    &&& forall|j: int|
        0 <= j < catalog.len() ==> fitness(catalog[index].1, mask, positions) <= fitness(
            (#[trigger] catalog[j]).1,
            mask,
            positions,
        )
    &&& forall|j: int|
        0 <= j < index ==> fitness(catalog[index].1, mask, positions) < fitness(
            (#[trigger] catalog[j]).1,
            mask,
            positions,
        )
}

/// The first entry of least fitness among the first `n` of the catalog.
pub open spec fn best_below(catalog: Seq<(char, u128)>, mask: u128, positions: u32, n: nat) -> int
    decreases n,
{
    if n <= 1 {
        0
    } else {
        let before = best_below(catalog, mask, positions, (n - 1) as nat);
        if fitness(catalog[n - 1].1, mask, positions) < fitness(
            catalog[before].1,
            mask,
            positions,
        ) {
            n - 1
        } else {
            before
        }
    }
}

/// The entry the matcher selects from a catalog that is not empty.
pub open spec fn best_index(catalog: Seq<(char, u128)>, mask: u128, positions: u32) -> int {
    best_below(catalog, mask, positions, catalog.len())
}

/// `best_below` is the first entry of least fitness of the prefix.
pub proof fn lemma_best_below(catalog: Seq<(char, u128)>, mask: u128, positions: u32, n: nat)
    requires
        0 < n <= catalog.len(),
    ensures
        is_best_fit(
            catalog.take(n as int),
            mask,
            positions,
            best_below(catalog, mask, positions, n),
        ),
    decreases n,
{
    let prefix = catalog.take(n as int);
    if n > 1 {
        lemma_best_below(catalog, mask, positions, (n - 1) as nat);
        let shorter = catalog.take(n - 1);
        let best = best_below(catalog, mask, positions, n);
        assert forall|j: int| 0 <= j < prefix.len() implies fitness(
            prefix[best].1,
            mask,
            positions,
        ) <= fitness((#[trigger] prefix[j]).1, mask, positions) by {
            if j < n - 1 {
                assert(shorter[j] == prefix[j]);
            }
        }
        assert forall|j: int| 0 <= j < best implies fitness(prefix[best].1, mask, positions)
            < fitness((#[trigger] prefix[j]).1, mask, positions) by {
            assert(shorter[j] == prefix[j]);
        }
    }
}

/// The selected entry is the first of least fitness.
pub proof fn lemma_best_index(catalog: Seq<(char, u128)>, mask: u128, positions: u32)
    requires
        catalog.len() > 0,
    ensures
        is_best_fit(catalog, mask, positions, best_index(catalog, mask, positions)),
{
    lemma_best_below(catalog, mask, positions, catalog.len());
    assert(catalog.take(catalog.len() as int) =~= catalog);
}

/// No two entries are both the first of least fitness.
pub proof fn lemma_best_fit_unique(
    catalog: Seq<(char, u128)>,
    mask: u128,
    positions: u32,
    i: int,
    j: int,
)
    requires
        is_best_fit(catalog, mask, positions, i),
        is_best_fit(catalog, mask, positions, j),
    ensures
        i == j,
{
    if i < j {
        assert(fitness(catalog[j].1, mask, positions) < fitness(catalog[i].1, mask, positions));
        assert(fitness(catalog[i].1, mask, positions) <= fitness(catalog[j].1, mask, positions));
    } else if j < i {
        assert(fitness(catalog[i].1, mask, positions) < fitness(catalog[j].1, mask, positions));
        assert(fitness(catalog[j].1, mask, positions) <= fitness(catalog[i].1, mask, positions));
    }
}

/// The fitness is zero exactly for a glyph that holds, in the cell, the
/// pattern or its complement; it is never more than half the positions.
pub proof fn lemma_fitness_zero(glyph: u128, mask: u128, positions: u32)
    requires
        positions <= 128,
    ensures
        fitness(glyph, mask, positions) == 0 <==> in_cell(glyph, positions) == in_cell(
            mask,
            positions,
        ) || in_cell(glyph, positions) == complement(mask, positions),
        2 * fitness(glyph, mask, positions) <= positions,
{
    lemma_hamming_zero(glyph, mask, positions);
    lemma_hamming_zero(glyph, complement(mask, positions), positions);
    lemma_hamming_complement(glyph, mask, positions);
    lemma_complement_twice(mask, positions);
}

/// Exact match: where the pattern is the bitmap of entry `entry`, the entry
/// selected has fitness zero, so that no entry at a distance above zero is
/// selected in its place; it is `entry` itself unless an earlier entry holds,
/// in the cell, the same bitmap or its complement.
pub proof fn lemma_exact_match(
    catalog: Seq<(char, u128)>,
    mask: u128,
    positions: u32,
    entry: int,
)
    requires
        positions <= 128,
        0 <= entry < catalog.len(),
        catalog[entry].1 == mask,
    ensures
        fitness(catalog[best_index(catalog, mask, positions)].1, mask, positions) == 0,
        best_index(catalog, mask, positions) <= entry,
        forall|j: int|
            0 <= j < catalog.len() && fitness((#[trigger] catalog[j]).1, mask, positions) > 0
                ==> best_index(catalog, mask, positions) != j,
        (forall|j: int|
            0 <= j < entry ==> in_cell((#[trigger] catalog[j]).1, positions) != in_cell(
                mask,
                positions,
            ) && in_cell(catalog[j].1, positions) != complement(mask, positions))
            ==> best_index(catalog, mask, positions) == entry,
{
    let best = best_index(catalog, mask, positions);
    lemma_best_index(catalog, mask, positions);
    lemma_fitness_zero(catalog[entry].1, mask, positions);
    assert(fitness(catalog[best].1, mask, positions) <= fitness(
        catalog[entry].1,
        mask,
        positions,
    ));
    if best > entry {
        assert(fitness(catalog[best].1, mask, positions) < fitness(
            catalog[entry].1,
            mask,
            positions,
        ));
    }
    if best < entry {
        lemma_fitness_zero(catalog[best].1, mask, positions);
    }
}

/// A glyph is as far from a pattern as from its complement in the cell; the
/// reading recorded for the one is the other's, unless the glyph is equally
/// far from both readings.
pub proof fn lemma_fitness_complement(glyph: u128, mask: u128, positions: u32)
    requires
        positions <= 128,
    ensures
        fitness(glyph, complement(mask, positions), positions) == fitness(glyph, mask, positions),
        2 * fitness(glyph, mask, positions) < positions ==> polarity_of(
            glyph,
            complement(mask, positions),
            positions,
        ) != polarity_of(glyph, mask, positions),
        2 * fitness(glyph, mask, positions) >= positions ==> polarity_of(
            glyph,
            complement(mask, positions),
            positions,
        ) == Polarity::Direct && polarity_of(glyph, mask, positions) == Polarity::Direct,
{
    lemma_complement_twice(mask, positions);
    lemma_hamming_in_cell(glyph, mask, positions);
    lemma_hamming_complement(glyph, mask, positions);
}

/// Polarity invariance: a pattern and its complement in the cell select the
/// same entry, at the same fitness. The reading recorded for the one is the
/// other's, unless the entry is equally far, at half the positions, from both
/// readings, for which the direct reading is recorded either time.
pub proof fn lemma_polarity_invariance(catalog: Seq<(char, u128)>, mask: u128, positions: u32)
    requires
        catalog.len() > 0,
        positions <= 128,
    ensures
        best_index(catalog, complement(mask, positions), positions) == best_index(
            catalog,
            mask,
            positions,
        ),
        forall|j: int|
            0 <= j < catalog.len() ==> fitness(
                (#[trigger] catalog[j]).1,
                complement(mask, positions),
                positions,
            ) == fitness(catalog[j].1, mask, positions),
        ({
            let glyph = catalog[best_index(catalog, mask, positions)].1;
            let other = polarity_of(glyph, complement(mask, positions), positions);
            if 2 * fitness(glyph, mask, positions) < positions {
                other != polarity_of(glyph, mask, positions)
            } else {
                other == polarity_of(glyph, mask, positions)
            }
        }),
{
    let best = best_index(catalog, mask, positions);
    let inverted = complement(mask, positions);
    lemma_fitness_complement(catalog[best].1, mask, positions);
    lemma_best_index(catalog, mask, positions);
    lemma_best_index(catalog, inverted, positions);
    assert forall|j: int| 0 <= j < catalog.len() implies fitness(
        (#[trigger] catalog[j]).1,
        inverted,
        positions,
    ) == fitness(catalog[j].1, mask, positions) by {
        lemma_fitness_complement(catalog[j].1, mask, positions);
    }
    assert(is_best_fit(catalog, inverted, positions, best));
    lemma_best_fit_unique(
        catalog,
        inverted,
        positions,
        best,
        best_index(catalog, inverted, positions),
    );
}

/// Fitness and reading of one glyph against a pattern of `positions`
/// positions.
pub fn measure(glyph: u128, mask: u128, positions: u32) -> (outcome: (u32, Polarity))
    requires
        positions <= 128,
    ensures
        outcome.0 == fitness(glyph, mask, positions),
        outcome.1 == polarity_of(glyph, mask, positions),
        2 * outcome.0 <= positions,
{
    proof {
        lemma_hamming_complement(glyph, mask, positions);
    }
    let direct = hamming_distance(glyph, mask, positions);
    let inverted = positions - direct;
    if direct <= inverted {
        (direct, Polarity::Direct)
    } else {
        (inverted, Polarity::Inverted)
    }
}

/// Finds the entry of the catalog that is closest to the pattern `mask` of
/// `positions` positions: the first among those of least fitness.
pub fn best_fit(mask: u128, catalog: &[(char, u128)], positions: u32) -> (fit: BestFit)
    requires
        catalog@.len() > 0,
        positions <= 128,
    ensures
        is_best_fit(catalog@, mask, positions, fit.index as int),
        fit.index == best_index(catalog@, mask, positions),
        fit.character == catalog@[fit.index as int].0,
        fit.bitmap == catalog@[fit.index as int].1,
        fit.polarity == polarity_of(fit.bitmap, mask, positions),
        fit.distance == fitness(fit.bitmap, mask, positions),
{
    let (distance, polarity) = measure(catalog[0].1, mask, positions);
    let mut fit = BestFit {
        index: 0,
        character: catalog[0].0,
        bitmap: catalog[0].1,
        polarity,
        distance,
    };
    let mut i: usize = 1;
    while i < catalog.len()
        invariant
            positions <= 128,
            1 <= i <= catalog@.len(),
            fit.index == best_below(catalog@, mask, positions, i as nat),
            fit.index < i,
            fit.character == catalog@[fit.index as int].0,
            fit.bitmap == catalog@[fit.index as int].1,
            fit.polarity == polarity_of(fit.bitmap, mask, positions),
            fit.distance == fitness(fit.bitmap, mask, positions),
        decreases catalog@.len() - i,
    {
        let (distance, polarity) = measure(catalog[i].1, mask, positions);
        if distance < fit.distance {
            fit = BestFit {
                index: i,
                character: catalog[i].0,
                bitmap: catalog[i].1,
                polarity,
                distance,
            };
        }
        i = i + 1;
    }
    proof {
        lemma_best_index(catalog@, mask, positions);
    }
    fit
}

} // verus!
