//! Hands each country, in priority order, the colour of the pool that is
//! closest to the colour it has now. A colour is handed out once.

use vstd::prelude::*;
use crate::color::Color;
use crate::country_tags::CountryTag;
use crate::palette::{closest_index, lemma_closest_index_is_first_minimum, lemma_remove_keeps_distinct, Palette};

verus! {

/// Why an allocation gave no assignment.
#[derive(Debug, Clone, Copy, PartialEq, Eq, Structural)]
pub enum AllocationError {
    /// The pool holds fewer colours than there are countries to serve.
    PaletteExhausted,
}

/// The present colours of the countries, in their order.
pub open spec fn present_colors(ranked: Seq<CountryTag>) -> Seq<Color> {
    Seq::new(ranked.len(), |i: int| ranked[i].color)
}

/// The pool as it is once the first `served` of the `wanted` colours have
/// each taken the colour closest to them, one after the other.
pub open spec fn pool_after(wanted: Seq<Color>, pool: Seq<Color>, served: nat) -> Seq<Color>
    decreases served,
{
    if served == 0 {
        pool
    } else {
        let before = pool_after(wanted, pool, (served - 1) as nat);
        before.remove(closest_index(before, wanted[served - 1]))
    }
}

/// The colour that goes to the country at position `i`: the closest one that
/// the countries before it have left.
pub open spec fn assigned_color(wanted: Seq<Color>, pool: Seq<Color>, i: nat) -> Color {
    let left = pool_after(wanted, pool, i);
    left[closest_index(left, wanted[i as int])]
}

/// Serving countries only shrinks the pool: it stays free of duplicates, it
/// loses one colour per country, and it gains none.
pub proof fn lemma_pool_after(wanted: Seq<Color>, pool: Seq<Color>, served: nat)
    requires
        pool.no_duplicates(),
        served <= wanted.len(),
        served <= pool.len(),
    ensures
        pool_after(wanted, pool, served).no_duplicates(),
        pool_after(wanted, pool, served).len() == pool.len() - served,
        forall|c: Color| #[trigger]
            pool_after(wanted, pool, served).contains(c) ==> pool.contains(c),
    decreases served,
{
    if served > 0 {
        let before = pool_after(wanted, pool, (served - 1) as nat);
        lemma_pool_after(wanted, pool, (served - 1) as nat);
        let k = closest_index(before, wanted[served - 1]);
        lemma_closest_index_is_first_minimum(before, wanted[served - 1]);
        lemma_remove_keeps_distinct(before, k);
        assert forall|c: Color| #[trigger]
            pool_after(wanted, pool, served).contains(c) implies pool.contains(c) by {
            assert(before.contains(c));
        }
    }
}

/// A colour that has been handed out is in no later pool.
pub proof fn lemma_assigned_color_leaves(wanted: Seq<Color>, pool: Seq<Color>, i: nat, later: nat)
    requires
        pool.no_duplicates(),
        i < later <= wanted.len(),
        later <= pool.len(),
    ensures
        !pool_after(wanted, pool, later).contains(assigned_color(wanted, pool, i)),
    decreases later,
{
    let before = pool_after(wanted, pool, (later - 1) as nat);
    lemma_pool_after(wanted, pool, (later - 1) as nat);
    let k = closest_index(before, wanted[later - 1]);
    lemma_closest_index_is_first_minimum(before, wanted[later - 1]);
    lemma_remove_keeps_distinct(before, k);
    if later - 1 > i {
        lemma_assigned_color_leaves(wanted, pool, i, (later - 1) as nat);
    }
}

/// No colour is handed out twice: where the pool holds no colour twice, two
/// countries never get the same colour.
pub proof fn lemma_no_color_reuse(wanted: Seq<Color>, pool: Seq<Color>, i: nat, j: nat)
    requires
        pool.no_duplicates(),
        i < j < wanted.len(),
        wanted.len() <= pool.len(),
    ensures
        assigned_color(wanted, pool, i) != assigned_color(wanted, pool, j),
{
    let left = pool_after(wanted, pool, j);
    lemma_pool_after(wanted, pool, j);
    lemma_closest_index_is_first_minimum(left, wanted[j as int]);
    lemma_assigned_color_leaves(wanted, pool, i, j);
    assert(left.contains(left[closest_index(left, wanted[j as int])]));
}

/// Every colour that is handed out comes from the pool as it was given.
pub proof fn lemma_assigned_color_from_pool(wanted: Seq<Color>, pool: Seq<Color>, i: nat)
    requires
        pool.no_duplicates(),
        i < wanted.len(),
        wanted.len() <= pool.len(),
    ensures
        pool.contains(assigned_color(wanted, pool, i)),
{
    let left = pool_after(wanted, pool, i);
    lemma_pool_after(wanted, pool, i);
    lemma_closest_index_is_first_minimum(left, wanted[i as int]);
    assert(left.contains(left[closest_index(left, wanted[i as int])]));
}

/// Gives each country of `ranked`, first to last, the colour of `palette`
/// that is closest to its present colour, and takes that colour out of the
/// pool. Where the pool has fewer colours than there are countries, nothing
/// is taken and the allocation fails.
pub fn allocate(ranked: &Vec<CountryTag>, palette: &mut Palette) -> (outcome: Result<
    Vec<(CountryTag, Color)>,
    AllocationError,
>)
    ensures
        outcome is Err <==> old(palette)@.len() < ranked@.len(),
        outcome is Err ==> outcome == Err::<Vec<(CountryTag, Color)>, AllocationError>(
            AllocationError::PaletteExhausted,
        ) && final(palette)@ == old(palette)@,
        outcome matches Ok(assignment) ==> {
            &&& assignment@.len() == ranked@.len()
            &&& forall|i: int|
                0 <= i < ranked@.len() ==> (#[trigger] assignment@[i]).0 == ranked@[i]
                    && assignment@[i].1 == assigned_color(
                    present_colors(ranked@),
                    old(palette)@,
                    i as nat,
                )
            &&& forall|i: int, j: int|
                0 <= i < j < ranked@.len() ==> (#[trigger] assignment@[i]).1 != (
                #[trigger] assignment@[j]).1
            &&& forall|i: int|
                0 <= i < ranked@.len() ==> old(palette)@.contains((#[trigger] assignment@[i]).1)
            &&& final(palette)@ == pool_after(
                present_colors(ranked@),
                old(palette)@,
                ranked@.len(),
            )
        },
        final(palette)@.no_duplicates(),
{
    let n = ranked.len();
    let ghost wanted = present_colors(ranked@);
    let ghost pool = palette@;
    if palette.len() < n {
        return Err(AllocationError::PaletteExhausted);
    }
    let mut assignment: Vec<(CountryTag, Color)> = Vec::new();
    let mut i: usize = 0;
    while i < n
        invariant
            i <= n,
            n == ranked@.len(),
            n <= pool.len(),
            pool.no_duplicates(),
            wanted == present_colors(ranked@),
            palette@ == pool_after(wanted, pool, i as nat),
            assignment@.len() == i,
            forall|p: int|
                0 <= p < i ==> (#[trigger] assignment@[p]).0 == ranked@[p] && assignment@[p].1
                    == assigned_color(wanted, pool, p as nat),
        decreases n - i,
    {
        proof {
            lemma_pool_after(wanted, pool, i as nat);
        }
        let country = &ranked[i];
        let taken = palette.take_closest(&country.color);
        match taken {
            Some(color) => {
                assignment.push((country.clone(), color));
            },
            None => {
                proof {
                    assert(false);
                }
            },
        }
        i += 1;
    }
    proof {
        lemma_pool_after(wanted, pool, n as nat);
        assert forall|a: int, b: int| 0 <= a < b < n implies (#[trigger] assignment@[a]).1 != (
        #[trigger] assignment@[b]).1 by {
            lemma_no_color_reuse(wanted, pool, a as nat, b as nat);
        }
        assert forall|a: int| 0 <= a < n implies pool.contains((#[trigger] assignment@[a]).1) by {
            lemma_assigned_color_from_pool(wanted, pool, a as nat);
        }
    }
    Ok(assignment)
}

} // verus!
