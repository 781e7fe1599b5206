//! The pool of candidate colours: an ordered list in which no colour occurs
//! twice, from which colours are taken one at a time.

use vstd::prelude::*;
use crate::color::{color_distance_squared, distance_squared, same_color, Color};

verus! {

/// The index of the colour of `pool` that is closest to `target`.
///
/// The pool is scanned from its first colour to its last, and a later colour
/// replaces the candidate only where it is strictly closer: among colours at
/// the same distance the first one stays. The result is 0 for an empty pool.
pub open spec fn closest_index(pool: Seq<Color>, target: Color) -> int
    decreases pool.len(),
{
    if pool.len() <= 1 {
        0
    } else {
        let candidate = closest_index(pool.drop_last(), target);
        if distance_squared(target, pool.last()) < distance_squared(target, pool[candidate]) {
            pool.len() - 1
        } else {
            candidate
        }
    }
}

/// `s` without the later occurrences of a colour that it holds more than once.
pub open spec fn without_repeats(s: Seq<Color>) -> Seq<Color>
    decreases s.len(),
{
    if s.len() == 0 {
        Seq::empty()
    } else {
        let front = without_repeats(s.drop_last());
        if front.contains(s.last()) {
            front
        } else {
            front.push(s.last())
        }
    }
}

/// `closest_index` names the first colour at the least distance from `target`.
pub proof fn lemma_closest_index_is_first_minimum(pool: Seq<Color>, target: Color)
    requires
        pool.len() > 0,
    ensures
        0 <= closest_index(pool, target) < pool.len(),
        forall|j: int|
            0 <= j < pool.len() ==> distance_squared(target, pool[closest_index(pool, target)])
                <= distance_squared(target, #[trigger] pool[j]),
        forall|j: int|
            0 <= j < closest_index(pool, target) ==> distance_squared(
                target,
                pool[closest_index(pool, target)],
            ) < distance_squared(target, #[trigger] pool[j]),
    decreases pool.len(),
{
    if pool.len() > 1 {
        let front = pool.drop_last();
        lemma_closest_index_is_first_minimum(front, target);
        let candidate = closest_index(front, target);
        assert(front[candidate] == pool[candidate]);
        assert forall|j: int| 0 <= j < pool.len() implies distance_squared(
            target,
            pool[closest_index(pool, target)],
        ) <= distance_squared(target, #[trigger] pool[j]) by {
            if j < pool.len() - 1 {
                assert(front[j] == pool[j]);
            }
        }
        assert forall|j: int| 0 <= j < closest_index(pool, target) implies distance_squared(
            target,
            pool[closest_index(pool, target)],
        ) < distance_squared(target, #[trigger] pool[j]) by {
            if j < pool.len() - 1 {
                assert(front[j] == pool[j]);
            }
        }
    }
}

/// Removing one element from a sequence without duplicates leaves none.
pub proof fn lemma_remove_keeps_distinct(pool: Seq<Color>, k: int)
    requires
        pool.no_duplicates(),
        0 <= k < pool.len(),
    ensures
        pool.remove(k).no_duplicates(),
        forall|c: Color| pool.remove(k).contains(c) <==> (pool.contains(c) && c != pool[k]),
{
    let rest = pool.remove(k);
    assert forall|i: int, j: int| 0 <= i < rest.len() && 0 <= j < rest.len() && i != j implies rest[i]
        != rest[j] by {
        let si = if i < k { i } else { i + 1 };
        let sj = if j < k { j } else { j + 1 };
        assert(rest[i] == pool[si]);
        assert(rest[j] == pool[sj]);
    }
    assert forall|c: Color| rest.contains(c) <==> (pool.contains(c) && c != pool[k]) by {
        if rest.contains(c) {
            let i = choose|i: int| 0 <= i < rest.len() && rest[i] == c;
            let si = if i < k { i } else { i + 1 };
            assert(pool[si] == c);
        }
        if pool.contains(c) && c != pool[k] {
            let i = choose|i: int| 0 <= i < pool.len() && pool[i] == c;
            let ri = if i < k { i } else { i - 1 };
            assert(rest[ri] == c);
        }
    }
}

/// `without_repeats` holds each colour of `s` once, and no other colour.
pub proof fn lemma_without_repeats(s: Seq<Color>)
    ensures
        without_repeats(s).no_duplicates(),
        without_repeats(s).len() <= s.len(),
        forall|c: Color| without_repeats(s).contains(c) <==> s.contains(c),
        s.no_duplicates() ==> without_repeats(s) == s,
    decreases s.len(),
{
    if s.len() > 0 {
        let front = s.drop_last();
        lemma_without_repeats(front);
        let kept = without_repeats(front);
        let all = without_repeats(s);
        assert forall|c: Color| all.contains(c) <==> s.contains(c) by {
            assert(kept.contains(c) <==> front.contains(c));
            if all.contains(c) {
                let i = choose|i: int| 0 <= i < all.len() && all[i] == c;
                if i < kept.len() {
                    assert(kept[i] == c);
                    let j = choose|j: int| 0 <= j < front.len() && front[j] == c;
                    assert(s[j] == c);
                } else {
                    assert(s[s.len() - 1] == c);
                }
            }
            if s.contains(c) {
                let j = choose|j: int| 0 <= j < s.len() && s[j] == c;
                if j < s.len() - 1 {
                    assert(front[j] == c);
                }
                if kept.contains(c) {
                    let i = choose|i: int| 0 <= i < kept.len() && kept[i] == c;
                    assert(all[i] == c);
                } else {
                    assert(all[all.len() - 1] == c);
                }
            }
        }
        if s.no_duplicates() {
            assert(front.no_duplicates());
            assert(kept.contains(s.last()) <==> front.contains(s.last()));
            if kept.contains(s.last()) {
                let j = choose|j: int| 0 <= j < front.len() && front[j] == s.last();
                assert(s[j] == s[s.len() - 1]);
            }
            assert(all =~= s);
        }
    }
}

/// A pool of candidate colours. No colour occurs in it twice, and a colour
/// that has been taken from it is gone.
#[derive(Debug)]
pub struct Palette {
    colors: Vec<Color>,
}

impl Clone for Palette {
    fn clone(&self) -> (copy: Self)
        ensures
            copy@ == self@,
    {
        Palette::from_distinct(self.colors())
    }
}

impl View for Palette {
    type V = Seq<Color>;

    /// The colours of the pool, in the order in which they are scanned.
    closed spec fn view(&self) -> Seq<Color> {
        self.colors@
    }
}

impl Palette {
    #[verifier::type_invariant]
    spec fn distinct(&self) -> bool {
        self.colors@.no_duplicates()
    }

    /// Makes a pool of the given colours, in their order. Where a colour is
    /// given more than once, its first occurrence is the one that counts.
    pub fn from_colors(colors: Vec<Color>) -> (palette: Palette)
        ensures
            palette@ == without_repeats(colors@),
            palette@.no_duplicates(),
    {
        let mut kept: Vec<Color> = Vec::new();
        let mut i: usize = 0;
        while i < colors.len()
            invariant
                i <= colors.len(),
                kept@ == without_repeats(colors@.take(i as int)),
            decreases colors.len() - i,
        {
            let c = colors[i];
            let mut seen = false;
            let mut j: usize = 0;
            while j < kept.len()
                invariant
                    j <= kept.len(),
                    seen <==> exists|p: int| 0 <= p < j && kept@[p] == c,
                decreases kept.len() - j,
            {
                if same_color(&kept[j], &c) {
                    seen = true;
                }
                j += 1;
            }
            proof {
                assert(colors@.take(i as int + 1).drop_last() == colors@.take(i as int));
                assert(colors@.take(i as int + 1).last() == c);
                assert(seen <==> kept@.contains(c));
            }
            if !seen {
                kept.push(c);
            }
            i += 1;
        }
        proof {
            assert(colors@.take(i as int) == colors@);
            lemma_without_repeats(colors@);
        }
        Palette { colors: kept }
    }

    /// Makes a pool of colours that are known to be all different.
    pub(crate) fn from_distinct(colors: Vec<Color>) -> (palette: Palette)
        requires
            colors@.no_duplicates(),
        ensures
            palette@ == colors@,
    {
        Palette { colors }
    }

    /// The number of colours left in the pool, none of which occurs twice.
    pub fn len(&self) -> (n: usize)
        ensures
            n == self@.len(),
            self@.no_duplicates(),
    {
        proof {
            use_type_invariant(self);
        }
        self.colors.len()
    }

    /// The colours left in the pool, in scan order.
    pub fn colors(&self) -> (colors: Vec<Color>)
        ensures
            colors@ == self@,
            colors@.no_duplicates(),
    {
        proof {
            use_type_invariant(self);
        }
        let mut colors: Vec<Color> = Vec::new();
        let mut i: usize = 0;
        while i < self.colors.len()
            invariant
                i <= self.colors.len(),
                colors@ == self.colors@.take(i as int),
            decreases self.colors.len() - i,
        {
            colors.push(self.colors[i]);
            assert(self.colors@.take(i as int + 1) == self.colors@.take(i as int).push(
                self.colors@[i as int],
            ));
            i += 1;
        }
        assert(self.colors@.take(i as int) == self.colors@);
        colors
    }

    /// Finds the colour of the pool that is closest to `target`.
    pub fn closest(&self, target: &Color) -> (found: Option<usize>)
        ensures
            found is None <==> self@.len() == 0,
            found matches Some(k) ==> k == closest_index(self@, *target) && k < self@.len(),
    {
        let n = self.colors.len();
        if n == 0 {
            return None;
        }
        let mut best: usize = 0;
        let mut best_distance = color_distance_squared(target, &self.colors[0]);
        let mut i: usize = 1;
        while i < n
            invariant
                1 <= i <= n,
                n == self.colors@.len(),
                best < i,
                best == closest_index(self.colors@.take(i as int), *target),
                best_distance == distance_squared(*target, self.colors@[best as int]),
            decreases n - i,
        {
            let d = color_distance_squared(target, &self.colors[i]);
            proof {
                let longer = self.colors@.take(i as int + 1);
                assert(longer.drop_last() == self.colors@.take(i as int));
                assert(longer.last() == self.colors@[i as int]);
                assert(longer[best as int] == self.colors@[best as int]);
            }
            if d < best_distance {
                best = i;
                best_distance = d;
            }
            i += 1;
        }
        proof {
            assert(self.colors@.take(n as int) == self.colors@);
        }
        Some(best)
    }

    /// Takes the colour that is closest to `target` out of the pool.
    pub fn take_closest(&mut self, target: &Color) -> (taken: Option<Color>)
        ensures
            old(self)@.len() == 0 ==> taken is None && final(self)@ == old(self)@,
            old(self)@.len() > 0 ==> taken == Some(old(self)@[closest_index(old(self)@, *target)])
                && final(self)@ == old(self)@.remove(closest_index(old(self)@, *target)),
            final(self)@.no_duplicates(),
    {
        proof {
            use_type_invariant(&*self);
        }
        match self.closest(target) {
            None => None,
            Some(k) => {
                let mut colors: Vec<Color> = Vec::new();
                std::mem::swap(&mut colors, &mut self.colors);
                proof {
                    lemma_remove_keeps_distinct(colors@, k as int);
                }
                let c = colors.remove(k);
                self.colors = colors;
                Some(c)
            },
        }
    }
}

} // verus!
