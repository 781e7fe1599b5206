//! Text as a sequence of characters: searching and counting.

use vstd::prelude::*;

verus! {

/// The texts that the strings hold.
pub open spec fn texts(contents: Seq<String>) -> Seq<Seq<char>> {
    Seq::new(contents.len(), |i: int| contents[i]@)
}

/// Whether `needle` stands in `hay` at position `at`.
pub open spec fn occurs_at(hay: Seq<char>, needle: Seq<char>, at: int) -> bool {
    0 <= at && at + needle.len() <= hay.len() && hay.subrange(at, at + needle.len()) == needle
}

/// The first position at or after `from` at which `needle` stands in `hay`.
pub open spec fn first_occurrence(hay: Seq<char>, needle: Seq<char>, from: int) -> Option<int>
    decreases hay.len() - from + 1,
{
    if from < 0 || from + needle.len() > hay.len() {
        None
    } else if occurs_at(hay, needle, from) {
        Some(from)
    } else {
        first_occurrence(hay, needle, from + 1)
    }
}

/// The first position at or after `from` at which `hay` holds `c`.
pub open spec fn first_index_of(hay: Seq<char>, c: char, from: int) -> Option<int>
    decreases hay.len() - from,
{
    if from < 0 || from >= hay.len() {
        None
    } else if hay[from] == c {
        Some(from)
    } else {
        first_index_of(hay, c, from + 1)
    }
}

/// The number of occurrences of `needle` in `hay` that a scan from position
/// `from` meets when it goes on behind each occurrence it finds, so that no
/// two of them overlap. The empty needle occurs once at every position, the
/// end of `hay` included.
pub open spec fn count_from(hay: Seq<char>, needle: Seq<char>, from: int) -> nat
    decreases hay.len() - from + 1,
{
    if from < 0 || from + needle.len() > hay.len() {
        0
    } else if occurs_at(hay, needle, from) {
        1 + count_from(hay, needle, from + if needle.len() == 0 { 1 } else { needle.len() as int })
    } else {
        count_from(hay, needle, from + 1)
    }
}

/// The number of non-overlapping occurrences of `needle` in `hay`, counted
/// from the left.
pub open spec fn occurrences(hay: Seq<char>, needle: Seq<char>) -> nat {
    count_from(hay, needle, 0)
}

/// What `first_occurrence` finds is an occurrence with none before it, and
/// where it finds nothing there is none.
pub proof fn lemma_first_occurrence(hay: Seq<char>, needle: Seq<char>, from: int)
    requires
        0 <= from,
    ensures
        match first_occurrence(hay, needle, from) {
            Some(at) => from <= at && occurs_at(hay, needle, at) && forall|j: int|
                from <= j < at ==> !occurs_at(hay, needle, j),
            None => forall|j: int| from <= j ==> !occurs_at(hay, needle, j),
        },
    decreases hay.len() - from + 1,
{
    if from + needle.len() <= hay.len() && !occurs_at(hay, needle, from) {
        lemma_first_occurrence(hay, needle, from + 1);
    }
}

/// What `first_index_of` finds holds the character, no earlier position
/// does, and where it finds nothing no position does.
pub proof fn lemma_first_index_of(hay: Seq<char>, c: char, from: int)
    requires
        0 <= from,
    ensures
        match first_index_of(hay, c, from) {
            Some(at) => from <= at < hay.len() && hay[at] == c && forall|j: int|
                from <= j < at ==> hay[j] != c,
            None => forall|j: int| from <= j < hay.len() ==> hay[j] != c,
        },
    decreases hay.len() - from,
{
    if from < hay.len() && hay[from] != c {
        lemma_first_index_of(hay, c, from + 1);
    }
}

/// The empty needle is counted once for each position that is left.
pub proof fn lemma_count_empty_needle(hay: Seq<char>, from: int)
    requires
        0 <= from <= hay.len(),
    ensures
        count_from(hay, Seq::<char>::empty(), from) == hay.len() - from + 1,
    decreases hay.len() - from,
{
    let needle = Seq::<char>::empty();
    assert(hay.subrange(from, from + 0) =~= needle);
    if from < hay.len() {
        lemma_count_empty_needle(hay, from + 1);
    } else {
        assert(count_from(hay, needle, from + 1) == 0);
    }
}

/// The characters of `s`, one by one.
pub fn chars_of(s: &str) -> (chars: Vec<char>)
    ensures
        chars@ == s@,
{
    broadcast use vstd::string::group_string_axioms;

    let mut chars: Vec<char> = Vec::new();
    for c in it: s.chars()
        invariant
            it.seq() == s@,
            chars@ == it.seq().take(it.index() as int),
    {
        chars.push(c);
        assert(it.seq().take(it.index() + 1) == it.seq().take(it.index() as int).push(c));
    }
    assert(s@.take(s@.len() as int) == s@);
    chars
}

/// Tells whether `needle` stands in `hay` at position `at`.
pub fn matches_at(hay: &[char], needle: &[char], at: usize) -> (found: bool)
    ensures
        found == occurs_at(hay@, needle@, at as int),
{
    if needle.len() > hay.len() || at > hay.len() - needle.len() {
        return false;
    }
    let mut k: usize = 0;
    while k < needle.len()
        invariant
            k <= needle@.len(),
            at + needle@.len() <= hay@.len() <= usize::MAX,
            forall|j: int| 0 <= j < k ==> hay@[at + j] == needle@[j],
        decreases needle.len() - k,
    {
        if hay[at + k] != needle[k] {
            assert(hay@.subrange(at as int, at + needle@.len())[k as int] != needle@[k as int]);
            return false;
        }
        k += 1;
    }
    assert(hay@.subrange(at as int, at + needle@.len()) =~= needle@);
    true
}

/// Finds the first position at or after `from` at which `needle` stands.
pub fn find(hay: &[char], needle: &[char], from: usize) -> (found: Option<usize>)
    ensures
        match found {
            Some(at) => first_occurrence(hay@, needle@, from as int) == Some(at as int),
            None => first_occurrence(hay@, needle@, from as int) is None,
        },
{
    if needle.len() > hay.len() || from > hay.len() - needle.len() {
        return None;
    }
    let last = hay.len() - needle.len();
    let mut at: usize = from;
    while at <= last
        invariant
            from <= at,
            last == hay@.len() - needle@.len(),
            at <= last + 1,
            first_occurrence(hay@, needle@, from as int) == first_occurrence(
                hay@,
                needle@,
                at as int,
            ),
        decreases last + 1 - at,
    {
        if matches_at(hay, needle, at) {
            return Some(at);
        }
        if at == last {
            assert(first_occurrence(hay@, needle@, at + 1) is None);
            return None;
        }
        at += 1;
    }
    None
}

/// Finds the first position at or after `from` at which `hay` holds `c`.
pub fn find_char(hay: &[char], c: char, from: usize) -> (found: Option<usize>)
    ensures
        match found {
            Some(at) => first_index_of(hay@, c, from as int) == Some(at as int),
            None => first_index_of(hay@, c, from as int) is None,
        },
{
    let mut at: usize = from;
    while at < hay.len()
        invariant
            from <= at,
            first_index_of(hay@, c, from as int) == first_index_of(hay@, c, at as int),
        decreases hay.len() - at,
    {
        if hay[at] == c {
            return Some(at);
        }
        at += 1;
    }
    None
}

/// Counts the non-overlapping occurrences of `needle` in `hay`.
pub fn count_occurrences(hay: &[char], needle: &[char]) -> (n: u128)
    ensures
        n == occurrences(hay@, needle@),
        n <= hay@.len() + 1,
{
    if needle.len() > hay.len() {
        return 0;
    }
    if needle.len() == 0 {
        proof {
            assert(needle@ =~= Seq::<char>::empty());
            lemma_count_empty_needle(hay@, 0);
        }
        return hay.len() as u128 + 1;
    }
    let last = hay.len() - needle.len();
    let mut n: u128 = 0;
    let mut at: usize = 0;
    while at <= last
        invariant
            needle@.len() > 0,
            last == hay@.len() - needle@.len(),
            at <= hay@.len(),
            n <= at,
            n + count_from(hay@, needle@, at as int) == count_from(hay@, needle@, 0),
        decreases hay.len() - at,
    {
        if matches_at(hay, needle, at) {
            n += 1;
            at += needle.len();
        } else {
            at += 1;
        }
    }
    n
}

} // verus!
