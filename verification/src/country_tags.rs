//! The countries that need a colour: their tags, their present colours and
//! the files that define them.

use vstd::prelude::*;
use vstd::std_specs::cmp::PartialEqSpecImpl;
use crate::color::Color;
use crate::definition::{
    color_of, definition_lines, definitions_from, find_path_range, find_tag_end, heading_of,
    parse_color, ParseError,
};
use crate::ranking::{as_ints, as_nats, is_ranking, rank, ranks_before, total_occurrences};
use crate::text::{chars_of, count_occurrences, texts};

verus! {

/// A country: its tag, the colour it has now, and the path of the file that
/// defines it. Two values stand for the same country where their tags agree.
#[derive(Debug, Eq)]
pub struct CountryTag {
    pub tag: String,
    pub color: Color,
    pub path: String,
}

/// What a `CountryTag` stands for: its tag and its path as texts.
pub struct Country {
    pub tag: Seq<char>,
    pub color: Color,
    pub path: Seq<char>,
}

impl View for CountryTag {
    type V = Country;

    open spec fn view(&self) -> Country {
        Country { tag: self.tag@, color: self.color, path: self.path@ }
    }
}

/// What the countries of a list stand for.
pub open spec fn views(list: Seq<CountryTag>) -> Seq<Country> {
    Seq::new(list.len(), |i: int| list[i]@)
}

/// The country that a definition line and the file it names describe.
pub open spec fn definition_of(line: Seq<char>, file: Seq<char>) -> Result<Country, ParseError> {
    match heading_of(line) {
        Err(e) => Err(e),
        Ok((tag, path)) => match color_of(file) {
            None => Err(ParseError::MissingColor),
            Some(color) => Ok(Country { tag, color, path }),
        },
    }
}

/// The definition lines of all the texts, in their order.
pub open spec fn all_definitions(inputs: Seq<Seq<char>>) -> Seq<Seq<char>>
    decreases inputs.len(),
{
    if inputs.len() == 0 {
        Seq::empty()
    } else {
        all_definitions(inputs.drop_last()) + definitions_from(inputs.last(), 0)
    }
}

/// The paths that the definition lines name, in their order, or what is
/// wrong with the first line that is not well formed.
pub open spec fn paths_of(lines: Seq<Seq<char>>) -> Result<Seq<Seq<char>>, ParseError>
    decreases lines.len(),
{
    if lines.len() == 0 {
        Ok(Seq::empty())
    } else {
        match paths_of(lines.drop_last()) {
            Err(e) => Err(e),
            Ok(front) => match heading_of(lines.last()) {
                Err(e) => Err(e),
                Ok((tag, path)) => Ok(front.push(path)),
            },
        }
    }
}

/// The countries that the definition lines describe, each with the file at
/// the same place in `files`, or what is wrong with the first definition that
/// cannot be read.
pub open spec fn entries_of(lines: Seq<Seq<char>>, files: Seq<Seq<char>>) -> Result<
    Seq<Country>,
    ParseError,
>
    decreases lines.len(),
{
    if lines.len() == 0 {
        Ok(Seq::empty())
    } else {
        match entries_of(lines.drop_last(), files) {
            Err(e) => Err(e),
            Ok(front) => if files.len() < lines.len() {
                Err(ParseError::MissingCountryFile)
            } else {
                match definition_of(lines.last(), files[lines.len() - 1]) {
                    Err(e) => Err(e),
                    Ok(country) => Ok(front.push(country)),
                }
            },
        }
    }
}

/// Whether one of the countries has the tag `tag`.
pub open spec fn has_tag(countries: Seq<Country>, tag: Seq<char>) -> bool {
    exists|i: int| 0 <= i < countries.len() && (#[trigger] countries[i]).tag == tag
}

/// The countries without those whose tag an earlier one has already.
pub open spec fn first_of_each_tag(countries: Seq<Country>) -> Seq<Country>
    decreases countries.len(),
{
    if countries.len() == 0 {
        Seq::empty()
    } else {
        let front = first_of_each_tag(countries.drop_last());
        if has_tag(front, countries.last().tag) {
            front
        } else {
            front.push(countries.last())
        }
    }
}

/// The countries that the definition files describe. Each definition line
/// goes with the file at the same place in `files`; where two lines have the
/// same tag, the first one counts.
pub open spec fn countries_of(inputs: Seq<Seq<char>>, files: Seq<Seq<char>>) -> Result<
    Seq<Country>,
    ParseError,
> {
    let lines = all_definitions(inputs);
    match entries_of(lines, files) {
        Err(e) => Err(e),
        Ok(entries) => if files.len() > lines.len() {
            Err(ParseError::MissingCountryFile)
        } else {
            Ok(first_of_each_tag(entries))
        },
    }
}

/// What is wrong with the first lines is wrong with all of them.
pub proof fn lemma_entries_fail_early(lines: Seq<Seq<char>>, files: Seq<Seq<char>>, upto: int)
    requires
        0 <= upto <= lines.len(),
        entries_of(lines.take(upto), files) is Err,
    ensures
        entries_of(lines, files) == entries_of(lines.take(upto), files),
    decreases lines.len() - upto,
{
    if upto < lines.len() {
        assert(lines.take(upto + 1).drop_last() == lines.take(upto));
        lemma_entries_fail_early(lines, files, upto + 1);
    } else {
        assert(lines.take(upto) == lines);
    }
}

/// What is wrong with the first lines is wrong with all of them.
pub proof fn lemma_paths_fail_early(lines: Seq<Seq<char>>, upto: int)
    requires
        0 <= upto <= lines.len(),
        paths_of(lines.take(upto)) is Err,
    ensures
        paths_of(lines) == paths_of(lines.take(upto)),
    decreases lines.len() - upto,
{
    if upto < lines.len() {
        assert(lines.take(upto + 1).drop_last() == lines.take(upto));
        lemma_paths_fail_early(lines, upto + 1);
    } else {
        assert(lines.take(upto) == lines);
    }
}

impl CountryTag {
    /// Reads the tag and the path of a definition line.
    pub fn parse_heading(line: &str) -> (heading: Result<(String, String), ParseError>)
        ensures
            match heading {
                Ok((tag, path)) => heading_of(line@) == Ok::<(Seq<char>, Seq<char>), ParseError>(
                    (tag@, path@),
                ),
                Err(e) => heading_of(line@) == Err::<(Seq<char>, Seq<char>), ParseError>(e),
            },
    {
        let chars = chars_of(line);
        let end = match find_tag_end(chars.as_slice()) {
            Some(end) => end,
            None => {
                return Err(ParseError::MissingTag);
            },
        };
        let (from, to) = match find_path_range(chars.as_slice()) {
            Some(range) => range,
            None => {
                return Err(ParseError::MissingPath);
            },
        };
        let tag = line.substring_char(0, end).to_owned();
        let path = line.substring_char(from, to).to_owned();
        Ok((tag, path))
    }

    /// Reads the colour that the text of a country file gives.
    pub fn parse_color_from_file(content: &str) -> (color: Option<Color>)
        ensures
            color == color_of(content@),
    {
        let chars = chars_of(content);
        parse_color(chars.as_slice())
    }

    /// Reads a country from its definition line and from the text of the
    /// country file that the line names.
    pub fn parse_line(line: &str, country_file: &str) -> (country: Result<CountryTag, ParseError>)
        ensures
            match country {
                Ok(c) => definition_of(line@, country_file@) == Ok::<Country, ParseError>(c@),
                Err(e) => definition_of(line@, country_file@) == Err::<Country, ParseError>(e),
            },
    {
        let (tag, path) = match CountryTag::parse_heading(line) {
            Ok(heading) => heading,
            Err(e) => {
                return Err(e);
            },
        };
        match CountryTag::parse_color_from_file(country_file) {
            Some(color) => Ok(CountryTag { tag, color, path }),
            None => Err(ParseError::MissingColor),
        }
    }
}

impl Clone for CountryTag {
    fn clone(&self) -> (copy: Self)
        ensures
            copy == *self,
    {
        CountryTag { tag: self.tag.clone(), color: self.color, path: self.path.clone() }
    }
}

impl PartialEq for CountryTag {
    fn eq(&self, other: &Self) -> (same: bool) {
        self.tag == other.tag
    }
}

impl PartialEqSpecImpl for CountryTag {
    open spec fn obeys_eq_spec() -> bool {
        true
    }

    open spec fn eq_spec(&self, other: &Self) -> bool {
        self.tag@ == other.tag@
    }
}

/// The countries that are known, in the order in which they were defined.
#[derive(Debug)]
pub struct CountryTags {
    pub list: Vec<CountryTag>,
}

/// Whether `ranked` holds the countries of `list` in the priority order that
/// `counts` gives them.
pub open spec fn is_priority_order(
    ranked: Seq<CountryTag>,
    list: Seq<CountryTag>,
    counts: Seq<nat>,
) -> bool {
    exists|order: Seq<int>|
        #![trigger is_ranking(order, counts)]
        is_ranking(order, counts) && ranked == Seq::new(order.len(), |p: int| list[order[p]])
}

impl CountryTags {
    /// Whether no two countries of the list have the same tag.
    pub open spec fn well_formed(&self) -> bool {
        forall|i: int, j: int|
            0 <= i < j < self.list@.len() ==> (#[trigger] self.list@[i]).tag@ != (
            #[trigger] self.list@[j]).tag@
    }

    /// Lists the definition lines of all the texts, in their order.
    pub fn definitions(input: &Vec<String>) -> (lines: Vec<String>)
        ensures
            texts(lines@) == all_definitions(texts(input@)),
    {
        let ghost inputs = texts(input@);
        let mut lines: Vec<String> = Vec::new();
        let mut f: usize = 0;
        while f < input.len()
            invariant
                f <= input@.len(),
                inputs == texts(input@),
                texts(lines@) == all_definitions(inputs.take(f as int)),
            decreases input.len() - f,
        {
            let mut more = definition_lines(input[f].as_str());
            let ghost before = lines@;
            let ghost added = more@;
            lines.append(&mut more);
            proof {
                assert(texts(lines@) =~= texts(before) + texts(added));
                assert(inputs.take(f as int + 1).drop_last() == inputs.take(f as int));
                assert(inputs.take(f as int + 1).last() == input@[f as int]@);
            }
            f += 1;
        }
        proof {
            assert(inputs.take(f as int) == inputs);
        }
        lines
    }

    /// Lists the paths of the country files that the definition files name,
    /// one for each definition line, in the order of the lines.
    pub fn country_file_paths(input: &Vec<String>) -> (outcome: Result<Vec<String>, ParseError>)
        ensures
            match outcome {
                Ok(paths) => paths_of(all_definitions(texts(input@))) == Ok::<
                    Seq<Seq<char>>,
                    ParseError,
                >(texts(paths@)),
                Err(e) => paths_of(all_definitions(texts(input@))) == Err::<
                    Seq<Seq<char>>,
                    ParseError,
                >(e),
            },
    {
        let lines = CountryTags::definitions(input);
        let ghost all = texts(lines@);
        let mut paths: Vec<String> = Vec::new();
        let mut i: usize = 0;
        assert(texts(paths@) =~= Seq::<Seq<char>>::empty());
        while i < lines.len()
            invariant
                i <= lines@.len(),
                all == texts(lines@),
                all == all_definitions(texts(input@)),
                paths_of(all.take(i as int)) == Ok::<Seq<Seq<char>>, ParseError>(texts(paths@)),
            decreases lines.len() - i,
        {
            proof {
                assert(all.take(i as int + 1).drop_last() == all.take(i as int));
                assert(all.take(i as int + 1).last() == lines@[i as int]@);
            }
            let ghost before = paths@;
            match CountryTag::parse_heading(lines[i].as_str()) {
                Ok((_tag, path)) => {
                    paths.push(path);
                    assert(texts(paths@) =~= texts(before).push(path@));
                },
                Err(e) => {
                    proof {
                        lemma_paths_fail_early(all, i as int + 1);
                    }
                    return Err(e);
                },
            }
            i += 1;
        }
        proof {
            assert(all.take(i as int) == all);
        }
        Ok(paths)
    }

    /// Reads the countries that the definition files describe. `input` holds
    /// the texts of the definition files and `country_files` the texts of
    /// the country files, one for each definition line, in the order of the
    /// lines. Where two lines have the same tag, the first one counts.
    pub fn parse_files(input: Vec<String>, country_files: Vec<String>) -> (outcome: Result<
        CountryTags,
        ParseError,
    >)
        ensures
            match outcome {
                Ok(tags) => countries_of(texts(input@), texts(country_files@)) == Ok::<
                    Seq<Country>,
                    ParseError,
                >(views(tags.list@)) && tags.well_formed(),
                Err(e) => countries_of(texts(input@), texts(country_files@)) == Err::<
                    Seq<Country>,
                    ParseError,
                >(e),
            },
    {
        let lines = CountryTags::definitions(&input);
        let ghost all = texts(lines@);
        let ghost files = texts(country_files@);
        let mut list: Vec<CountryTag> = Vec::new();
        let ghost mut entries: Seq<Country> = Seq::empty();
        let mut i: usize = 0;
        while i < lines.len()
            invariant
                i <= lines@.len(),
                all == texts(lines@),
                all == all_definitions(texts(input@)),
                files == texts(country_files@),
                entries_of(all.take(i as int), files) == Ok::<Seq<Country>, ParseError>(entries),
                views(list@) == first_of_each_tag(entries),
                forall|a: int, b: int|
                    0 <= a < b < list@.len() ==> (#[trigger] list@[a]).tag@ != (
                    #[trigger] list@[b]).tag@,
            decreases lines.len() - i,
        {
            proof {
                assert(all.take(i as int + 1).drop_last() == all.take(i as int));
                assert(all.take(i as int + 1).last() == lines@[i as int]@);
            }
            if i >= country_files.len() {
                proof {
                    lemma_entries_fail_early(all, files, i as int + 1);
                }
                return Err(ParseError::MissingCountryFile);
            }
            let country = match CountryTag::parse_line(
                lines[i].as_str(),
                country_files[i].as_str(),
            ) {
                Ok(country) => country,
                Err(e) => {
                    proof {
                        lemma_entries_fail_early(all, files, i as int + 1);
                    }
                    return Err(e);
                },
            };
            let ghost longer = entries.push(country@);
            proof {
                assert(longer.drop_last() == entries);
            }
            let mut known = false;
            let mut j: usize = 0;
            while j < list.len()
                invariant
                    j <= list@.len(),
                    known <==> exists|p: int| 0 <= p < j && (#[trigger] list@[p]).tag@ == country.tag@,
                decreases list.len() - j,
            {
                if list[j].tag == country.tag {
                    known = true;
                }
                j += 1;
            }
            proof {
                let shown = views(list@);
                if known {
                    let p = choose|p: int| 0 <= p < list@.len() && (#[trigger] list@[p]).tag@
                        == country.tag@;
                    assert(shown[p].tag == country@.tag);
                }
                if has_tag(shown, country@.tag) {
                    let p = choose|p: int| 0 <= p < shown.len() && (#[trigger] shown[p]).tag
                        == country@.tag;
                    assert(list@[p].tag@ == country.tag@);
                }
                assert(known <==> has_tag(shown, country@.tag));
            }
            let ghost before = list@;
            if !known {
                list.push(country);
                assert(views(list@) =~= views(before).push(country@));
            }
            proof {
                entries = longer;
            }
            i += 1;
        }
        proof {
            assert(all.take(i as int) == all);
        }
        if country_files.len() > lines.len() {
            return Err(ParseError::MissingCountryFile);
        }
        Ok(CountryTags { list })
    }

    /// For each country of the list, how often its tag occurs in `corpus`.
    pub open spec fn counts(&self, corpus: Seq<Seq<char>>) -> Seq<nat> {
        Seq::new(self.list@.len(), |i: int| total_occurrences(self.list@[i].tag@, corpus))
    }

    /// Counts, for each country of the list, the occurrences of its tag in
    /// all of `contents`.
    pub fn occurrence_counts(&self, contents: &Vec<String>) -> (counts: Vec<u128>)
        ensures
            as_nats(counts@) == self.counts(texts(contents@)),
    {
        let n = self.list.len();
        let ghost corpus = texts(contents@);
        let mut tags: Vec<Vec<char>> = Vec::new();
        let mut counts: Vec<u128> = Vec::new();
        let mut i: usize = 0;
        while i < n
            invariant
                i <= n,
                n == self.list@.len(),
                tags@.len() == i,
                counts@.len() == i,
                forall|j: int| 0 <= j < i ==> (#[trigger] tags@[j])@ == self.list@[j].tag@,
                forall|j: int| 0 <= j < i ==> #[trigger] counts@[j] == 0,
            decreases n - i,
        {
            tags.push(chars_of(self.list[i].tag.as_str()));
            counts.push(0);
            i += 1;
        }
        let mut b: usize = 0;
        while b < contents.len()
            invariant
                b <= contents@.len(),
                corpus == texts(contents@),
                n == self.list@.len(),
                tags@.len() == n,
                counts@.len() == n,
                forall|j: int| 0 <= j < n ==> (#[trigger] tags@[j])@ == self.list@[j].tag@,
                forall|j: int|
                    0 <= j < n ==> #[trigger] counts@[j] == total_occurrences(
                        self.list@[j].tag@,
                        corpus.take(b as int),
                    ),
                forall|j: int| 0 <= j < n ==> #[trigger] counts@[j] <= b * 0x1_0000_0000_0000_0000,
            decreases contents.len() - b,
        {
            let blob = chars_of(contents[b].as_str());
            let blob_len = blob.len();
            proof {
                assert(corpus.take(b as int + 1).drop_last() == corpus.take(b as int));
                assert(corpus.take(b as int + 1).last() == blob@);
            }
            let mut k: usize = 0;
            while k < n
                invariant
                    k <= n,
                    b < contents@.len() <= usize::MAX,
                    blob@.len() == blob_len,
                    corpus == texts(contents@),
                    corpus.take(b as int + 1).drop_last() == corpus.take(b as int),
                    corpus.take(b as int + 1).last() == blob@,
                    n == self.list@.len(),
                    tags@.len() == n,
                    counts@.len() == n,
                    forall|j: int| 0 <= j < n ==> (#[trigger] tags@[j])@ == self.list@[j].tag@,
                    forall|j: int|
                        0 <= j < k ==> #[trigger] counts@[j] == total_occurrences(
                            self.list@[j].tag@,
                            corpus.take(b as int + 1),
                        ),
                    forall|j: int|
                        0 <= j < k ==> #[trigger] counts@[j] <= (b + 1) * 0x1_0000_0000_0000_0000,
                    forall|j: int|
                        k <= j < n ==> #[trigger] counts@[j] == total_occurrences(
                            self.list@[j].tag@,
                            corpus.take(b as int),
                        ),
                    forall|j: int|
                        k <= j < n ==> #[trigger] counts@[j] <= b * 0x1_0000_0000_0000_0000,
                decreases n - k,
            {
                let found = count_occurrences(blob.as_slice(), tags[k].as_slice());
                assert(found <= 0x1_0000_0000_0000_0000 && b + 1 <= 0xffff_ffff_ffff_ffff);
                let sum = counts[k] + found;
                counts.set(k, sum);
                k += 1;
            }
            b += 1;
        }
        proof {
            assert(corpus.take(b as int) == corpus);
            assert(as_nats(counts@) =~= self.counts(corpus));
        }
        counts
    }

    /// Puts the countries in priority order: those whose tags occur most in
    /// `contents` come first, and countries with equal counts keep the order
    /// of the list.
    pub fn process_priority_queue(&self, contents: &Vec<String>) -> (ranked: Vec<CountryTag>)
        ensures
            ranked@.len() == self.list@.len(),
            is_priority_order(ranked@, self.list@, self.counts(texts(contents@))),
            forall|p: int, q: int|
                0 <= p < q < ranked@.len() ==> total_occurrences(
                    (#[trigger] ranked@[p]).tag@,
                    texts(contents@),
                ) >= total_occurrences((#[trigger] ranked@[q]).tag@, texts(contents@)),
            forall|i: int| 0 <= i < self.list@.len() ==> ranked@.contains(#[trigger] self.list@[i]),
    {
        let counts = self.occurrence_counts(contents);
        let order = rank(&counts);
        let ghost nats = self.counts(texts(contents@));
        let ghost ints = as_ints(order@);
        let n = order.len();
        let mut ranked: Vec<CountryTag> = Vec::new();
        let mut p: usize = 0;
        while p < n
            invariant
                p <= n,
                n == order@.len(),
                n == self.list@.len(),
                ints == as_ints(order@),
                is_ranking(ints, nats),
                ranked@.len() == p,
                forall|q: int| 0 <= q < p ==> #[trigger] ranked@[q] == self.list@[ints[q]],
            decreases n - p,
        {
            assert(0 <= ints[p as int] < n);
            ranked.push(self.list[order[p]].clone());
            p += 1;
        }
        proof {
            assert(ranked@ =~= Seq::new(ints.len(), |p: int| self.list@[ints[p]]));
            assert forall|a: int, b: int| 0 <= a < b < ranked@.len() implies total_occurrences(
                (#[trigger] ranked@[a]).tag@,
                texts(contents@),
            ) >= total_occurrences((#[trigger] ranked@[b]).tag@, texts(contents@)) by {
                assert(ranks_before(nats, ints[a], ints[b]));
            }
            assert forall|i: int| 0 <= i < self.list@.len() implies ranked@.contains(
                #[trigger] self.list@[i],
            ) by {
                assert(ints.contains(i));
                let q = choose|q: int| 0 <= q < ints.len() && ints[q] == i;
                assert(ranked@[q] == self.list@[i]);
            }
        }
        ranked
    }
}

} // verus!
