use country_colors::country_tags::{CountryTag, CountryTags};
use country_colors::ranking::rank;
use country_colors::text::{chars_of, count_occurrences, find, find_char, matches_at};

fn country(tag: &str) -> CountryTag {
    CountryTag { tag: tag.to_string(), color: (0, 0, 0), path: String::new() }
}

fn countries(tags: &[&str]) -> CountryTags {
    CountryTags { list: tags.iter().map(|t| country(t)).collect() }
}

fn corpus(blobs: &[&str]) -> Vec<String> {
    blobs.iter().map(|b| b.to_string()).collect()
}

fn tags_of(ranked: &[CountryTag]) -> Vec<String> {
    ranked.iter().map(|c| c.tag.clone()).collect()
}

fn chars(s: &str) -> Vec<char> {
    s.chars().collect()
}

#[test]
fn the_more_frequent_tag_comes_first() {
    let tags = countries(&["A", "B"]);
    let contents = corpus(&["AAB", "A"]);
    assert_eq!(tags.occurrence_counts(&contents), vec![3, 1]);
    assert_eq!(tags_of(&tags.process_priority_queue(&contents)), vec!["A", "B"]);
}

#[test]
fn the_order_of_the_list_does_not_decide() {
    let tags = countries(&["B", "A"]);
    let contents = corpus(&["AAB", "A"]);
    assert_eq!(tags.occurrence_counts(&contents), vec![1, 3]);
    assert_eq!(tags_of(&tags.process_priority_queue(&contents)), vec!["A", "B"]);
}

#[test]
fn equal_counts_keep_the_order_of_the_list() {
    let tags = countries(&["GER", "FRA", "ENG", "RUS"]);
    let contents = corpus(&["FRA RUS GER", "tag = RUS", "ENG"]);
    assert_eq!(tags.occurrence_counts(&contents), vec![1, 1, 1, 2]);
    assert_eq!(
        tags_of(&tags.process_priority_queue(&contents)),
        vec!["RUS", "GER", "FRA", "ENG"]
    );
}

#[test]
fn an_empty_corpus_keeps_the_list() {
    let tags = countries(&["GER", "FRA"]);
    assert_eq!(tags.occurrence_counts(&Vec::new()), vec![0, 0]);
    assert_eq!(tags_of(&tags.process_priority_queue(&Vec::new())), vec!["GER", "FRA"]);
}

#[test]
fn ranking_keeps_color_and_path() {
    let tags = CountryTags {
        list: vec![
            CountryTag { tag: "GER".to_string(), color: (1, 2, 3), path: "countries/Germany.txt".to_string() },
            CountryTag { tag: "FRA".to_string(), color: (4, 5, 6), path: "countries/France.txt".to_string() },
        ],
    };
    let ranked = tags.process_priority_queue(&corpus(&["FRA"]));
    assert_eq!(ranked[0].tag, "FRA");
    assert_eq!(ranked[0].color, (4, 5, 6));
    assert_eq!(ranked[0].path, "countries/France.txt");
    assert_eq!(ranked[1].tag, "GER");
    assert_eq!(ranked[1].color, (1, 2, 3));
    assert_eq!(ranked[1].path, "countries/Germany.txt");
}

#[test]
fn every_country_is_ranked_once() {
    let tags = countries(&["AAA", "BBB", "CCC", "DDD", "EEE"]);
    let contents = corpus(&["CCC EEE CCC", "AAA EEE", "EEE"]);
    let mut ranked = tags_of(&tags.process_priority_queue(&contents));
    assert_eq!(ranked, vec!["EEE", "CCC", "AAA", "BBB", "DDD"]);
    ranked.sort();
    assert_eq!(ranked, vec!["AAA", "BBB", "CCC", "DDD", "EEE"]);
}

#[test]
fn rank_orders_by_count_then_place() {
    assert_eq!(rank(&vec![1, 3, 2, 3, 0]), vec![1, 3, 2, 0, 4]);
    assert_eq!(rank(&vec![]), Vec::<usize>::new());
    assert_eq!(rank(&vec![5, 5, 5]), vec![0, 1, 2]);
    assert_eq!(rank(&vec![0, 1, 2]), vec![2, 1, 0]);
}

#[test]
fn occurrences_do_not_overlap() {
    assert_eq!(count_occurrences(&chars("AAAA"), &chars("AA")), 2);
    assert_eq!(count_occurrences(&chars("AAAA"), &chars("AAA")), 1);
    assert_eq!(count_occurrences(&chars("AAAAA"), &chars("AA")), 2);
    assert_eq!(count_occurrences(&chars("abababa"), &chars("aba")), 2);
    assert_eq!(count_occurrences(&chars("GER FRA GER"), &chars("GER")), 2);
    assert_eq!(count_occurrences(&chars("GER"), &chars("GERM")), 0);
    assert_eq!(count_occurrences(&chars(""), &chars("A")), 0);
}

#[test]
fn the_empty_tag_occurs_at_every_position() {
    assert_eq!(count_occurrences(&chars("abc"), &chars("")), 4);
    assert_eq!(count_occurrences(&chars(""), &chars("")), 1);
    assert_eq!(count_occurrences(&chars("héé"), &chars("")), 4);
}

#[test]
fn counting_agrees_with_the_standard_library() {
    let hays = ["", "a", "aaaa", "abcabcabc", "xxGERxxGERGER", "ééé é", "ababab"];
    let needles = ["", "a", "aa", "abc", "GER", "é", "ab", "ba", "zzz"];
    for hay in hays {
        for needle in needles {
            assert_eq!(
                count_occurrences(&chars(hay), &chars(needle)),
                hay.matches(needle).count() as u128
            );
        }
    }
}

#[test]
fn find_gives_the_first_position() {
    assert_eq!(find(&chars("xxcolorxxcolor"), &chars("color"), 0), Some(2));
    assert_eq!(find(&chars("xxcolorxxcolor"), &chars("color"), 3), Some(9));
    assert_eq!(find(&chars("xxcolorxxcolor"), &chars("color"), 10), None);
    assert_eq!(find(&chars("colo"), &chars("color"), 0), None);
    assert_eq!(find(&chars("abc"), &chars(""), 3), Some(3));
    assert_eq!(find(&chars("abc"), &chars(""), 4), None);
    assert_eq!(find_char(&chars("a}b}"), '}', 0), Some(1));
    assert_eq!(find_char(&chars("a}b}"), '}', 2), Some(3));
    assert_eq!(find_char(&chars("a}b}"), '}', 4), None);
    assert_eq!(find_char(&chars("a}b}"), '}', 9), None);
    assert!(matches_at(&chars("abc"), &chars("bc"), 1));
    assert!(!matches_at(&chars("abc"), &chars("bc"), 2));
    assert!(!matches_at(&chars("abc"), &chars("bc"), usize::MAX));
}

#[test]
fn chars_of_lists_the_characters() {
    assert_eq!(chars_of("aé€"), vec!['a', 'é', '€']);
    assert_eq!(chars_of(""), Vec::<char>::new());
}

#[test]
fn countries_are_equal_by_tag() {
    let a = CountryTag { tag: "GER".to_string(), color: (1, 2, 3), path: "a".to_string() };
    let b = CountryTag { tag: "GER".to_string(), color: (4, 5, 6), path: "b".to_string() };
    let c = CountryTag { tag: "FRA".to_string(), color: (1, 2, 3), path: "a".to_string() };
    assert!(a == b);
    assert!(a != c);
    let copy = a.clone();
    assert_eq!(copy.tag, "GER");
    assert_eq!(copy.color, (1, 2, 3));
    assert_eq!(copy.path, "a");
}
