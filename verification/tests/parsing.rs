use country_colors::country_tags::{CountryTag, CountryTags};
use country_colors::definition::{
    defines_country, definition_lines, find_path_range, find_tag_end, parse_byte, parse_bytes,
    parse_color, whitespace, width_of, ParseError,
};

fn chars(s: &str) -> Vec<char> {
    s.chars().collect()
}

fn strings(items: &[&str]) -> Vec<String> {
    items.iter().map(|s| s.to_string()).collect()
}

#[test]
fn a_line_gives_tag_path_and_color() {
    let country =
        CountryTag::parse_line("GER = \"countries/Germany.txt\"", "color = { 10 20 30 }").unwrap();
    assert_eq!(country.tag, "GER");
    assert_eq!(country.path, "countries/Germany.txt");
    assert_eq!(country.color, (10, 20, 30));
}

#[test]
fn a_heading_gives_tag_and_path() {
    assert_eq!(
        CountryTag::parse_heading("FRA\t=\t\"countries/France.txt\" # comment \"x\""),
        Ok(("FRA".to_string(), "countries/France.txt".to_string()))
    );
    assert_eq!(
        CountryTag::parse_heading("\"a\"=\"b\""),
        Ok(("\"a\"".to_string(), "a".to_string()))
    );
}

#[test]
fn the_tag_is_three_bytes_long() {
    assert_eq!(find_tag_end(&chars("GER = x")), Some(3));
    assert_eq!(find_tag_end(&chars("GER")), Some(3));
    assert_eq!(find_tag_end(&chars("éa=")), Some(2));
    assert_eq!(find_tag_end(&chars("aé=")), Some(2));
    assert_eq!(find_tag_end(&chars("€=")), Some(1));
    assert_eq!(find_tag_end(&chars("ab")), None);
    assert_eq!(find_tag_end(&chars("")), None);
    assert_eq!(find_tag_end(&chars("ab€")), None);
    assert_eq!(find_tag_end(&chars("éé")), None);
    assert_eq!(find_tag_end(&chars("\u{10000}")), None);
    assert_eq!(CountryTag::parse_heading("ab"), Err(ParseError::MissingTag));
    assert_eq!(CountryTag::parse_heading("éé = \"x\""), Err(ParseError::MissingTag));
    assert_eq!(
        CountryTag::parse_heading("éa = \"xy\""),
        Ok(("éa".to_string(), "xy".to_string()))
    );
}

#[test]
fn widths_are_those_of_utf8() {
    for c in ['\0', 'a', '\u{7f}', '\u{80}', 'é', '\u{7ff}', '\u{800}', '€', '\u{ffff}', '\u{10000}', '\u{10ffff}'] {
        assert_eq!(width_of(c), c.len_utf8());
    }
}

#[test]
fn the_path_stands_between_quotes() {
    assert_eq!(find_path_range(&chars("GER = \"a/b.txt\"")), Some((7, 14)));
    assert_eq!(find_path_range(&chars("GER = \"a\"")), Some((7, 8)));
    assert_eq!(find_path_range(&chars("GER = \"a\" \"b\"")), Some((7, 8)));
    assert_eq!(find_path_range(&chars("GER = a/b.txt")), None);
    assert_eq!(find_path_range(&chars("GER = \"a/b.txt")), None);
    assert_eq!(find_path_range(&chars("GER = \"")), None);
    assert_eq!(CountryTag::parse_heading("GER = a/b.txt"), Err(ParseError::MissingPath));
}

#[test]
fn the_first_character_of_the_path_is_not_looked_at() {
    assert_eq!(find_path_range(&chars("GER = \"\"")), None);
    assert_eq!(find_path_range(&chars("GER = \"\"x\"")), Some((7, 9)));
    assert_eq!(
        CountryTag::parse_heading("GER = \"\"x\""),
        Ok(("GER".to_string(), "\"x".to_string()))
    );
    assert_eq!(find_path_range(&chars("GER = \"é.txt\"")), None);
    assert_eq!(find_path_range(&chars("GER = \"aé.txt\"")), Some((7, 13)));
}

#[test]
fn a_color_is_three_numerals_between_braces() {
    assert_eq!(parse_color(&chars("color = { 10 20 30 }")), Some((10, 20, 30)));
    assert_eq!(parse_color(&chars("x\ncolor\t=\t{\n255\n0\n7\n}\n")), Some((255, 0, 7)));
    assert_eq!(parse_color(&chars("color = { 1 2 3 4 }")), Some((1, 2, 3)));
    assert_eq!(parse_color(&chars("color = { 1 2 3}")), Some((1, 2, 3)));
    assert_eq!(parse_color(&chars("color = { +1 002 3 }")), Some((1, 2, 3)));
    assert_eq!(parse_color(&chars("color = { 1 x 256 2 -3 3.0 3 }")), Some((1, 2, 3)));
    assert_eq!(parse_color(&chars("color = { 1\u{a0}2\u{3000}3 }")), Some((1, 2, 3)));
    assert_eq!(parse_color(&chars("colors = { 1 2 3 }")), Some((1, 2, 3)));
    assert_eq!(
        CountryTag::parse_color_from_file("graphical_culture = x\ncolor = { 9 8 7 }\n"),
        Some((9, 8, 7))
    );
}

#[test]
fn a_color_can_be_missing() {
    assert_eq!(parse_color(&chars("")), None);
    assert_eq!(parse_color(&chars("colour = { 1 2 3 }")), None);
    assert_eq!(parse_color(&chars("{ 1 2 3 } color")), None);
    assert_eq!(parse_color(&chars("color = 1 2 3 }")), None);
    assert_eq!(parse_color(&chars("color = { 1 2 3")), None);
    assert_eq!(parse_color(&chars("color = { 1 2 }")), None);
    assert_eq!(parse_color(&chars("color = {1 2 3 }")), None);
    assert_eq!(parse_color(&chars("color = { 1 2 } 3 }")), None);
    assert_eq!(parse_color(&chars("color = { 1 2 300 }")), None);
    assert_eq!(
        CountryTag::parse_line("GER = \"a\"", "no field"),
        Err(ParseError::MissingColor)
    );
}

#[test]
fn the_brace_counts_as_part_of_the_first_token() {
    assert_eq!(parse_color(&chars("color = {1 2 3 4 }")), Some((2, 3, 4)));
}

#[test]
fn numerals_are_read_as_the_standard_library_reads_them() {
    let tokens = [
        "", "0", "7", "42", "255", "256", "0255", "00000000000000000000255", "+", "+0", "+255",
        "+256", "-1", "-0", "++1", "1+", "12a", "a12", " 1", "1 ", "٣", "99999999999999999999",
        "1000", "2550", "025", "+025",
    ];
    for token in tokens {
        assert_eq!(parse_byte(&chars(token)), token.parse::<u8>().ok());
    }
}

#[test]
fn tokens_are_split_as_the_standard_library_splits_them() {
    let texts = [
        "", " ", "1", " 1 ", "1 2 3", "1  2\t\t3\n4\r5", "a 1 b 2", "{ 1 22 255", "1\u{a0}2",
        "1\u{85}2\u{1680}3\u{2000}4\u{200a}5\u{2028}6\u{2029}7\u{202f}8\u{205f}9\u{3000}10",
        "1\u{200b}2", "1\u{feff}2 3", "256 255 254", "+1 -1 1",
    ];
    for text in texts {
        let expected: Vec<u8> =
            text.split(char::is_whitespace).filter_map(|x| x.parse::<u8>().ok()).collect();
        assert_eq!(parse_bytes(&chars(text)), expected);
    }
}

#[test]
fn white_space_is_that_of_the_standard_library() {
    for n in 0..=0x3100u32 {
        if let Some(c) = char::from_u32(n) {
            assert_eq!(whitespace(c), c.is_whitespace());
        }
    }
    assert!(!whitespace('\u{10ffff}'));
}

#[test]
fn definition_lines_hold_an_equals_sign_and_are_no_comments() {
    assert!(defines_country(&chars("GER = \"a\"")));
    assert!(defines_country(&chars("=")));
    assert!(defines_country(&chars(" # GER = \"a\"")));
    assert!(!defines_country(&chars("# GER = \"a\"")));
    assert!(!defines_country(&chars("#")));
    assert!(!defines_country(&chars("GER \"a\"")));
    assert!(!defines_country(&chars("")));
}

#[test]
fn lines_are_split_as_the_standard_library_splits_them() {
    let texts = [
        "", "\n", "a=b", "a=b\n", "a=b\r\n", "a=b\r", "a=b\n\nc=d", "a=b\r\nc=d\r\n",
        "#a=b\nc=d", "x\na=b\ny", "a=b\r\r\nc=d", "\r\na=b", "a=b\n\r", "=\n=\n=",
        "a\n# c = d\ne = \"f\"\n\n\ng=h",
    ];
    for text in texts {
        let expected: Vec<String> = text
            .lines()
            .filter(|l| l.contains('=') && !l.starts_with('#'))
            .map(|l| l.to_string())
            .collect();
        assert_eq!(definition_lines(text), expected);
    }
}

#[test]
fn files_give_countries_in_the_order_of_their_lines() {
    let input = strings(&[
        "# tags\nGER = \"countries/Germany.txt\"\r\nFRA = \"countries/France.txt\"\r\n",
        "\nnot a definition\nENG = \"countries/England.txt\"",
    ]);
    assert_eq!(
        CountryTags::definitions(&input),
        strings(&[
            "GER = \"countries/Germany.txt\"",
            "FRA = \"countries/France.txt\"",
            "ENG = \"countries/England.txt\"",
        ])
    );
    assert_eq!(
        CountryTags::country_file_paths(&input),
        Ok(strings(&["countries/Germany.txt", "countries/France.txt", "countries/England.txt"]))
    );
    let files = strings(&["color = { 1 2 3 }", "color = { 4 5 6 }", "color = { 7 8 9 }"]);
    let tags = CountryTags::parse_files(input, files).unwrap();
    assert_eq!(tags.list.len(), 3);
    assert_eq!(tags.list[0].tag, "GER");
    assert_eq!(tags.list[0].color, (1, 2, 3));
    assert_eq!(tags.list[0].path, "countries/Germany.txt");
    assert_eq!(tags.list[1].tag, "FRA");
    assert_eq!(tags.list[1].color, (4, 5, 6));
    assert_eq!(tags.list[2].tag, "ENG");
    assert_eq!(tags.list[2].color, (7, 8, 9));
    assert_eq!(tags.list[2].path, "countries/England.txt");
}

#[test]
fn the_first_of_two_equal_tags_counts() {
    let input = strings(&["GER = \"a.txt\"\nFRA = \"b.txt\"\nGER = \"c.txt\"\nFRA = \"d.txt\""]);
    let files = strings(&[
        "color = { 1 1 1 }",
        "color = { 2 2 2 }",
        "color = { 3 3 3 }",
        "color = { 4 4 4 }",
    ]);
    let tags = CountryTags::parse_files(input, files).unwrap();
    assert_eq!(tags.list.len(), 2);
    assert_eq!(tags.list[0].tag, "GER");
    assert_eq!(tags.list[0].path, "a.txt");
    assert_eq!(tags.list[0].color, (1, 1, 1));
    assert_eq!(tags.list[1].tag, "FRA");
    assert_eq!(tags.list[1].path, "b.txt");
    assert_eq!(tags.list[1].color, (2, 2, 2));
}

#[test]
fn no_files_give_no_countries() {
    let tags = CountryTags::parse_files(Vec::new(), Vec::new()).unwrap();
    assert!(tags.list.is_empty());
    let tags = CountryTags::parse_files(strings(&["# nothing\n\n"]), Vec::new()).unwrap();
    assert!(tags.list.is_empty());
    assert_eq!(CountryTags::country_file_paths(&Vec::new()), Ok(Vec::new()));
}

#[test]
fn the_first_bad_definition_stops_the_reading() {
    let good = "color = { 1 2 3 }";
    let files = |n: usize| -> Vec<String> { (0..n).map(|_| good.to_string()).collect() };
    let outcome = CountryTags::parse_files(strings(&["GER = \"a\"\nx=\nFRA = b"]), files(3));
    assert!(matches!(outcome, Err(ParseError::MissingTag)));
    let outcome = CountryTags::parse_files(strings(&["GER = \"a\"\nFRA = b\nx="]), files(3));
    assert!(matches!(outcome, Err(ParseError::MissingPath)));
    let outcome = CountryTags::parse_files(
        strings(&["GER = \"a\"\nFRA = \"b\"\nx="]),
        strings(&[good, "nothing", good]),
    );
    assert!(matches!(outcome, Err(ParseError::MissingColor)));
    assert_eq!(
        CountryTags::country_file_paths(&strings(&["GER = \"a\"\nFRA = b\nx="])),
        Err(ParseError::MissingPath)
    );
    assert_eq!(
        CountryTags::country_file_paths(&strings(&["GER = \"a\"", "x=", "FRA = b"])),
        Err(ParseError::MissingTag)
    );
}

#[test]
fn each_definition_needs_its_country_file() {
    let input = strings(&["GER = \"a\"\nFRA = \"b\""]);
    let one = strings(&["color = { 1 2 3 }"]);
    let three = strings(&["color = { 1 2 3 }", "color = { 1 2 3 }", "color = { 1 2 3 }"]);
    assert!(matches!(
        CountryTags::parse_files(input.clone(), one),
        Err(ParseError::MissingCountryFile)
    ));
    assert!(matches!(
        CountryTags::parse_files(input.clone(), three),
        Err(ParseError::MissingCountryFile)
    ));
    assert!(matches!(
        CountryTags::parse_files(strings(&["GER = \"a\"\nFRA = b"]), strings(&["color = { 1 2 3 }"])),
        Err(ParseError::MissingCountryFile)
    ));
}
