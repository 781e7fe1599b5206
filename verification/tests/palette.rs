use country_colors::allocation::{allocate, AllocationError};
use country_colors::color::{color_distance_squared, same_color};
use country_colors::country_tags::CountryTag;
use country_colors::lattice::{gen_colors_set, PaletteError};
use country_colors::palette::Palette;

fn country(tag: &str, color: (u8, u8, u8)) -> CountryTag {
    CountryTag { tag: tag.to_string(), color, path: format!("countries/{}.txt", tag) }
}

fn lattice(levels: &[u8]) -> Vec<(u8, u8, u8)> {
    let mut colors = Vec::new();
    for r in levels {
        for g in levels {
            for b in levels {
                colors.push((*r, *g, *b));
            }
        }
    }
    colors
}

#[test]
fn eight_countries_get_eight_colors() {
    let palette = gen_colors_set(8).unwrap();
    assert_eq!(palette.len(), 8);
    assert_eq!(palette.colors(), lattice(&[64, 192]));
}

#[test]
fn ten_countries_get_twenty_seven_colors() {
    let palette = gen_colors_set(10).unwrap();
    assert_eq!(palette.len(), 27);
    assert_eq!(palette.colors(), lattice(&[59, 178, 255]));
}

#[test]
fn one_country_gets_the_middle_grey() {
    let palette = gen_colors_set(1).unwrap();
    assert_eq!(palette.colors(), vec![(128, 128, 128)]);
}

#[test]
fn twenty_seven_countries_get_twenty_seven_colors() {
    let palette = gen_colors_set(27).unwrap();
    assert_eq!(palette.colors(), lattice(&[43, 128, 213]));
}

#[test]
fn a_palette_may_be_smaller_than_the_number_of_countries() {
    let palette = gen_colors_set(126).unwrap();
    assert_eq!(palette.len(), 125);
    assert_eq!(palette.colors(), lattice(&[26, 77, 128, 179, 230]));
}

#[test]
fn a_thousand_countries_get_a_thousand_colors() {
    let palette = gen_colors_set(1000).unwrap();
    assert_eq!(palette.colors(), lattice(&[13, 38, 64, 90, 115, 141, 166, 192, 218, 243]));
}

#[test]
fn zero_countries_are_rejected() {
    assert!(matches!(gen_colors_set(0), Err(PaletteError::InvalidArgument)));
}

#[test]
fn generated_colors_are_all_different() {
    for n in 1..200usize {
        let colors = gen_colors_set(n).unwrap().colors();
        for i in 0..colors.len() {
            for j in (i + 1)..colors.len() {
                assert_ne!(colors[i], colors[j]);
            }
        }
    }
}

#[test]
fn generated_colors_ascend() {
    let colors = gen_colors_set(64).unwrap().colors();
    assert_eq!(colors.len(), 64);
    for i in 1..colors.len() {
        assert!(colors[i - 1] < colors[i]);
    }
}

#[test]
fn generation_is_deterministic() {
    for n in [1usize, 8, 10, 27, 100, 343, 500] {
        assert_eq!(gen_colors_set(n).unwrap().colors(), gen_colors_set(n).unwrap().colors());
    }
}

#[test]
fn a_very_large_count_gives_every_level_once() {
    let palette = gen_colors_set(16_777_216).unwrap();
    assert_eq!(palette.len(), 255 * 255 * 255);
    let colors = palette.colors();
    assert_eq!(colors[0], (1, 1, 1));
    assert_eq!(colors[colors.len() - 1], (255, 255, 255));
}

#[test]
fn distance_is_the_sum_of_squares() {
    assert_eq!(color_distance_squared(&(0, 0, 0), &(0, 0, 0)), 0);
    assert_eq!(color_distance_squared(&(0, 0, 0), &(255, 255, 255)), 195075);
    assert_eq!(color_distance_squared(&(255, 255, 255), &(0, 0, 0)), 195075);
    assert_eq!(color_distance_squared(&(1, 2, 3), &(4, 6, 3)), 25);
    assert_eq!(color_distance_squared(&(10, 10, 10), &(0, 0, 0)), 300);
}

#[test]
fn colors_agree_channel_by_channel() {
    assert!(same_color(&(1, 2, 3), &(1, 2, 3)));
    assert!(!same_color(&(1, 2, 3), &(1, 2, 4)));
    assert!(!same_color(&(1, 2, 3), &(0, 2, 3)));
    assert!(!same_color(&(1, 2, 3), &(1, 0, 3)));
}

#[test]
fn a_given_palette_keeps_the_first_of_equal_colors() {
    let palette = Palette::from_colors(vec![(1, 1, 1), (2, 2, 2), (1, 1, 1), (3, 3, 3), (2, 2, 2)]);
    assert_eq!(palette.colors(), vec![(1, 1, 1), (2, 2, 2), (3, 3, 3)]);
    assert_eq!(palette.len(), 3);
}

#[test]
fn closest_finds_the_first_of_the_nearest() {
    let palette = Palette::from_colors(vec![(20, 0, 0), (0, 10, 0), (10, 0, 0), (0, 0, 10)]);
    assert_eq!(palette.closest(&(0, 0, 0)), Some(1));
    assert_eq!(palette.closest(&(20, 0, 0)), Some(0));
    assert_eq!(Palette::from_colors(vec![]).closest(&(0, 0, 0)), None);
}

#[test]
fn taking_removes_the_color() {
    let mut palette = Palette::from_colors(vec![(20, 0, 0), (0, 10, 0), (10, 0, 0)]);
    assert_eq!(palette.take_closest(&(0, 0, 0)), Some((0, 10, 0)));
    assert_eq!(palette.colors(), vec![(20, 0, 0), (10, 0, 0)]);
    assert_eq!(palette.take_closest(&(0, 0, 0)), Some((10, 0, 0)));
    assert_eq!(palette.take_closest(&(0, 0, 0)), Some((20, 0, 0)));
    assert_eq!(palette.take_closest(&(0, 0, 0)), None);
    assert_eq!(palette.len(), 0);
}

#[test]
fn allocation_is_greedy() {
    let ranked = vec![country("AAA", (0, 0, 0)), country("BBB", (255, 255, 255))];
    let mut palette = Palette::from_colors(vec![(10, 10, 10), (240, 240, 240)]);
    let assignment = allocate(&ranked, &mut palette).unwrap();
    assert_eq!(assignment.len(), 2);
    assert_eq!(assignment[0].0.tag, "AAA");
    assert_eq!(assignment[0].1, (10, 10, 10));
    assert_eq!(assignment[1].0.tag, "BBB");
    assert_eq!(assignment[1].1, (240, 240, 240));
    assert_eq!(palette.len(), 0);
}

#[test]
fn the_first_country_has_the_first_choice() {
    let ranked = vec![country("AAA", (100, 100, 100)), country("BBB", (100, 100, 100))];
    let mut palette = Palette::from_colors(vec![(0, 0, 0), (90, 90, 90), (120, 120, 120)]);
    let assignment = allocate(&ranked, &mut palette).unwrap();
    assert_eq!(assignment[0].1, (90, 90, 90));
    assert_eq!(assignment[1].1, (120, 120, 120));
    assert_eq!(palette.colors(), vec![(0, 0, 0)]);
}

#[test]
fn allocation_is_not_optimal() {
    let ranked = vec![country("AAA", (10, 0, 0)), country("BBB", (0, 0, 0))];
    let mut palette = Palette::from_colors(vec![(4, 0, 0), (100, 0, 0)]);
    let assignment = allocate(&ranked, &mut palette).unwrap();
    assert_eq!(assignment[0].1, (4, 0, 0));
    assert_eq!(assignment[1].1, (100, 0, 0));
}

#[test]
fn equal_distances_go_to_the_earlier_color() {
    let ranked = vec![country("AAA", (10, 10, 10))];
    let mut palette = Palette::from_colors(vec![(12, 10, 10), (10, 12, 10), (8, 10, 10)]);
    let assignment = allocate(&ranked, &mut palette).unwrap();
    assert_eq!(assignment[0].1, (12, 10, 10));
}

#[test]
fn no_color_is_used_twice() {
    let mut ranked = Vec::new();
    for i in 0..60u8 {
        ranked.push(country(&format!("T{:02}", i), (i, 128, 255 - i)));
    }
    let mut palette = gen_colors_set(60).unwrap();
    let before = palette.colors();
    let assignment = allocate(&ranked, &mut palette).unwrap();
    assert_eq!(assignment.len(), 60);
    for i in 0..assignment.len() {
        assert_eq!(assignment[i].0.tag, ranked[i].tag);
        assert!(before.contains(&assignment[i].1));
        assert!(!palette.colors().contains(&assignment[i].1));
        for j in (i + 1)..assignment.len() {
            assert_ne!(assignment[i].1, assignment[j].1);
        }
    }
    assert_eq!(palette.len(), before.len() - 60);
}

#[test]
fn three_countries_exhaust_two_colors() {
    let ranked =
        vec![country("AAA", (0, 0, 0)), country("BBB", (1, 1, 1)), country("CCC", (2, 2, 2))];
    let mut palette = Palette::from_colors(vec![(10, 10, 10), (240, 240, 240)]);
    let outcome = allocate(&ranked, &mut palette);
    assert!(matches!(outcome, Err(AllocationError::PaletteExhausted)));
    assert_eq!(palette.colors(), vec![(10, 10, 10), (240, 240, 240)]);
}

#[test]
fn a_generated_palette_can_be_too_small() {
    let mut ranked = Vec::new();
    for i in 0..126u8 {
        ranked.push(country(&format!("T{:03}", i), (i, i, i)));
    }
    let mut palette = gen_colors_set(ranked.len()).unwrap();
    assert!(matches!(allocate(&ranked, &mut palette), Err(AllocationError::PaletteExhausted)));
}

#[test]
fn no_countries_take_no_colors() {
    let mut palette = Palette::from_colors(vec![(10, 10, 10)]);
    let assignment = allocate(&Vec::new(), &mut palette).unwrap();
    assert!(assignment.is_empty());
    assert_eq!(palette.len(), 1);
}
