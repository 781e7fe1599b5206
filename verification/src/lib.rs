//! Reassigns visually distinct colours to tagged countries, giving the
//! countries that a text corpus mentions most the first choice.

pub mod allocation;
pub mod color;
pub mod country_tags;
pub mod definition;
pub mod latin1;
pub mod lattice;
pub mod palette;
pub mod ranking;
pub mod recolor;
pub mod text;
