//! The colours in which each kind of change is shown.
use colored::CustomColor;
use vstd::prelude::*;

verus! {

#[verifier::external_type_specification]
pub struct ExCustomColor(colored::CustomColor);

/// Relies on `colored::CustomColor::new`, which stores the three channels as given.
pub assume_specification[ colored::CustomColor::new ](r: u8, g: u8, b: u8) -> (c: CustomColor)
    ensures
        c.r == r,
        c.g == g,
        c.b == b,
;

/// The channels of a colour.
pub open spec fn rgb(c: CustomColor) -> (u8, u8, u8) {
    (c.r, c.g, c.b)
}

/// What sets a kept char apart in the classification.
#[derive(Clone, Copy, Debug, PartialEq, Eq, Structural)]
pub enum CharChangeType {
    /// Kept, and its sequence index equals the char's numeric code.
    EqualIndex,
    /// Kept, any other case.
    EqualDifferentIndex,
    Insertion,
    Deletion,
}

/// Foreground of a kept char: light grey, or vivid yellow; black for other kinds.
pub open spec fn equal_fg(kind: CharChangeType) -> (u8, u8, u8) {
    match kind {
        CharChangeType::EqualIndex => (220, 220, 220),
        CharChangeType::EqualDifferentIndex => (255, 225, 0),
        _ => (0, 0, 0),
    }
}

/// Background of a kept char: black, or soft blue; black for other kinds.
pub open spec fn equal_bg(kind: CharChangeType) -> (u8, u8, u8) {
    match kind {
        CharChangeType::EqualIndex => (0, 0, 0),
        CharChangeType::EqualDifferentIndex => (100, 100, 180),
        _ => (0, 0, 0),
    }
}

/// The foreground colour of a kept char of kind `change_type`.
pub fn color_equal(change_type: &CharChangeType) -> (c: CustomColor)
    ensures
        rgb(c) == equal_fg(*change_type),
{
    match change_type {
        CharChangeType::EqualIndex => CustomColor::new(220, 220, 220),
        CharChangeType::EqualDifferentIndex => CustomColor::new(255, 225, 0),
        _ => CustomColor::new(0, 0, 0),
    }
}

/// The background colour of a kept char of kind `change_type`.
pub fn bg_color_equal(change_type: &CharChangeType) -> (c: CustomColor)
    ensures
        rgb(c) == equal_bg(*change_type),
{
    match change_type {
        CharChangeType::EqualIndex => CustomColor::new(0, 0, 0),
        CharChangeType::EqualDifferentIndex => CustomColor::new(100, 100, 180),
        _ => CustomColor::new(0, 0, 0),
    }
}

/// Foreground of a removed char: coral red.
pub fn delete_fg() -> (c: CustomColor)
    ensures
        rgb(c) == (255u8, 90u8, 90u8),
{
    CustomColor::new(255, 90, 90)
}

/// Background of a removed char: deep burgundy.
pub fn delete_bg() -> (c: CustomColor)
    ensures
        rgb(c) == (100u8, 20u8, 20u8),
{
    CustomColor::new(100, 20, 20)
}

/// Foreground of an added char: lime green.
pub fn insert_fg() -> (c: CustomColor)
    ensures
        rgb(c) == (100u8, 255u8, 100u8),
{
    CustomColor::new(100, 255, 100)
}

/// Background of an added char: dark forest green.
pub fn insert_bg() -> (c: CustomColor)
    ensures
        rgb(c) == (20u8, 70u8, 20u8),
{
    CustomColor::new(20, 70, 20)
}

} // verus!
