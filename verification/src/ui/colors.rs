use vstd::prelude::*;

verus! {

/// A colour by its red, green and blue parts.
#[derive(Clone, Copy, Debug, PartialEq, Eq, Structural)]
pub struct Rgb {
    pub r: u8,
    pub g: u8,
    pub b: u8,
}

/// The colour that stands for a bucket of line counts: grey, light blue,
/// green, yellow, orange, and red from bucket 5 on.
pub open spec fn lines_color(category: nat) -> Rgb {
    if category == 0 {
        Rgb { r: 100, g: 100, b: 100 }
    } else if category == 1 {
        Rgb { r: 50, g: 150, b: 200 }
    } else if category == 2 {
        Rgb { r: 100, g: 200, b: 100 }
    } else if category == 3 {
        Rgb { r: 200, g: 200, b: 100 }
    } else if category == 4 {
        Rgb { r: 255, g: 165, b: 0 }
    } else {
        Rgb { r: 200, g: 50, b: 50 }
    }
}

/// The colour that stands for a bucket of change rates: dark blue, cyan,
/// green, yellow, and red from bucket 4 on.
pub open spec fn change_frequency_color(category: nat) -> Rgb {
    if category == 0 {
        Rgb { r: 50, g: 100, b: 150 }
    } else if category == 1 {
        Rgb { r: 50, g: 150, b: 200 }
    } else if category == 2 {
        Rgb { r: 100, g: 200, b: 100 }
    } else if category == 3 {
        Rgb { r: 255, g: 200, b: 50 }
    } else {
        Rgb { r: 220, g: 50, b: 50 }
    }
}

/// The colour of a bucket of line counts.
pub fn get_lines_color(category: usize) -> (color: Rgb)
    ensures
        color == lines_color(category as nat),
{
    match category {
        0 => Rgb { r: 100, g: 100, b: 100 },
        1 => Rgb { r: 50, g: 150, b: 200 },
        2 => Rgb { r: 100, g: 200, b: 100 },
        3 => Rgb { r: 200, g: 200, b: 100 },
        4 => Rgb { r: 255, g: 165, b: 0 },
        _ => Rgb { r: 200, g: 50, b: 50 },
    }
}

/// The colour of a bucket of change rates.
pub fn get_change_frequency_color(category: usize) -> (color: Rgb)
    ensures
        color == change_frequency_color(category as nat),
{
    match category {
        0 => Rgb { r: 50, g: 100, b: 150 },
        1 => Rgb { r: 50, g: 150, b: 200 },
        2 => Rgb { r: 100, g: 200, b: 100 },
        3 => Rgb { r: 255, g: 200, b: 50 },
        _ => Rgb { r: 220, g: 50, b: 50 },
    }
}

} // verus!
