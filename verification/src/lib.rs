use vstd::prelude::*;

pub mod draw;
pub mod label;
pub mod render;
pub mod tile;
pub mod vector_tile;
pub mod wire;

verus! {

/// How a tile is drawn: whether labels are drawn, and the tag that names
/// places.
pub struct Style {
    pub labels: bool,
    pub name: String,
}

/// What drawing a tile reports.
pub struct Result {
    pub feature_count: u64,
}

/// Font size, in pixels, of the small label font at the given zoom level.
pub fn small_size(zoom: u32) -> (size: u32)
    ensures
        size == (if zoom < 8 { 30u32 } else { 36u32 }),
{
    if zoom < 8 {
        return 30;
    }
    return 36;
}

/// The pair of highway sizes, in pixels, for the given zoom level.
pub fn highway_size(zoom: u32) -> (size: (u32, u32))
    ensures
        size == (if zoom == 15 {
            (16u32, 30u32)
        } else if zoom == 14 {
            (10u32, 20u32)
        } else if zoom == 13 {
            (8u32, 16u32)
        } else if zoom == 12 {
            (7u32, 12u32)
        } else if 9 <= zoom <= 11 {
            (5u32, 10u32)
        } else if 6 <= zoom <= 8 {
            (4u32, 8u32)
        } else {
            (1u32, 0u32)
        }),
{
    match zoom {
        15 => return (16, 30),
        14 => return (10, 20),
        13 => return (8, 16),
        12 => return (7, 12),
        9..=11 => return (5, 10),
        6..=8 => return (4, 8),
        _ => return (1, 0),
    }
}

/// Font size, in pixels, of the big label font.
pub const FONT_SIZE_BIG: u32 = 20;

/// Width and height, in pixels, of a drawn tile.
pub const TILE_SIZE: u32 = 2048;

} // verus!
