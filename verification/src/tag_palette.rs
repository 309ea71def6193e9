//! Palette for tag highlighting. The values are CSS OKLCH colours, so a front
//! end can apply them as they are.

use vstd::prelude::*;

verus! {

/// Number of colours in the palette.
pub const PALETTE_LEN: u32 = 16;

/// The colour at `index` of the palette; indices wrap around its length.
pub open spec fn palette_color(index: nat) -> Seq<char> {
    let slot = index % 16;
    if slot == 0 {
        "oklch(0.78 0.20 25)"@
    } else if slot == 1 {
        "oklch(0.80 0.19 55)"@
    } else if slot == 2 {
        "oklch(0.82 0.18 90)"@
    } else if slot == 3 {
        "oklch(0.83 0.17 120)"@
    } else if slot == 4 {
        "oklch(0.82 0.16 150)"@
    } else if slot == 5 {
        "oklch(0.80 0.17 180)"@
    } else if slot == 6 {
        "oklch(0.79 0.18 210)"@
    } else if slot == 7 {
        "oklch(0.78 0.19 235)"@
    } else if slot == 8 {
        "oklch(0.77 0.20 260)"@
    } else if slot == 9 {
        "oklch(0.78 0.19 285)"@
    } else if slot == 10 {
        "oklch(0.80 0.18 310)"@
    } else if slot == 11 {
        "oklch(0.81 0.18 330)"@
    } else if slot == 12 {
        "oklch(0.83 0.17 345)"@
    } else if slot == 13 {
        "oklch(0.84 0.16 10)"@
    } else if slot == 14 {
        "oklch(0.82 0.18 40)"@
    } else {
        "oklch(0.79 0.19 70)"@
    }
}

/// Every palette colour is a non-empty string.
pub proof fn palette_colors_are_nonempty(index: nat)
    ensures
        palette_color(index).len() > 0,
{
    reveal_strlit("oklch(0.78 0.20 25)");
    reveal_strlit("oklch(0.80 0.19 55)");
    reveal_strlit("oklch(0.82 0.18 90)");
    reveal_strlit("oklch(0.83 0.17 120)");
    reveal_strlit("oklch(0.82 0.16 150)");
    reveal_strlit("oklch(0.80 0.17 180)");
    reveal_strlit("oklch(0.79 0.18 210)");
    reveal_strlit("oklch(0.78 0.19 235)");
    reveal_strlit("oklch(0.77 0.20 260)");
    reveal_strlit("oklch(0.78 0.19 285)");
    reveal_strlit("oklch(0.80 0.18 310)");
    reveal_strlit("oklch(0.81 0.18 330)");
    reveal_strlit("oklch(0.83 0.17 345)");
    reveal_strlit("oklch(0.84 0.16 10)");
    reveal_strlit("oklch(0.82 0.18 40)");
    reveal_strlit("oklch(0.79 0.19 70)");
}

/// Returns the CSS colour of the tag `id`: the palette entry at `id mod 16`.
pub fn color_for(id: u32) -> (color: &'static str)
    ensures
        color@ == palette_color(id as nat),
        color@.len() > 0,
{
    proof {
        palette_colors_are_nonempty(id as nat);
    }
    let slot: u32 = id % PALETTE_LEN;
    if slot == 0 {
        "oklch(0.78 0.20 25)"
    } else if slot == 1 {
        "oklch(0.80 0.19 55)"
    } else if slot == 2 {
        "oklch(0.82 0.18 90)"
    } else if slot == 3 {
        "oklch(0.83 0.17 120)"
    } else if slot == 4 {
        "oklch(0.82 0.16 150)"
    } else if slot == 5 {
        "oklch(0.80 0.17 180)"
    } else if slot == 6 {
        "oklch(0.79 0.18 210)"
    } else if slot == 7 {
        "oklch(0.78 0.19 235)"
    } else if slot == 8 {
        "oklch(0.77 0.20 260)"
    } else if slot == 9 {
        "oklch(0.78 0.19 285)"
    } else if slot == 10 {
        "oklch(0.80 0.18 310)"
    } else if slot == 11 {
        "oklch(0.81 0.18 330)"
    } else if slot == 12 {
        "oklch(0.83 0.17 345)"
    } else if slot == 13 {
        "oklch(0.84 0.16 10)"
    } else if slot == 14 {
        "oklch(0.82 0.18 40)"
    } else {
        "oklch(0.79 0.19 70)"
    }
}

} // verus!
