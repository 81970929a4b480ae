use vstd::prelude::*;

verus! {

/// Whether `v` is a power of two (1, 2, 4, ...).
pub open spec fn is_pow2(v: nat) -> bool
    decreases v,
{
    if v <= 1 {
        v == 1
    } else {
        v % 2 == 0 && is_pow2(v / 2)
    }
}

/// A value that a tile may carry: a power of two, at least 2.
pub open spec fn is_tile_value(v: nat) -> bool {
    v >= 2 && is_pow2(v)
}

/// Doubling keeps a value a power of two.
pub proof fn lemma_double_is_tile(v: nat)
    requires
        is_tile_value(v),
    ensures
        is_tile_value(2 * v),
{
    assert((2 * v) % 2 == 0);
    assert((2 * v) / 2 == v);
}

/// Tells whether `v` is a value a tile may carry.
pub fn is_valid_tile_value(v: u64) -> (r: bool)
    ensures
        r == is_tile_value(v as nat),
{
    if v < 2 {
        return false;
    }
    let mut x: u64 = v;
    while x > 1 && x % 2 == 0
        invariant
            x >= 1,
            is_pow2(x as nat) == is_pow2(v as nat),
        decreases x,
    {
        x = x / 2;
    }
    x == 1
}

/// The background colour of a tile of the given value; values without a colour of their
/// own share the colour of an empty cell.
pub open spec fn tile_color_spec(value: u64) -> Seq<char> {
    if value == 2 {
        "#eee4da"@
    } else if value == 4 {
        "#ede0c8"@
    } else if value == 8 {
        "#f2b179"@
    } else if value == 16 {
        "#f59563"@
    } else if value == 2048 {
        "#edc22e"@
    } else {
        "#cdc1b4"@
    }
}

/// The background colour of a tile of the given value.
pub fn tile_color(value: u64) -> (r: &'static str)
    ensures
        r@ == tile_color_spec(value),
{
    match value {
        2 => "#eee4da",
        4 => "#ede0c8",
        8 => "#f2b179",
        16 => "#f59563",
        2048 => "#edc22e",
        _ => "#cdc1b4",
    }
}

} // verus!
