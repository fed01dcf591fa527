//! What a display of the world decides: where the window moves on a key,
//! and where a shown cell lands on the screen.

use vstd::prelude::*;

use crate::world::{Coord, Window, World};

verus! {

/// Something that draws the cells of a window.
pub trait WorldDisplay {
    fn display(&mut self, cells: &[Coord], window: &mut Window, world: &World);
}

/// How far a key moves the window: `w`, `s`, `a` and `d` by 3 cells up,
/// down, left and right, their capitals by 30; other keys not at all.
pub open spec fn key_shift(key: char) -> (int, int) {
    if key == 'w' {
        (0, -3)
    } else if key == 's' {
        (0, 3)
    } else if key == 'a' {
        (-3, 0)
    } else if key == 'd' {
        (3, 0)
    } else if key == 'W' {
        (0, -30)
    } else if key == 'S' {
        (0, 30)
    } else if key == 'A' {
        (-30, 0)
    } else if key == 'D' {
        (30, 0)
    } else {
        (0, 0)
    }
}

/// Moves `window` as `key` asks; `R` brings its origin back to `(0, 0)`.
pub fn apply_key(window: &mut Window, key: char)
    requires
        i64::MIN + 30 <= old(window).x <= i64::MAX - 30,
        i64::MIN + 30 <= old(window).y <= i64::MAX - 30,
    ensures
        final(window).w == old(window).w,
        final(window).h == old(window).h,
        key == 'R' ==> final(window).x == 0 && final(window).y == 0,
        key != 'R' ==> final(window).x == old(window).x + key_shift(key).0 && final(window).y
            == old(window).y + key_shift(key).1,
{
    match key {
        'w' => window.y = window.y - 3,
        's' => window.y = window.y + 3,
        'a' => window.x = window.x - 3,
        'd' => window.x = window.x + 3,
        'W' => window.y = window.y - 30,
        'S' => window.y = window.y + 30,
        'A' => window.x = window.x - 30,
        'D' => window.x = window.x + 30,
        'R' => {
            window.x = 0;
            window.y = 0;
        },
        _ => {},
    }
}

/// The column and row on the screen of a cell that `window` shows.
pub fn screen_position(c: Coord, window: &Window) -> (r: (u16, u16))
    requires
        window.shows(c),
        window.w <= 65536,
        window.h <= 65536,
    ensures
        r.0 == c.0 - window.x,
        r.1 == c.1 - window.y,
{
    ((c.0 - window.x) as u16, (c.1 - window.y) as u16)
}

} // verus!
