//! Grid references such as `E5` on an image split into ten by ten cells.
use crate::text::{chars_of, parse_u32, skip_chars, u32_value};
use vstd::prelude::*;

verus! {

pub const GRID_COLS: u32 = 10;

pub const GRID_ROWS: u32 = 10;

/// The offset of letter `c` from `A`, an ASCII lower-case letter counting as
/// its upper case.
pub open spec fn letter_offset(c: char) -> int {
    if 'a' <= c && c <= 'z' {
        c as int - 'a' as int
    } else {
        c as int - 'A' as int
    }
}

/// The zero-based column and row that `r` names: a letter `A` to `J` (either
/// case), then a row number 1 to 10.
pub open spec fn grid_cell(r: Seq<char>) -> Option<(int, int)> {
    if r.len() == 0 {
        None
    } else {
        let col = letter_offset(r[0]);
        match u32_value(r.drop_first()) {
            Some(n) => if 0 <= col < GRID_COLS && 1 <= n <= GRID_ROWS {
                Some((col, n - 1))
            } else {
                None
            },
            None => None,
        }
    }
}

/// The pixel at the centre of cell `(col, row)` of a `w` by `h` image.
pub open spec fn cell_centre(col: int, row: int, w: int, h: int) -> (int, int) {
    let cw = w / GRID_COLS as int;
    let ch = h / GRID_ROWS as int;
    (col * cw + cw / 2, row * ch + ch / 2)
}

/// The centre pixel of the cell that `grid_ref` names, or `None` where it
/// names no cell of the grid.
pub fn grid_to_pixel(grid_ref: &str, img_width: u32, img_height: u32) -> (r: Option<(u32, u32)>)
    ensures
        r matches Some(p) ==> grid_cell(grid_ref@) matches Some(c) && (p.0 as int, p.1 as int)
            == cell_centre(c.0, c.1, img_width as int, img_height as int),
        r is None ==> grid_cell(grid_ref@) is None,
{
    let cs = chars_of(grid_ref);
    if cs.len() == 0 {
        return None;
    }
    let first = cs[0];
    let col: u32 = if 'a' <= first && first <= 'j' {
        first as u32 - 'a' as u32
    } else if 'A' <= first && first <= 'J' {
        first as u32 - 'A' as u32
    } else {
        return None;
    };
    proof {
        assert(cs@.skip(1) =~= cs@.drop_first());
    }
    let rest = skip_chars(cs.as_slice(), 1);
    let n = match parse_u32(rest.as_slice()) {
        Some(n) => n,
        None => return None,
    };
    if n < 1 || n > GRID_ROWS {
        return None;
    }
    let row: u32 = n - 1;
    let cell_w = img_width / GRID_COLS;
    let cell_h = img_height / GRID_ROWS;
    proof {
        assert(col * cell_w <= 9 * cell_w) by (nonlinear_arith)
            requires
                col <= 9,
        ;
        assert(row * cell_h <= 9 * cell_h) by (nonlinear_arith)
            requires
                row <= 9,
        ;
    }
    Some((col * cell_w + cell_w / 2, row * cell_h + cell_h / 2))
}

} // verus!
