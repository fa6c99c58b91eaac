//! The table from the lines that meet at a lattice point to the character
//! that draws them.

use vstd::prelude::*;

verus! {

/// Drawn where the lines that meet at a point have no glyph of their own.
pub const ERROR_CHAR: char = '╳';

/// The glyph for lines of the given weights towards up, right, down and
/// left. Only the weights 0 (no line) and 1 (a single line) have glyphs.
pub open spec fn glyph_of(up: u8, right: u8, down: u8, left: u8) -> Option<char> {
    match (up, right, down, left) {
        (0, 0, 0, 0) => Some(' '),
        (1, 0, 1, 0) => Some('│'),
        (1, 0, 1, 1) => Some('┤'),
        (0, 0, 1, 1) => Some('┐'),
        (1, 1, 0, 0) => Some('└'),
        (1, 1, 0, 1) => Some('┴'),
        (0, 1, 1, 1) => Some('┬'),
        (1, 1, 1, 0) => Some('├'),
        (0, 1, 0, 1) => Some('─'),
        (1, 1, 1, 1) => Some('┼'),
        (1, 0, 0, 1) => Some('┘'),
        (0, 1, 1, 0) => Some('┌'),
        (0, 0, 0, 1) => Some('╴'),
        (1, 0, 0, 0) => Some('╵'),
        (0, 1, 0, 0) => Some('╶'),
        (0, 0, 1, 0) => Some('╷'),
        _ => None,
    }
}

/// The glyph for a sequence of four weights, in the order up, right, down,
/// left; none for a sequence of another length.
pub open spec fn boxc_spec(lines: Seq<u8>) -> Option<char> {
    if lines.len() != 4 {
        None
    } else {
        glyph_of(lines[0], lines[1], lines[2], lines[3])
    }
}

/// The glyph drawn at a point, the error glyph standing in where the table
/// has none.
pub open spec fn glyph_or_error(up: u8, right: u8, down: u8, left: u8) -> char {
    match glyph_of(up, right, down, left) {
        Some(c) => c,
        None => ERROR_CHAR,
    }
}

/// Looks up the glyph for four line weights (up, right, down, left).
pub fn boxc(lines: &Vec<u8>) -> (r: Option<char>)
    ensures
        r == boxc_spec(lines@),
{
    if lines.len() != 4 {
        return None;
    }
    let key = (lines[0], lines[1], lines[2], lines[3]);
    match key {
        (0, 0, 0, 0) => Some(' '),
        (1, 0, 1, 0) => Some('│'),
        (1, 0, 1, 1) => Some('┤'),
        (0, 0, 1, 1) => Some('┐'),
        (1, 1, 0, 0) => Some('└'),
        (1, 1, 0, 1) => Some('┴'),
        (0, 1, 1, 1) => Some('┬'),
        (1, 1, 1, 0) => Some('├'),
        (0, 1, 0, 1) => Some('─'),
        (1, 1, 1, 1) => Some('┼'),
        (1, 0, 0, 1) => Some('┘'),
        (0, 1, 1, 0) => Some('┌'),
        (0, 0, 0, 1) => Some('╴'),
        (1, 0, 0, 0) => Some('╵'),
        (0, 1, 0, 0) => Some('╶'),
        (0, 0, 1, 0) => Some('╷'),
        _ => None,
    }
}

} // verus!
