//! The palette loader: a palette file holds one color string per line.
use vstd::prelude::*;
use crate::template::palette_view;
use crate::text::{lines, split_lines};

verus! {

/// The colors of a palette file's text `contents`: each line, verbatim, is one entry,
/// in file order; an empty line is an empty color that still takes its index.
pub fn parse_palette(contents: &str) -> (colors: Vec<String>)
    ensures
        palette_view(colors@) == lines(contents@),
{
    let colors = split_lines(contents);
    assert(palette_view(colors@) =~= colors@.map_values(|l: String| l@));
    colors
}

} // verus!
