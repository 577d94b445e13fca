//! Helpers shared by the assistant's screens.

use vstd::prelude::*;

verus! {

/// Compute scroll offset to keep the selected index visible in a list:
/// the smallest offset whose window of `visible_height` rows shows row
/// `selected` (with an empty window the selected row is just above it).
pub fn scroll_offset(selected: usize, visible_height: usize) -> (offset: usize)
    requires
        selected - visible_height + 1 <= usize::MAX,
    ensures
        offset == if selected >= visible_height {
            selected - visible_height + 1
        } else {
            0
        },
{
    if selected >= visible_height {
        selected - visible_height + 1
    } else {
        0
    }
}


/// The offset `scroll_offset` gives keeps the selected row in view: with a
/// window of at least one row, the selected row lies within the window.
pub proof fn lemma_scroll_offset_shows_selected(selected: int, visible_height: int)
    requires
        0 <= selected,
        0 < visible_height,
    ensures
        ({
            let offset = if selected >= visible_height {
                selected - visible_height + 1
            } else {
                0
            };
            offset <= selected < offset + visible_height
        }),
{
}
} // verus!
