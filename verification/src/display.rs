//! Display arithmetic for the reader view: line wrapping and list
//! navigation.

use vstd::prelude::*;

verus! {

/// The terminal display width of a character sequence, as the
/// `unicode-width` crate computes it: a function of the characters alone.
pub uninterp spec fn width_of(s: Seq<char>) -> usize;

/// Relies on `unicode_width::UnicodeWidthStr::width`: the sum of the
/// characters' display widths, which depends on the text alone.
#[verifier::external_body]
fn display_width(s: &str) -> (w: usize)
    ensures
        w == width_of(s@),
{
    unicode_width::UnicodeWidthStr::width(s)
}

/// How many screen rows a line occupies at the given width: its display
/// width divided by the screen width, rounded up. An empty line still
/// occupies one row, and a zero screen width counts as one row.
pub fn count_physical_lines(line: &str, width: usize) -> (r: usize)
    ensures
        line@.len() == 0 ==> r == 1,
        width == 0 ==> r == 1,
        line@.len() > 0 && width > 0 ==> r == (width_of(line@) + width - 1) / width as int,
{
    if line.is_empty() {
        return 1;
    }
    if width == 0 {
        return 1;
    }
    let w = display_width(line);
    let q = w / width;
    let rem = w % width;
    proof {
        assert((q + if rem > 0 { 1int } else { 0int }) == ((w + width - 1) as int) / (
        width as int) && (rem > 0 ==> q < usize::MAX)) by (nonlinear_arith)
            requires
                width > 0,
                q == w as int / width as int,
                rem == w as int % width as int,
        ;
    }
    if rem > 0 {
        q + 1
    } else {
        q
    }
}

/// The selection reached from `current` in a cyclic list of `len` entries:
/// moving up from the top wraps to the bottom and moving down from the
/// bottom wraps to the top; with nothing selected, moving up selects the
/// bottom entry and moving down the top one.
pub open spec fn spec_next_index(current: Option<usize>, len: usize, move_up: bool) -> usize {
    match current {
        Some(idx) => if move_up {
            if idx == 0 {
                (len - 1) as usize
            } else {
                (idx - 1) as usize
            }
        } else {
            (((idx + 1) as int) % (len as int)) as usize
        },
        None => if move_up {
            (len - 1) as usize
        } else {
            0usize
        },
    }
}

/// Cyclic list navigation; an empty list has no selection.
pub fn navigate_list(current: Option<usize>, len: usize, move_up: bool) -> (r: Option<usize>)
    ensures
        len == 0 ==> r is None,
        len > 0 ==> r == Some(spec_next_index(current, len, move_up)),
{
    if len == 0 {
        return None;
    }
    let new_idx: usize = if move_up {
        match current {
            Some(idx) => if idx == 0 {
                len - 1
            } else {
                idx - 1
            },
            None => len - 1,
        }
    } else {
        match current {
            Some(idx) => {
                let m = idx % len;
                let next = (m + 1) % len;
                proof {
                    assert(next == ((idx + 1) as int) % (len as int)) by (nonlinear_arith)
                        requires
                            len > 0,
                            m == (idx as int) % (len as int),
                            next == ((m + 1) as int) % (len as int),
                    ;
                }
                next
            },
            None => 0,
        }
    };
    Some(new_idx)
}

} // verus!
