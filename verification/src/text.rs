//! Rendering-independent text layout: building the `"name: value"` lines of a
//! panel and fitting a line to a pixel width limit by dropping trailing
//! characters two at a time.
//!
//! Measuring a line is the renderer's business, so the caller hands in the
//! measured pixel width of every character prefix of the line; the fitting
//! algorithm itself is verified here.

use vstd::prelude::*;
use vstd::string::{StrSliceExecFns, StringExecFns};

verus! {

/// Builds the displayed line `"name: value"`.
pub fn render_line(name: &str, value: &str) -> (r: String)
    ensures
        r@ == name@ + ": "@ + value@,
{
    let mut line = String::from_str(name);
    line.append(": ");
    line.append(value);
    line
}

/// The character length at which a line is displayed.
///
/// `prefix_widths[i]` is the measured pixel width of the first `i` characters
/// of the line and `len` the line's character length. While the current
/// prefix measures at least `max_width`, two trailing characters are dropped
/// (one, from a single remaining character); the length never goes below
/// zero.
pub open spec fn fit_len(prefix_widths: Seq<u32>, len: int, max_width: u32) -> int
    recommends
        0 <= len < prefix_widths.len(),
    decreases len,
{
    if len <= 0 {
        0
    } else if prefix_widths[len] < max_width {
        len
    } else if len == 1 {
        0
    } else {
        fit_len(prefix_widths, len - 2, max_width)
    }
}

/// A line wider than the limit is shortened two characters at a time until it
/// fits, never below the empty line: the displayed length stays between zero
/// and the full length, a nonempty result measures under the limit, an
/// over-wide line really is shortened, and the number of dropped characters
/// is even unless the line was cut down to nothing.
pub proof fn lemma_fit_len(prefix_widths: Seq<u32>, len: int, max_width: u32)
    requires
        0 <= len < prefix_widths.len(),
    ensures
        0 <= fit_len(prefix_widths, len, max_width) <= len,
        fit_len(prefix_widths, len, max_width) > 0 ==> prefix_widths[fit_len(
            prefix_widths,
            len,
            max_width,
        )] < max_width,
        len > 0 && prefix_widths[len] >= max_width ==> fit_len(prefix_widths, len, max_width)
            < len,
        (len - fit_len(prefix_widths, len, max_width)) % 2 == 0 || fit_len(
            prefix_widths,
            len,
            max_width,
        ) == 0,
    decreases len,
{
    if len <= 0 {
    } else if prefix_widths[len] < max_width {
    } else if len == 1 {
    } else {
        lemma_fit_len(prefix_widths, len - 2, max_width);
    }
}

/// Shortens `line` until it fits under `max_width`, dropping trailing
/// characters two at a time. `prefix_widths[i]` must be the measured pixel
/// width of the first `i` characters of `line`.
pub fn fit_line<'a>(line: &'a str, prefix_widths: &Vec<u32>, max_width: u32) -> (r: &'a str)
    requires
        prefix_widths@.len() == line@.len() + 1,
    ensures
        r@ == line@.subrange(0, fit_len(prefix_widths@, line@.len() as int, max_width)),
{
    let total = line.unicode_len();
    let mut len: usize = total;
    while prefix_widths[len] >= max_width && len > 0
        invariant
            len <= total,
            total == line@.len(),
            prefix_widths@.len() == total + 1,
            fit_len(prefix_widths@, len as int, max_width) == fit_len(
                prefix_widths@,
                total as int,
                max_width,
            ),
        decreases len,
    {
        if len == 1 {
            len = 0;
        } else {
            len = len - 2;
        }
    }
    proof {
        assert(len as int == fit_len(prefix_widths@, total as int, max_width));
    }
    line.substring_char(0, len)
}

} // verus!
