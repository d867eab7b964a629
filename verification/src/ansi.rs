//! The terminal escapes the renderers paint with.

use vstd::prelude::*;

verus! {

/// The terminal escape that paints matched path context grey.
pub open spec fn ansi_grey() -> Seq<char> {
    "\x1b[90m"@
}

/// The terminal escape that paints separators and names white.
pub open spec fn ansi_white() -> Seq<char> {
    "\x1b[37m"@
}

/// The terminal escape that paints the changed middle of a path blue.
pub open spec fn ansi_blue() -> Seq<char> {
    "\x1b[94m"@
}

/// The terminal escape that paints additions green.
pub open spec fn ansi_green() -> Seq<char> {
    "\x1b[92m"@
}

/// The terminal escape that paints removals red.
pub open spec fn ansi_red() -> Seq<char> {
    "\x1b[91m"@
}

/// The terminal escape that restores the default color.
pub open spec fn ansi_reset() -> Seq<char> {
    "\x1b[0m"@
}

} // verus!
