//! The glyphs that the branches of the diagram are drawn with.

use vstd::prelude::*;

verus! {

/// Runs down beside the subtree of a node that has a sibling below it.
pub const VT: &'static str = "\u{2502}  ";

/// Leads to the last node of a group.
pub const UPRT: &'static str = "\u{2514}\u{2500} ";

/// Leads to a node that has a sibling below it.
pub const VTRT: &'static str = "\u{251C}\u{2500} ";

/// Stands beside the subtree of the last node of a group.
pub const SEP: &'static str = "   ";

/// `VT` for a symbolic link.
pub const LINK_VT: &'static str = "\u{2506}  ";

/// `UPRT` for a symbolic link.
pub const LINK_UPRT: &'static str = "\u{2514}\u{2504} ";

/// `VTRT` for a symbolic link.
pub const LINK_VTRT: &'static str = "\u{251C}\u{2504} ";

/// The glyph in front of a node's own line.
pub open spec fn connector(link: bool, last: bool) -> Seq<char> {
    if last {
        if link {
            LINK_UPRT@
        } else {
            UPRT@
        }
    } else {
        if link {
            LINK_VTRT@
        } else {
            VTRT@
        }
    }
}

/// What a node puts in front of every line of its subtree.
pub open spec fn continuation(link: bool, last: bool) -> Seq<char> {
    if last {
        SEP@
    } else if link {
        LINK_VT@
    } else {
        VT@
    }
}

pub fn connector_glyph(link: bool, last: bool) -> (glyph: &'static str)
    ensures
        glyph@ == connector(link, last),
{
    if last {
        if link {
            LINK_UPRT
        } else {
            UPRT
        }
    } else {
        if link {
            LINK_VTRT
        } else {
            VTRT
        }
    }
}

pub fn continuation_glyph(link: bool, last: bool) -> (glyph: &'static str)
    ensures
        glyph@ == continuation(link, last),
{
    if last {
        SEP
    } else if link {
        LINK_VT
    } else {
        VT
    }
}

} // verus!
