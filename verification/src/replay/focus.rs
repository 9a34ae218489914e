//! Foreground changes as the focus tracker reports them.

use vstd::prelude::*;

verus! {

/// A window that came to the foreground: its handle and title.
pub struct FocusEvent {
    pub hwnd: isize,
    pub title: String,
}

} // verus!
