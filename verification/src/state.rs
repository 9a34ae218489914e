//! Small pieces of application state shared with the window and the
//! editor front end.

use vstd::prelude::*;
use std::sync::atomic::AtomicBool;

verus! {

/// Whether closing the main window hides it to the tray instead of
/// quitting. Read and written from several threads; nothing is known of its
/// value beyond what each read returns.
pub struct HideOnClose {
    flag: AtomicBool,
}

impl HideOnClose {
    pub fn new(enabled: bool) -> (h: HideOnClose) {
        HideOnClose { flag: AtomicBool::new(enabled) }
    }

    /// The current setting.
    pub fn enabled(&self) -> bool {
        self.flag.load(std::sync::atomic::Ordering::SeqCst)
    }

    /// Changes the setting.
    pub fn set(&self, enabled: bool) {
        self.flag.store(enabled, std::sync::atomic::Ordering::SeqCst);
    }
}

/// The video named on the command line, handed to the editor once: the
/// first read takes it, later reads find nothing.
pub struct InitialPath {
    pub path: Option<String>,
}

impl InitialPath {
    pub fn new(path: Option<String>) -> (p: InitialPath)
        ensures
            p.path == path,
    {
        InitialPath { path }
    }

    /// The path, if it was not taken yet; afterwards there is none.
    pub fn take(&mut self) -> (r: Option<String>)
        ensures
            r == old(self).path,
            final(self).path is None,
    {
        let r = self.path.take();
        r
    }
}

} // verus!
