//! What a module-load notification of the host leads to.

use vstd::prelude::*;
use crate::ranges::{range_end, recorded, well_formed, ModuleRanges, RangeSpec, SHIM_TRIGGER};

verus! {

/// What the caller has to do after a load notification.
#[derive(Clone, Copy, Debug, PartialEq, Eq)]
pub enum LoadAction {
    /// Install the interception shim into the host now.
    InstallShim,
    /// The trigger module came again; the shim is in place, nothing is to be done.
    AlreadyInstalled,
    /// The module's range was put on record with these bounds.
    Recorded { start: u64, end: u64 },
}

/// What a notification for the module `name` asks of the caller, given
/// whether the shim was installed before: the trigger module asks for the
/// shim the first time it is seen and for nothing after that; any other
/// module is recorded.
pub open spec fn action_for(
    installed: bool,
    name: Seq<char>,
    base: u64,
    size_hint: Option<u64>,
) -> LoadAction {
    if name != SHIM_TRIGGER@ {
        LoadAction::Recorded { start: base, end: range_end(base, size_hint) }
    } else if installed {
        LoadAction::AlreadyInstalled
    } else {
        LoadAction::InstallShim
    }
}

/// Whether the shim counts as installed after a notification for `name`.
pub open spec fn installed_after(installed: bool, name: Seq<char>) -> bool {
    installed || name == SHIM_TRIGGER@
}

/// Follows the host's load notifications and sees to it that the shim is
/// installed once.
pub struct LoadObserver {
    installed: bool,
}

impl LoadObserver {
    /// Whether the shim counts as installed: the trigger module has been seen.
    pub closed spec fn shim_installed(&self) -> bool {
        self.installed
    }

    /// Whether the shim counts as installed.
    pub fn is_shim_installed(&self) -> (installed: bool)
        ensures
            installed == self.shim_installed(),
    {
        self.installed
    }

    /// An observer that has seen no notification.
    pub fn new() -> (observer: Self)
        ensures
            !observer.shim_installed(),
    {
        LoadObserver { installed: false }
    }

    /// Handles the notification that the module `name` was loaded, or loaded
    /// again, at `base`, with its size where the host reports one. The
    /// trigger module changes no range; any other module changes nothing but
    /// its own range.
    pub fn on_module_load(
        &mut self,
        ranges: &mut ModuleRanges,
        name: &str,
        base: u64,
        size_hint: Option<u64>,
    ) -> (action: LoadAction)
        ensures
            action == action_for(old(self).shim_installed(), name@, base, size_hint),
            final(self).shim_installed() == installed_after(old(self).shim_installed(), name@),
            final(ranges)@ == recorded(
                old(ranges)@,
                RangeSpec { name: name@, start: base, end: range_end(base, size_hint) },
            ),
            well_formed(final(ranges)@),
    {
        match ranges.record_or_update(name, base, size_hint) {
            Some(end) => LoadAction::Recorded { start: base, end },
            None => {
                if self.installed {
                    LoadAction::AlreadyInstalled
                } else {
                    self.installed = true;
                    LoadAction::InstallShim
                }
            },
        }
    }
}

} // verus!
