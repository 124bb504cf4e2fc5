use vstd::prelude::*;

verus! {

/// How a window surface is shown.
///
/// Position and size are floating-point geometry that the rendering layer keeps;
/// this type holds the decisions the dock makes about a window.
#[derive(Clone, Copy, Debug, PartialEq, Eq, Structural)]
pub struct WindowState {
    /// Shown as a native OS viewport.
    native_viewport: bool,
    /// Shown as a panel floating inside a viewport.
    floating_in_viewport: bool,
    /// Stacking order among floating panels of one viewport; higher is on top.
    floating_z_rank: u32,
    /// Collapsed to its title bar.
    minimized: bool,
}

impl WindowState {
    pub closed spec fn native(self) -> bool {
        self.native_viewport
    }

    pub closed spec fn floating(self) -> bool {
        self.floating_in_viewport
    }

    pub closed spec fn z_rank(self) -> u32 {
        self.floating_z_rank
    }

    pub closed spec fn is_minimized_spec(self) -> bool {
        self.minimized
    }

    /// Shown in a native viewport, not floating, at rank 0, not minimized: the state of a
    /// new window.
    pub open spec fn is_fresh(self) -> bool {
        &&& self.native()
        &&& !self.floating()
        &&& self.z_rank() == 0
        &&& !self.is_minimized_spec()
    }

    /// A window shown in a native viewport, not floating, not minimized.
    pub fn new() -> (r: Self)
        ensures
            r.is_fresh(),
    {
        WindowState { native_viewport: true, floating_in_viewport: false, floating_z_rank: 0, minimized: false }
    }

    /// Returns `true` if the window is shown as a native viewport.
    pub fn uses_native_viewport(&self) -> (r: bool)
        ensures
            r == self.native(),
    {
        self.native_viewport
    }

    pub fn set_native_viewport(&mut self, native: bool)
        ensures
            final(self).native() == native,
            final(self).floating() == old(self).floating(),
            final(self).z_rank() == old(self).z_rank(),
            final(self).is_minimized_spec() == old(self).is_minimized_spec(),
    {
        self.native_viewport = native;
    }

    /// Returns `true` if the window floats inside a viewport.
    pub fn is_floating_in_viewport(&self) -> (r: bool)
        ensures
            r == self.floating(),
    {
        self.floating_in_viewport
    }

    pub fn set_floating_in_viewport(&mut self, floating: bool)
        ensures
            final(self).floating() == floating,
            final(self).native() == old(self).native(),
            final(self).z_rank() == old(self).z_rank(),
            final(self).is_minimized_spec() == old(self).is_minimized_spec(),
    {
        self.floating_in_viewport = floating;
    }

    /// Stacking rank among floating panels.
    pub fn floating_z_rank(&self) -> (r: u32)
        ensures
            r == self.z_rank(),
    {
        self.floating_z_rank
    }

    pub fn set_floating_z_rank(&mut self, rank: u32)
        ensures
            final(self).z_rank() == rank,
            final(self).native() == old(self).native(),
            final(self).floating() == old(self).floating(),
            final(self).is_minimized_spec() == old(self).is_minimized_spec(),
    {
        self.floating_z_rank = rank;
    }

    pub fn is_minimized(&self) -> (r: bool)
        ensures
            r == self.is_minimized_spec(),
    {
        self.minimized
    }

    pub fn set_minimized(&mut self, minimized: bool)
        ensures
            final(self).is_minimized_spec() == minimized,
            final(self).native() == old(self).native(),
            final(self).floating() == old(self).floating(),
            final(self).z_rank() == old(self).z_rank(),
    {
        self.minimized = minimized;
    }
}

impl Default for WindowState {
    fn default() -> (r: Self)
        ensures
            r.native(),
            !r.floating(),
            r.z_rank() == 0,
            !r.is_minimized_spec(),
    {
        WindowState::new()
    }
}

} // verus!
