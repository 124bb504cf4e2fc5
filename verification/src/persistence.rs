//! A versioned envelope for saved dock layouts.
use vstd::prelude::*;

use crate::dock_state::DockState;
use serde_json::Error as JsonError;
use std::io::Error as IoError;

verus! {

/// The layout format this library writes and accepts.
pub const DOCK_LAYOUT_VERSION: u32 = 1;

/// Makes `serde_json::Error` known to the verifier, as an opaque type.
#[verifier::external_type_specification]
#[verifier::external_body]
pub struct ExJsonError(JsonError);

/// Makes `std::io::Error` known to the verifier, as an opaque type.
#[verifier::external_type_specification]
#[verifier::external_body]
pub struct ExIoError(IoError);

/// A saved layout: the format version and the dock it describes.
#[derive(Debug)]
pub struct DockLayoutFile<Tab> {
    pub version: u32,
    pub dock_state: DockState<Tab>,
}

/// Why a layout could not be saved or restored.
#[derive(Debug)]
pub enum DockLayoutError {
    /// The layout was written in a format version this library does not read.
    UnsupportedVersion { found: u32, expected: u32 },
    /// The layout text is not valid JSON for a layout.
    Json(JsonError),
    /// Reading or writing the layout file failed.
    Io(IoError),
}

/// The layout that saves `dock_state` in the current format version.
pub open spec fn layout_of<Tab>(dock_state: DockState<Tab>) -> DockLayoutFile<Tab> {
    DockLayoutFile { version: DOCK_LAYOUT_VERSION, dock_state }
}

/// The dock a layout is read back as, if its version is accepted.
pub open spec fn restored<Tab>(file: DockLayoutFile<Tab>) -> Option<DockState<Tab>> {
    if file.version == DOCK_LAYOUT_VERSION {
        Some(file.dock_state)
    } else {
        None
    }
}

/// A dock saved as a layout is read back as the same dock.
pub proof fn lemma_layout_round_trip<Tab>(dock_state: DockState<Tab>)
    ensures
        restored(layout_of(dock_state)) == Some(dock_state),
{
}

impl<Tab> DockLayoutFile<Tab> {
    /// Wraps `dock_state` with the current format version.
    pub fn new(dock_state: DockState<Tab>) -> (r: Self)
        ensures
            r == layout_of(dock_state),
    {
        DockLayoutFile { version: DOCK_LAYOUT_VERSION, dock_state }
    }

    /// The dock of a layout in the current format version.
    ///
    /// # Errors
    /// `UnsupportedVersion` with the layout's version if it is not the current one.
    pub fn into_dock_state(self) -> (r: Result<DockState<Tab>, DockLayoutError>)
        ensures
            restored(self) matches Some(d) ==> r == Ok::<DockState<Tab>, DockLayoutError>(d),
            restored(self) is None ==> (r matches Err(DockLayoutError::UnsupportedVersion { found, expected })
                && found == self.version && expected == DOCK_LAYOUT_VERSION),
    {
        if self.version != DOCK_LAYOUT_VERSION {
            return Err(DockLayoutError::UnsupportedVersion { found: self.version, expected: DOCK_LAYOUT_VERSION });
        }
        Ok(self.dock_state)
    }
}

} // verus!
