//! Client-side routing data: which UI module a message is addressed to,
//! and which subsystem's screens are currently shown.

use vstd::prelude::*;

verus! {

/// Key under which a UI component registers itself so that sibling
/// components can send it messages.
#[derive(Clone, Copy, Debug, PartialEq, Eq, Hash, Structural)]
pub enum Module {
    Root,
    Sys1,
}

/// The subsystem whose screens the client currently shows.
#[derive(Clone, Copy, Debug, PartialEq, Eq, Structural)]
pub enum AppSys {
    Welcome,
    Sys1,
    Sys2,
}

impl Default for AppSys {
    fn default() -> (r: Self)
        ensures
            r == AppSys::Welcome,
    {
        AppSys::Welcome
    }
}

} // verus!
