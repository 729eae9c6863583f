//! Which session library the program is built with.
use vstd::prelude::*;

verus! {

/// The name of the session library.
pub fn build_probe() -> (r: &'static str)
    ensures
        r@ == "libsignal-protocol (signalapp/libsignal) built via git dependency"@,
{
    "libsignal-protocol (signalapp/libsignal) built via git dependency"
}

} // verus!
