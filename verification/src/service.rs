//! How a run of the service ends, and the banner it starts with.

use vstd::prelude::*;

verus! {

/// Why the service stopped.
#[derive(Clone, Copy, Debug, PartialEq, Eq, Structural)]
pub enum ExitReason {
    /// It was stopped.
    Stopped,
    /// A restart was asked for over the control socket.
    RestartRequested,
}

/// The reason a run ended, from whether a restart was asked for.
pub fn exit_reason(restart_requested: bool) -> (reason: ExitReason)
    ensures
        reason == (if restart_requested {
            ExitReason::RestartRequested
        } else {
            ExitReason::Stopped
        }),
{
    if restart_requested {
        ExitReason::RestartRequested
    } else {
        ExitReason::Stopped
    }
}

/// The product version.
pub const PRODUCT_VERSION: &'static str = "1.0.0";

/// The banner printed when the service starts.
pub open spec fn banner_text() -> Seq<char> {
    "Autobricks DNS "@ + PRODUCT_VERSION@ + " (C) Copyright 2026 Autobricks, Co. All Rights Reserved."@
}

/// The banner printed when the service starts: the product name and version
/// and the copyright line.
pub fn product_banner() -> (banner: String)
    ensures
        banner@ == banner_text(),
{
    let mut banner = String::from_str("Autobricks DNS ");
    banner.append(PRODUCT_VERSION);
    banner.append(" (C) Copyright 2026 Autobricks, Co. All Rights Reserved.");
    banner
}

} // verus!
