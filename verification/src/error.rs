//! Everything that can go wrong inside the pure core.

use vstd::prelude::*;

verus! {

/// A caller mistake caught at construction time.
///
/// Every variant is refused where it is made, which is why the rest of the library can run
/// without a single panicking operation.
#[derive(Debug, Clone, PartialEq, Eq)]
pub enum Error {
    /// A ring buffer was asked for with no room to store anything.
    ZeroCapacity,
    /// A probe rate cap of zero would stall every target forever.
    ZeroProbeRate,
    /// A zero probe interval would make a target due again the instant it was probed.
    ZeroInterval,
    /// A zero flow window would make every passive rate a division by nothing.
    ZeroFlowWindow,
    /// A CIDR block could not be parsed, or its prefix was wider than its address family.
    InvalidCidr {
        /// The rejected input, kept for diagnostics.
        raw: String,
    },
    /// More applications were monitored at once than the product allows.
    TooManyApps {
        /// The cap that was reached.
        limit: u32,
    },
    /// A flow was reported for an application that is not being monitored.
    UnknownApp {
        /// The identifier that was not recognised.
        app: u32,
    },
    /// An active-endpoint cap of zero would leave every endpoint demoted forever.
    ZeroEndpointCap,
    /// Endpoints would be forgotten before they had even gone idle.
    RetentionShorterThanActivity,
    /// The registry ran out of identifiers.
    TargetIdExhausted,
    /// A row of the bundled routing data could not be read.
    MalformedAsnRow {
        /// Which file the row came from.
        file: &'static str,
        /// Its line number, counting from one.
        line: usize,
        /// The row itself, shortened to a readable length.
        raw: String,
    },
    /// The names in the routing data outgrew what the table can index.
    AsnDataTooLarge,
}

} // verus!
