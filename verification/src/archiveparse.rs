//! The bulk snapshot's member records, as the library consumes them:
//! already decompressed and parsed into plain values by the caller.

use vstd::prelude::*;

verus! {

/// One member record of the bulk snapshot. `influence` is carried in
/// fixed-point units of [`crate::SCORE_SCALE`] per whole unit.
pub struct Nation {
    pub name: String,
    pub wa_status: String,
    pub endorsements_list: String,
    pub region: String,
    pub influence: i64,
    pub last_login: u64,
}

/// The snapshot as a whole: the member records, in document order.
pub struct Archive {
    pub nations: Vec<Nation>,
}

} // verus!
