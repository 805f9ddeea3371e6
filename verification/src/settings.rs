//! The configuration this core consumes: upstream endpoint and token,
//! log sink address, and the instrument mapping table.  Loading the
//! file is the surrounding process's concern; the core only holds the
//! values.
use crate::mapping::InstrumentMap;
use vstd::prelude::*;

verus! {

/// The settings of one running instance.
pub struct SettingsModel {
    pub seq_conn_string: String,
    pub ws_settings_base_url: String,
    pub polygon_token: String,
    pub instruments_mapping: InstrumentMap,
}

impl SettingsModel {
    /// The settings are usable when the mapping table is well-formed.
    pub open spec fn wf(&self) -> bool {
        self.instruments_mapping.wf()
    }
}

} // verus!
