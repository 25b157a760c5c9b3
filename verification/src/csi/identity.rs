//! CSI **Identity** service: plugin name, capabilities and health probe.

use vstd::prelude::*;

use crate::csi::{Role, DRIVER_NAME, DRIVER_VERSION};

verus! {

/// Identity service.
pub struct IdentityService {
    pub role: Role,
}

/// A capability of the plugin.
#[derive(Clone, Copy, Debug, PartialEq, Eq, Structural)]
pub enum PluginCapability {
    ControllerService,
}

impl IdentityService {
    /// Build an identity service for the given driver role.
    pub fn new(role: Role) -> (r: Self)
        ensures
            r.role == role,
    {
        IdentityService { role }
    }

    /// The driver's name and version.
    pub fn get_plugin_info(&self) -> (r: (String, String))
        ensures
            r.0@ == "azblob.ublk.csi.tg123.github.io"@,
            r.1@ == "0.1.0"@,
    {
        (DRIVER_NAME.to_owned(), DRIVER_VERSION.to_owned())
    }

    /// The controller service is advertised exactly when this process serves it.
    pub fn get_plugin_capabilities(&self) -> (r: Vec<PluginCapability>)
        ensures
            r@ == (if self.role is Controller || self.role is All {
                seq![PluginCapability::ControllerService]
            } else {
                Seq::empty()
            }),
    {
        let mut r: Vec<PluginCapability> = Vec::new();
        if self.role.serves_controller() {
            r.push(PluginCapability::ControllerService);
        }
        r
    }

    /// The health probe: a process that answers is ready.
    pub fn probe(&self) -> (ready: bool)
        ensures
            ready,
    {
        true
    }
}

} // verus!
