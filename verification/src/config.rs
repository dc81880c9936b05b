//! Per-server configuration: the admin role and the log channel.
use vstd::prelude::*;

verus! {

/// The roles and channels a server has configured.
pub struct GuildConfig {
    pub admin_role_id: Option<u64>,
    pub log_channel_id: Option<u64>,
}

impl Default for GuildConfig {
    /// Nothing configured.
    fn default() -> (r: Self)
        ensures
            r.admin_role_id is None,
            r.log_channel_id is None,
    {
        GuildConfig { admin_role_id: None, log_channel_id: None }
    }
}

impl Clone for GuildConfig {
    fn clone(&self) -> (r: Self)
        ensures
            r == *self,
    {
        GuildConfig { admin_role_id: self.admin_role_id, log_channel_id: self.log_channel_id }
    }
}

} // verus!
