//! Fixed on-disk locations of the service's state, and the start settings
//! that persist across reboots.  Reading and writing the files is boundary
//! work; the paths and the settings' shape are pinned here.
use vstd::prelude::*;

verus! {

/// `setting/start.json` under the module directory.
pub fn start_json_path() -> (r: String)
    ensures
        r@ == "/data/adb/modules/ZDT-D/setting/start.json"@,
{
    "/data/adb/modules/ZDT-D/setting/start.json".to_owned()
}

/// The IPv4 rules backup taken on first launch.
pub fn iptables_backup_path() -> (r: String)
    ensures
        r@ == "/data/adb/modules/ZDT-D/setting/iptables_backup.rules"@,
{
    "/data/adb/modules/ZDT-D/setting/iptables_backup.rules".to_owned()
}

/// The IPv6 rules backup taken on first launch.
pub fn ip6tables_backup_path() -> (r: String)
    ensures
        r@ == "/data/adb/modules/ZDT-D/setting/ip6tables_backup.rules"@,
{
    "/data/adb/modules/ZDT-D/setting/ip6tables_backup.rules".to_owned()
}

/// Where the API access token is kept.
pub fn api_token_path() -> (r: String)
    ensures
        r@ == "/data/adb/modules/ZDT-D/api/token"@,
{
    "/data/adb/modules/ZDT-D/api/token".to_owned()
}

/// The name older call sites use for the token location.
pub fn token_path() -> (r: String)
    ensures
        r@ == "/data/adb/modules/ZDT-D/api/token"@,
{
    api_token_path()
}

/// Where the API binding information is published.
pub fn api_info_path() -> (r: String)
    ensures
        r@ == "/data/adb/modules/ZDT-D/api/info.json"@,
{
    "/data/adb/modules/ZDT-D/api/info.json".to_owned()
}

/// The persisted start switch.
#[derive(Debug, Clone)]
pub struct StartSettings {
    pub enabled: bool,
    pub first_launch: bool,
}

impl Default for StartSettings {
    /// Both flags start off.
    fn default() -> (r: StartSettings)
        ensures
            !r.enabled,
            !r.first_launch,
    {
        StartSettings { enabled: false, first_launch: false }
    }
}

} // verus!
