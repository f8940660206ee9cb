//! The sing-box program's profile configuration shapes.  Loading, starting
//! and supervising the program is boundary work; the setting layout and its
//! defaults are pinned here.
use vstd::prelude::*;

verus! {

/// How traffic enters the program.
#[derive(Debug, Clone, Copy, PartialEq, Eq, Structural)]
pub enum Mode {
    Socks5,
    Transparent,
}

/// What the transparent capture covers.
#[derive(Debug, Clone, Copy, PartialEq, Eq, Structural)]
pub enum CaptureMode {
    Tcp,
    TcpUdp,
}

/// One named profile.
#[derive(Debug, Clone)]
pub struct Profile {
    pub name: String,
    pub enabled: bool,
    pub port: Option<u16>,
    pub capture: Option<CaptureMode>,
}

/// The program's whole setting: mode, forwarder ports and profiles.
#[derive(Debug, Clone)]
pub struct Setting {
    pub enabled: bool,
    pub mode: Mode,
    pub t2s_port: u16,
    pub t2s_web_port: u16,
    pub active_transparent_profile: String,
    pub profiles: Vec<Profile>,
}

impl Setting {
    /// The profiles that are switched on, in order.
    pub fn enabled_profiles(&self) -> (r: Vec<Profile>)
        ensures
            r@.len() <= self.profiles@.len(),
            forall|i: int| 0 <= i < r@.len() ==> (#[trigger] r@[i]).enabled,
    {
        let mut out: Vec<Profile> = Vec::new();
        let mut i: usize = 0;
        while i < self.profiles.len()
            invariant
                0 <= i <= self.profiles@.len(),
                out@.len() <= i,
                forall|j: int| 0 <= j < out@.len() ==> (#[trigger] out@[j]).enabled,
            decreases self.profiles.len() - i,
        {
            let p = &self.profiles[i];
            if p.enabled {
                out.push(
                    Profile {
                        name: p.name.clone(),
                        enabled: p.enabled,
                        port: p.port,
                        capture: p.capture,
                    },
                );
            }
            i = i + 1;
        }
        out
    }
}

} // verus!
