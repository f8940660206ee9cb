//! The service's configuration shapes: logging, run mode and notification
//! settings, with their documented defaults.  Parsing the configuration
//! file is boundary work; the defaults are pinned here.
use vstd::prelude::*;

verus! {

/// Logging configuration.
#[derive(Debug, Clone)]
pub struct LogConfig {
    pub level: String,
    pub file: Option<String>,
}

impl Default for LogConfig {
    /// Informational logging, no log file.
    fn default() -> (r: LogConfig)
        ensures
            r.level@ == "info"@,
            r.file is None,
    {
        LogConfig { level: "info".to_owned(), file: None }
    }
}

/// Notification delivery settings.
#[derive(Debug, Clone)]
pub struct NotificationsConfig {
    pub enabled: bool,
    pub prefix: String,
    pub icon1: String,
    pub icon2: String,
    pub style: String,
    pub title: String,
    pub conversation: String,
    pub su_uid: u32,
}

impl Default for NotificationsConfig {
    /// Disabled, with the stock notification appearance.
    fn default() -> (r: NotificationsConfig)
        ensures
            !r.enabled,
            r.prefix@ == "ZDT-D:"@,
            r.icon1@ == "file:///data/local/tmp/icon.png"@,
            r.icon2@ == "file:///data/local/tmp/icon.png"@,
            r.style@ == "messaging"@,
            r.title@ == "CLI"@,
            r.conversation@ == "System"@,
            r.su_uid == 2000,
    {
        NotificationsConfig {
            enabled: false,
            prefix: "ZDT-D:".to_owned(),
            icon1: "file:///data/local/tmp/icon.png".to_owned(),
            icon2: "file:///data/local/tmp/icon.png".to_owned(),
            style: "messaging".to_owned(),
            title: "CLI".to_owned(),
            conversation: "System".to_owned(),
            su_uid: 2000,
        }
    }
}

/// The kinds of notification the service can send.
pub enum NotificationType {
    Processing { file_path: String, percent: u8 },
    ProcessingFinal { msg: String },
    Error { msg: String },
    Info { msg: String },
    Support { msg: String },
}

impl NotificationType {
    /// The notification tag each kind posts under.
    pub fn tag(&self) -> (r: &'static str)
        ensures
            match *self {
                NotificationType::Processing { .. } => r@ == "processing"@,
                NotificationType::ProcessingFinal { .. } => r@ == "processing"@,
                NotificationType::Error { .. } => r@ == "error"@,
                NotificationType::Info { .. } => r@ == "info"@,
                NotificationType::Support { .. } => r@ == "support"@,
            },
    {
        match self {
            NotificationType::Processing { .. } => "processing",
            NotificationType::ProcessingFinal { .. } => "processing",
            NotificationType::Error { .. } => "error",
            NotificationType::Info { .. } => "info",
            NotificationType::Support { .. } => "support",
        }
    }
}

/// The shell-escaped form of a byte string for a single-quoted context:
/// every quote becomes the five-byte sequence `'"'"'`.
pub open spec fn spec_squote_escape(s: Seq<u8>) -> Seq<u8>
    decreases s.len(),
{
    if s.len() == 0 {
        Seq::empty()
    } else if s.last() == 39 {
        spec_squote_escape(s.drop_last()) + seq![39u8, 34u8, 39u8, 34u8, 39u8]
    } else {
        spec_squote_escape(s.drop_last()).push(s.last())
    }
}

/// Escape a byte string for use inside a single-quoted shell argument.
pub fn shell_single_quote_escape(s: &[u8]) -> (r: Vec<u8>)
    ensures
        r@ == spec_squote_escape(s@),
{
    let mut out: Vec<u8> = Vec::new();
    let mut i: usize = 0;
    proof {
        assert(s@.take(0) =~= Seq::<u8>::empty());
    }
    while i < s.len()
        invariant
            0 <= i <= s@.len(),
            out@ == spec_squote_escape(s@.take(i as int)),
        decreases s.len() - i,
    {
        proof {
            let t = s@.take(i as int + 1);
            assert(t.drop_last() =~= s@.take(i as int));
            assert(t.last() == s@[i as int]);
        }
        let ghost pre = out@;
        if s[i] == 39 {
            out.push(39);
            out.push(34);
            out.push(39);
            out.push(34);
            out.push(39);
            proof {
                assert(out@ =~= pre + seq![39u8, 34u8, 39u8, 34u8, 39u8]);
            }
        } else {
            out.push(s[i]);
        }
        i = i + 1;
    }
    proof {
        assert(s@.take(s@.len() as int) =~= s@);
    }
    out
}

} // verus!
