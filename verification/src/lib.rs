//! Core of a directory-mirroring daemon: the event-to-action pipeline that
//! turns filesystem change observations into idempotent backup operations,
//! records completed work in a durable journal, and reconciles drift between
//! the live tree and the journal on rescan.
//!
//! Paths and snapshot text are handled as sequences of Unicode scalar values
//! (`Vec<char>`); the surrounding process converts to and from `String` and
//! `PathBuf` at its edges.
use vstd::prelude::*;

pub mod config;
pub mod file;
pub mod handler;
pub mod intent;
pub mod journal;
pub mod message;
pub mod rescan;
pub mod snapshot;
pub mod text;
pub mod types;
pub mod worker;

verus! {

/// Computes the configuration file location from the environment values the
/// process hands in: `XDG_CONFIG_DIR` if set, else `$HOME/.config`, else
/// `/etc`, with `/vertebrae/config.ron` appended.
pub fn config_location(xdg_config_dir: Option<Vec<char>>, home: Option<Vec<char>>) -> (r: Vec<char>)
    ensures
        r@ == spec_config_base(xdg_config_dir, home) + spec_config_rel(),
{
    let mut base: Vec<char> = match xdg_config_dir {
        Option::Some(dir) => dir,
        Option::None => match home {
            Option::Some(h) => {
                let mut b = h;
                crate::text::push_str_chars(&mut b, "/.config");
                b
            }
            Option::None => crate::text::str_chars("/etc"),
        },
    };
    crate::text::push_str_chars(&mut base, "/vertebrae/config.ron");
    proof {
        assert(base@ == spec_config_base(xdg_config_dir, home) + spec_config_rel());
    }
    base
}

/// The base directory the configuration file is looked up under.
pub open spec fn spec_config_base(xdg_config_dir: Option<Vec<char>>, home: Option<Vec<char>>) -> Seq<char> {
    match xdg_config_dir {
        Option::Some(dir) => dir@,
        Option::None => match home {
            Option::Some(h) => h@ + "/.config"@,
            Option::None => "/etc"@,
        },
    }
}

/// The path of the configuration file relative to its base directory.
pub open spec fn spec_config_rel() -> Seq<char> {
    "/vertebrae/config.ron"@
}

} // verus!
