//! The `sync` command line's subcommands, as far as the fish sync decides
//! anything about them.

use crate::sync::FishSync;
use vstd::prelude::*;

verus! {

/// A subcommand of `atuin sync`'s command line.
pub enum Cmd {
    /// Sync with the configured server.
    Sync {
        /// Force re-download everything.
        force: bool,
        /// Only report whether the fish sync runs at shell startup.
        should_fish_sync: bool,
    },
    /// Log in to the configured server.
    Login,
    /// Log out.
    Logout,
    /// Register with the configured server.
    Register,
    /// Print the encryption key for transfer to another machine.
    Key {
        /// Print the key in base64 rather than as a mnemonic.
        base64: bool,
    },
    /// Display the sync status.
    Status,
}

impl Cmd {
    /// The answer of the startup check: `Some(true)` when the command asks
    /// whether the fish sync runs at shell startup and it does, `Some(false)`
    /// when it asks and it does not, `None` for any other command.
    pub fn fish_sync_check(&self, settings: &FishSync) -> (r: Option<bool>)
        ensures
            r == (match *self {
                Cmd::Sync { should_fish_sync: true, .. } => Some(settings.sync_on_startup),
                _ => None,
            }),
    {
        match self {
            Cmd::Sync { should_fish_sync, .. } => {
                if *should_fish_sync {
                    Some(settings.sync_on_startup)
                } else {
                    None
                }
            },
            _ => None,
        }
    }
}

/// What follows a sync with the server, as far as fish goes.
pub struct FishFollowUp {
    /// Write the records that were just downloaded to the shadow log.
    pub sync_downloaded: bool,
    /// Reconcile the whole history with the shadow log.
    pub sync_all: bool,
}

/// What to do for fish after a sync that downloaded `downloaded` records:
/// write them when there are any and the sync is enabled; reconcile the
/// whole history when the settings ask for it after a command-line sync.
pub fn fish_follow_up(settings: &FishSync, downloaded: usize) -> (r: FishFollowUp)
    ensures
        r.sync_downloaded == (downloaded > 0 && settings.enabled),
        r.sync_all == settings.sync_all_on_cli,
{
    FishFollowUp {
        sync_downloaded: downloaded > 0 && settings.enabled,
        sync_all: settings.sync_all_on_cli,
    }
}

} // verus!
