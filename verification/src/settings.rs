//! Per-guild settings, as they are held once they have been loaded.

use std::collections::HashMap;
use vstd::prelude::*;

verus! {

/// The settings of one guild: what holds for each of its channels, by the
/// channel's name.
#[derive(Debug)]
pub struct Settings {
    pub channels: HashMap<String, Channel>,
}

/// What holds for one channel.
#[derive(Debug, Clone, Copy, PartialEq, Eq, Structural)]
pub struct Channel {
    /// The channel's identifier.
    pub id: u64,
    /// Whether streaks are recorded in the channel.
    pub enabled: bool,
    /// Whether the channel's users are reminded of a streak about to end.
    pub send_reminder: bool,
}

} // verus!
