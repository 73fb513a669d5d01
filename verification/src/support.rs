//! The misbehaving plugins that exercise Prep's process policy, and the name
//! each reports.
use vstd::prelude::*;

verus! {

/// How a test plugin misbehaves.
#[derive(Debug, Clone, Copy, PartialEq, Eq)]
pub enum AdversarialPluginMode {
    HangHandshake,
    HangResult,
    HangExit,
    FloodStderr,
    SpawnChild,
    SpawnChildExit,
}

/// The plugin name a test plugin reports for each mode.
pub open spec fn mode_name(mode: AdversarialPluginMode) -> Seq<char> {
    match mode {
        AdversarialPluginMode::HangHandshake => "hang-handshake"@,
        AdversarialPluginMode::HangResult => "hang-result"@,
        AdversarialPluginMode::HangExit => "hang-exit"@,
        AdversarialPluginMode::FloodStderr => "flood-stderr"@,
        AdversarialPluginMode::SpawnChild => "spawn-child"@,
        AdversarialPluginMode::SpawnChildExit => "spawn-child-exit"@,
    }
}

/// The plugin name reported by the test plugin of `mode`.
pub fn fixture_name(mode: AdversarialPluginMode) -> (r: &'static str)
    ensures
        r@ == mode_name(mode),
{
    match mode {
        AdversarialPluginMode::HangHandshake => "hang-handshake",
        AdversarialPluginMode::HangResult => "hang-result",
        AdversarialPluginMode::HangExit => "hang-exit",
        AdversarialPluginMode::FloodStderr => "flood-stderr",
        AdversarialPluginMode::SpawnChild => "spawn-child",
        AdversarialPluginMode::SpawnChildExit => "spawn-child-exit",
    }
}

} // verus!
