use prep::support::{fixture_name, AdversarialPluginMode};

#[test]
fn each_fixture_reports_its_mode() {
    assert_eq!(fixture_name(AdversarialPluginMode::HangHandshake), "hang-handshake");
    assert_eq!(fixture_name(AdversarialPluginMode::HangResult), "hang-result");
    assert_eq!(fixture_name(AdversarialPluginMode::HangExit), "hang-exit");
    assert_eq!(fixture_name(AdversarialPluginMode::FloodStderr), "flood-stderr");
    assert_eq!(fixture_name(AdversarialPluginMode::SpawnChild), "spawn-child");
    assert_eq!(fixture_name(AdversarialPluginMode::SpawnChildExit), "spawn-child-exit");
}
