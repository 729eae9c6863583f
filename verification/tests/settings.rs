//! Settings.
use dc_core::settings::{ChannelKind, ProxyMode, Settings, ThemeMode};

#[test]
fn the_usual_settings() {
    let s = Settings::default();
    assert_eq!(s.appearance.theme, ThemeMode::FollowSystem);
    assert!(s.appearance.dynamic_color && !s.appearance.reduced_motion);
    assert_eq!(
        s.channel_priority.0,
        vec![
            ChannelKind::Bluetooth,
            ChannelKind::Lan,
            ChannelKind::Direct,
            ChannelKind::Relay,
            ChannelKind::Tor,
        ]
    );
    assert_eq!(s.proxy.mode, ProxyMode::Off);
    assert_eq!((s.proxy.host.as_str(), s.proxy.port, s.proxy.bypass.len()), ("", 0, 0));
    assert!(s.node_service.enabled && s.node_service.only_when_charging);
    assert_eq!((s.node_service.scope, s.node_service.data_cap_mb), (1, Some(200)));
    assert_eq!(s.adaptive.thresholds.group_medium, 50);
    assert_eq!(f32::from_bits(s.adaptive.thresholds.rate_medium), 20.0);
    assert!(s.privacy.show_receipts && s.privacy.screenshot_block && !s.privacy.link_preview);
    assert_eq!(s.bluetooth_switch_seconds, 10);
    assert!(s.strict_crypto);
}

#[test]
fn what_cannot_be_read_leaves_the_usual_settings() {
    assert_eq!(Settings::loaded(None), Settings::default());
    let mut edited = Settings::default();
    edited.appearance.theme = ThemeMode::Dark;
    assert_eq!(Settings::loaded(Some(edited.clone())), edited);
}
