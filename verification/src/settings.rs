//! What a user can set, and what holds until they do.
use vstd::prelude::*;
use crate::adaptive::Thresholds;

verus! {

#[derive(Debug, Clone, Copy, PartialEq, Eq, Structural)]
pub enum ThemeMode {
    FollowSystem,
    Light,
    Dark,
}

/// The ways on which messages travel.
#[derive(Debug, Clone, Copy, PartialEq, Eq, Structural)]
pub enum ChannelKind {
    Bluetooth,
    Lan,
    Direct,
    Relay,
    Tor,
}

/// The ways in the order in which they are tried.
#[derive(Debug, Clone, PartialEq)]
pub struct ChannelPriority(pub Vec<ChannelKind>);

impl Default for ChannelPriority {
    fn default() -> (r: ChannelPriority)
        ensures
            r.0@ == seq![
                ChannelKind::Bluetooth,
                ChannelKind::Lan,
                ChannelKind::Direct,
                ChannelKind::Relay,
                ChannelKind::Tor,
            ],
    {
        let mut v: Vec<ChannelKind> = Vec::new();
        v.push(ChannelKind::Bluetooth);
        v.push(ChannelKind::Lan);
        v.push(ChannelKind::Direct);
        v.push(ChannelKind::Relay);
        v.push(ChannelKind::Tor);
        ChannelPriority(v)
    }
}

#[derive(Debug, Clone, Copy, PartialEq, Eq, Structural)]
pub enum ProxyMode {
    /// No proxy.
    Off,
    Http,
    Socks5,
}

#[derive(Debug, Clone, PartialEq)]
pub struct ProxyCfg {
    pub mode: ProxyMode,
    pub host: String,
    pub port: u16,
    /// The ways that do not go through the proxy.
    pub bypass: Vec<ChannelKind>,
}

impl ProxyCfg {
    /// No proxy.
    pub open spec fn off(self) -> bool {
        &&& self.mode == ProxyMode::Off
        &&& self.host@ == Seq::<char>::empty()
        &&& self.port == 0
        &&& self.bypass@ == Seq::<ChannelKind>::empty()
    }
}

impl Default for ProxyCfg {
    fn default() -> (r: ProxyCfg)
        ensures
            r.off(),
    {
        ProxyCfg { mode: ProxyMode::Off, host: String::new(), port: 0, bypass: Vec::new() }
    }
}

/// What the user's device does for others.
#[derive(Debug, Clone, Copy, PartialEq, Eq, Structural)]
pub struct NodeServiceCfg {
    pub enabled: bool,
    /// For whom: 0 nobody, 1 contacts, 2 contacts and their contacts, 3 anyone within limits.
    pub scope: u8,
    pub only_when_charging: bool,
    pub only_on_unmetered: bool,
    pub data_cap_mb: Option<u32>,
}

impl Default for NodeServiceCfg {
    fn default() -> (r: NodeServiceCfg)
        ensures
            r == (NodeServiceCfg {
                enabled: true,
                scope: 1,
                only_when_charging: true,
                only_on_unmetered: true,
                data_cap_mb: Some(200),
            }),
    {
        NodeServiceCfg {
            enabled: true,
            scope: 1,
            only_when_charging: true,
            only_on_unmetered: true,
            data_cap_mb: Some(200),
        }
    }
}

#[derive(Debug, Clone, Copy, PartialEq, Eq, Structural)]
pub struct AppearanceCfg {
    pub theme: ThemeMode,
    pub dynamic_color: bool,
    pub reduced_motion: bool,
}

impl Default for AppearanceCfg {
    fn default() -> (r: AppearanceCfg)
        ensures
            r == (AppearanceCfg {
                theme: ThemeMode::FollowSystem,
                dynamic_color: true,
                reduced_motion: false,
            }),
    {
        AppearanceCfg { theme: ThemeMode::FollowSystem, dynamic_color: true, reduced_motion: false }
    }
}

#[derive(Debug, Clone, Copy, PartialEq, Eq, Structural)]
pub struct PrivacyCfg {
    pub show_receipts: bool,
    pub show_typing: bool,
    /// Off unless asked for: a preview tells the linked site who looks.
    pub link_preview: bool,
    pub screenshot_block: bool,
}

impl Default for PrivacyCfg {
    fn default() -> (r: PrivacyCfg)
        ensures
            r == (PrivacyCfg {
                show_receipts: true,
                show_typing: true,
                link_preview: false,
                screenshot_block: true,
            }),
    {
        PrivacyCfg {
            show_receipts: true,
            show_typing: true,
            link_preview: false,
            screenshot_block: true,
        }
    }
}

#[derive(Debug, Clone, PartialEq)]
pub struct AdaptiveCfg {
    pub enabled: bool,
    pub thresholds: Thresholds,
}

impl Default for AdaptiveCfg {
    fn default() -> (r: AdaptiveCfg)
        ensures
            r.enabled,
            r.thresholds == Thresholds::standard(),
    {
        AdaptiveCfg { enabled: true, thresholds: Thresholds::default() }
    }
}

#[derive(Debug, Clone, PartialEq)]
pub struct Settings {
    pub appearance: AppearanceCfg,
    pub channel_priority: ChannelPriority,
    pub proxy: ProxyCfg,
    pub node_service: NodeServiceCfg,
    pub adaptive: AdaptiveCfg,
    pub privacy: PrivacyCfg,
    /// Seconds of steady heartbeat before a switch to Bluetooth.
    pub bluetooth_switch_seconds: u32,
    /// Nothing leaves the device unencrypted.
    pub strict_crypto: bool,
}

impl Settings {
    /// What holds until the user sets something else.
    pub open spec fn standard(self) -> bool {
        &&& self.appearance == (AppearanceCfg {
            theme: ThemeMode::FollowSystem,
            dynamic_color: true,
            reduced_motion: false,
        })
        &&& self.channel_priority.0@ == seq![
            ChannelKind::Bluetooth,
            ChannelKind::Lan,
            ChannelKind::Direct,
            ChannelKind::Relay,
            ChannelKind::Tor,
        ]
        &&& self.proxy.off()
        &&& self.node_service == (NodeServiceCfg {
            enabled: true,
            scope: 1,
            only_when_charging: true,
            only_on_unmetered: true,
            data_cap_mb: Some(200),
        })
        &&& self.adaptive.enabled
        &&& self.adaptive.thresholds == Thresholds::standard()
        &&& self.privacy == (PrivacyCfg {
            show_receipts: true,
            show_typing: true,
            link_preview: false,
            screenshot_block: true,
        })
        &&& self.bluetooth_switch_seconds == 10
        &&& self.strict_crypto
    }

    /// The settings that were read, or the usual ones when none could be read.
    pub fn loaded(read: Option<Settings>) -> (r: Settings)
        ensures
            match read {
                Some(s) => r == s,
                None => r.standard(),
            },
    {
        match read {
            Some(s) => s,
            None => Settings::default(),
        }
    }
}

impl Default for Settings {
    fn default() -> (r: Settings)
        ensures
            r.standard(),
    {
        Settings {
            appearance: AppearanceCfg::default(),
            channel_priority: ChannelPriority::default(),
            proxy: ProxyCfg::default(),
            node_service: NodeServiceCfg::default(),
            adaptive: AdaptiveCfg::default(),
            privacy: PrivacyCfg::default(),
            bluetooth_switch_seconds: 10,
            strict_crypto: true,
        }
    }
}

} // verus!
