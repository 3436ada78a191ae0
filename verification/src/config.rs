//! The launcher's configuration: window measurements and styling, as read
//! from an optional TOML file. The values live here as plain data; reading
//! and decoding the file is the shell's business.

use vstd::prelude::*;

verus! {

/// The whole configuration file.
pub struct Config {
    pub window: Option<WindowConfig>,
    pub style: Option<StyleConfig>,
}

/// The window's measurements.
pub struct WindowConfig {
    pub width: i32,
    pub height: i32,
}

/// Styling: an optional stylesheet path, and the window opacity in
/// thousandths of full opacity.
pub struct StyleConfig {
    pub path: Option<String>,
    pub opacity: Option<u32>,
}

impl Default for WindowConfig {
    /// An 800 by 400 window.
    fn default() -> (r: WindowConfig)
        ensures
            r.width == 800 && r.height == 400,
    {
        WindowConfig { width: 800, height: 400 }
    }
}

impl Default for StyleConfig {
    /// No stylesheet, full opacity.
    fn default() -> (r: StyleConfig)
        ensures
            r.path is None && r.opacity == Some(1000u32),
    {
        StyleConfig { path: None, opacity: Some(1000) }
    }
}

impl Default for Config {
    /// Default window and style sections.
    fn default() -> (r: Config)
        ensures
            match r.window {
                Some(w) => w.width == 800 && w.height == 400,
                None => false,
            },
            match r.style {
                Some(s) => s.path is None && s.opacity == Some(1000u32),
                None => false,
            },
    {
        Config { window: Some(WindowConfig::default()), style: Some(StyleConfig::default()) }
    }
}

} // verus!
