//! User settings: the plain values behind the configuration file. Reading
//! and writing the file itself lives outside the library.

use vstd::prelude::*;

verus! {

/// User settings together with what loading them had to report.
pub struct SettingsContext {
    pub settings: Settings,
    pub message: String,
    pub log_warning: bool,
    pub log_error: bool,
}

/// The whole settings tree.
pub struct Settings {
    pub development: Development,
    pub other: Other,
    pub graphical: Graphical,
}

/// Settings with no better home.
pub struct Other {
    pub screenshot_location: String,
}

/// Settings used during development only.
pub struct Development {
    pub debug: bool,
}

/// Display settings.
pub struct Graphical {
    pub fullscreen: bool,
    pub vsync: bool,
    pub post_processing: PostProcessing,
}

/// Post-processing toggles.
pub struct PostProcessing {
    pub scan_lines: bool,
    pub screen_burn: bool,
}

impl Default for Development {
    fn default() -> (r: Self)
        ensures
            !r.debug,
    {
        Development { debug: false }
    }
}

impl Default for PostProcessing {
    fn default() -> (r: Self)
        ensures
            !r.scan_lines && !r.screen_burn,
    {
        PostProcessing { scan_lines: false, screen_burn: false }
    }
}

impl Default for Graphical {
    fn default() -> (r: Self)
        ensures
            r.fullscreen && !r.vsync,
            !r.post_processing.scan_lines && !r.post_processing.screen_burn,
    {
        Graphical { fullscreen: true, vsync: false, post_processing: Default::default() }
    }
}

} // verus!
