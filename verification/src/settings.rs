//! The window-settings schema: three booleans stored under fixed keys of
//! one configuration file, each with a canonical comment that is
//! re-asserted on every save.

use vstd::prelude::*;

use crate::store::bool_str;
use crate::store::spec_get_bool;
use crate::store::ConfigParser;

verus! {

/// Window chrome state: native decorations, start maximized, start
/// fullscreen.
#[derive(Debug, Clone, PartialEq, Eq, Structural)]
pub struct Settings {
    pub window_decorations: bool,
    pub window_maximized: bool,
    pub window_fullscreen: bool,
}

impl Default for Settings {
    /// Decorations and maximized on, fullscreen off.
    fn default() -> (r: Self)
        ensures
            r.window_decorations,
            r.window_maximized,
            !r.window_fullscreen,
    {
        Settings { window_decorations: true, window_maximized: true, window_fullscreen: false }
    }
}

/// The boolean read for one key, with its default where the key is unset
/// or its value is not boolean.
pub open spec fn bool_or(m: Map<Seq<char>, Seq<char>>, k: Seq<char>, d: bool) -> bool {
    match spec_get_bool(m, k) {
        Some(b) => b,
        None => d,
    }
}

/// The settings a loaded store holds, defaults filling in for unset or
/// non-boolean values.
pub fn settings_from_store(store: &ConfigParser) -> (r: Settings)
    requires
        store.wf(),
    ensures
        r.window_decorations == bool_or(store.values(), "window_decorations"@, true),
        r.window_maximized == bool_or(store.values(), "window_maximized"@, true),
        r.window_fullscreen == bool_or(store.values(), "window_fullscreen"@, false),
{
    Settings {
        window_decorations: match store.get_bool("window_decorations") {
            Some(b) => b,
            None => true,
        },
        window_maximized: match store.get_bool("window_maximized") {
            Some(b) => b,
            None => true,
        },
        window_fullscreen: match store.get_bool("window_fullscreen") {
            Some(b) => b,
            None => false,
        },
    }
}

/// Write the settings' three keys and their canonical comments into the
/// store, leaving every other key and comment as it was. The canonical
/// comments overwrite whatever comments a loaded file carried for these
/// keys.
pub fn settings_to_store(store: &mut ConfigParser, s: &Settings)
    requires
        old(store).wf(),
    ensures
        final (store).wf(),
        final (store).values() == old(store).values().insert(
            "window_decorations"@,
            bool_str(s.window_decorations),
        ).insert("window_maximized"@, bool_str(s.window_maximized)).insert(
            "window_fullscreen"@,
            bool_str(s.window_fullscreen),
        ),
        final (store).comments() == old(store).comments().insert(
            "window_decorations"@,
            "Show native window title bar and decorations"@,
        ).insert("window_maximized"@, "Start window in maximized state"@).insert(
            "window_fullscreen"@,
            "Start window in fullscreen mode (overrides maximized)"@,
        ),
        final (store).path() == old(store).path(),
{
    store.set_bool("window_decorations", s.window_decorations);
    store.set_bool("window_maximized", s.window_maximized);
    store.set_bool("window_fullscreen", s.window_fullscreen);
    store.set_comment("window_decorations", "Show native window title bar and decorations");
    store.set_comment("window_maximized", "Start window in maximized state");
    store.set_comment("window_fullscreen", "Start window in fullscreen mode (overrides maximized)");
}

} // verus!
