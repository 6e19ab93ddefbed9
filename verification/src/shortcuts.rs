//! The shortcut schema: one key binding stored under a fixed key of its
//! own configuration file, with a canonical comment re-asserted on every
//! save.

use vstd::prelude::*;

use crate::store::ConfigParser;
use crate::text::trim;
use crate::text::trim_str;

verus! {

/// The keyboard shortcuts: the binding that opens the command palette.
#[derive(Debug, Clone, PartialEq)]
pub struct Shortcuts {
    pub command_palette: String,
}

impl Default for Shortcuts {
    /// The default binding.
    fn default() -> (r: Self)
        ensures
            r.command_palette@ == "Cmd+P"@,
    {
        Shortcuts { command_palette: String::from_str("Cmd+P") }
    }
}

/// The command-palette binding a mapping holds: the stored text, unless
/// the key is unset or its text is empty or whitespace-only, when the
/// default binding stands in.
pub open spec fn spec_command_palette(m: Map<Seq<char>, Seq<char>>) -> Seq<char> {
    if m.contains_key("command_palette"@) && trim(m["command_palette"@]).len() > 0 {
        m["command_palette"@]
    } else {
        "Cmd+P"@
    }
}

/// The shortcuts a loaded store holds.
pub fn shortcuts_from_store(store: &ConfigParser) -> (r: Shortcuts)
    requires
        store.wf(),
    ensures
        r.command_palette@ == spec_command_palette(store.values()),
{
    match store.get("command_palette") {
        Some(v) => {
            let t = trim_str(v.as_str());
            if t.unicode_len() == 0 {
                Shortcuts::default()
            } else {
                Shortcuts { command_palette: String::from_str(v.as_str()) }
            }
        },
        None => Shortcuts::default(),
    }
}

/// Write the binding and its canonical comment into the store, leaving
/// every other key and comment as it was. The canonical comment
/// overwrites whatever comment a loaded file carried for this key.
pub fn shortcuts_to_store(store: &mut ConfigParser, s: &Shortcuts)
    requires
        old(store).wf(),
    ensures
        final (store).wf(),
        final (store).values() == old(store).values().insert(
            "command_palette"@,
            s.command_palette@,
        ),
        final (store).comments() == old(store).comments().insert(
            "command_palette"@,
            "Open the command palette"@,
        ),
        final (store).path() == old(store).path(),
{
    store.set("command_palette", s.command_palette.as_str());
    store.set_comment("command_palette", "Open the command palette");
}

} // verus!
