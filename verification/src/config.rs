//! The held definition set: an ordered list of reminder definitions and
//! the path of the file it was loaded from. Reading and writing that file
//! is the host's job; this module owns the in-memory list.

use vstd::prelude::*;
use crate::entry::Entry;

verus! {

/// The ordered list of reminder definitions.
pub struct Config {
    pub entries: Vec<Entry>,
}

/// A definition set together with the path of its backing file. The path
/// is carried as plain text; the host resolves and watches it.
pub struct ConfigManager {
    pub config: Config,
    pub config_path: String,
}

impl ConfigManager {
    /// Wraps an already-loaded definition set.
    pub fn new(config: Config, config_path: String) -> (r: ConfigManager)
        ensures
            r.config.entries@ == config.entries@,
            r.config_path@ == config_path@,
    {
        ConfigManager { config, config_path }
    }

    /// Appends a freshly created, enabled definition with the given
    /// content. The caller persists the set afterwards.
    pub fn add_entry(&mut self, name: String, interval: u64, message: String, urgency: u8, icon: String)
        ensures
            final(self).config.entries@.len() == old(self).config.entries@.len() + 1,
            final(self).config.entries@.subrange(0, old(self).config.entries@.len() as int)
                == old(self).config.entries@,
            ({
                let added = final(self).config.entries@.last();
                &&& added.name@ == name@
                &&& added.interval == interval
                &&& added.message@ == message@
                &&& added.urgency == urgency
                &&& added.icon@ == icon@
                &&& added.enabled
            }),
            final(self).config_path@ == old(self).config_path@,
    {
        let new_ent = Entry::new(name, interval, message, urgency, icon);
        self.config.entries.push(new_ent);
        proof {
            assert(self.config.entries@.subrange(0, old(self).config.entries@.len() as int)
                =~= old(self).config.entries@);
        }
    }

    /// Removes the definition at position `id`, keeping the order of the
    /// rest. The caller persists the set afterwards.
    pub fn remove_entry(&mut self, id: u32)
        requires
            id < old(self).config.entries@.len(),
        ensures
            final(self).config.entries@ == old(self).config.entries@.remove(id as int),
            final(self).config_path@ == old(self).config_path@,
    {
        self.config.entries.remove(id as usize);
    }
}

} // verus!
