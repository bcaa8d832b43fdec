//! Reminder definitions: the user-authored records that the scheduler
//! works from, and the notions of equality the scheduler needs.

use vstd::prelude::*;

verus! {

/// A recurring reminder definition.
///
/// `creation_time` is the definition's identity: it is set once, when the
/// definition is created, and never edited, so it names the definition
/// across edits and reloads. Every other field is user-editable content.
/// An empty `icon` means the reminder carries no icon.
#[derive(Debug)]
pub struct Entry {
    pub name: String,
    /// Seconds between firings.
    pub interval: u64,
    pub message: String,
    /// Raw urgency level; see [`urgency_of`] for its meaning.
    pub urgency: u8,
    pub icon: String,
    pub enabled: bool,
    /// Identity: milliseconds since the Unix epoch at creation.
    pub creation_time: u128,
}

impl Entry {
    /// Full equality: every field, identity included. Reconciliation diffs
    /// definition sets with this, so an edit makes the old version of a
    /// definition "disappear" and a new-content version "appear".
    pub open spec fn same_def(self, other: Entry) -> bool {
        &&& self.name@ == other.name@
        &&& self.interval == other.interval
        &&& self.message@ == other.message@
        &&& self.urgency == other.urgency
        &&& self.icon@ == other.icon@
        &&& self.enabled == other.enabled
        &&& self.creation_time == other.creation_time
    }

    /// Content equality: the fields a scheduled snapshot is validated
    /// against at pop time — everything except the enabled flag (checked
    /// separately) and the identity (used to find the live definition).
    pub open spec fn same_content(self, other: Entry) -> bool {
        &&& self.name@ == other.name@
        &&& self.interval == other.interval
        &&& self.message@ == other.message@
        &&& self.urgency == other.urgency
        &&& self.icon@ == other.icon@
    }

    /// Creates a definition, enabled, with the current wall-clock time as
    /// its identity. Two definitions created at distinct milliseconds get
    /// distinct identities; nothing is promised of the clock itself.
    pub fn new(name: String, interval: u64, message: String, urgency: u8, icon: String) -> (r: Entry)
        ensures
            r.name@ == name@,
            r.interval == interval,
            r.message@ == message@,
            r.urgency == urgency,
            r.icon@ == icon@,
            r.enabled,
    {
        let creation_time = now_unix_millis();
        Entry { name, interval, message, urgency, icon, enabled: true, creation_time }
    }

    /// Runtime check for [`Entry::same_def`].
    pub fn eq_def(&self, other: &Entry) -> (r: bool)
        ensures
            r == self.same_def(*other),
    {
        self.name == other.name && self.interval == other.interval
            && self.message == other.message && self.urgency == other.urgency
            && self.icon == other.icon && self.enabled == other.enabled
            && self.creation_time == other.creation_time
    }

    /// Runtime check for [`Entry::same_content`].
    pub fn eq_content(&self, other: &Entry) -> (r: bool)
        ensures
            r == self.same_content(*other),
    {
        self.name == other.name && self.interval == other.interval
            && self.message == other.message && self.urgency == other.urgency
            && self.icon == other.icon
    }
}

impl Clone for Entry {
    fn clone(&self) -> (r: Entry)
        ensures
            r == *self,
    {
        Entry {
            name: self.name.clone(),
            interval: self.interval,
            message: self.message.clone(),
            urgency: self.urgency,
            icon: self.icon.clone(),
            enabled: self.enabled,
            creation_time: self.creation_time,
        }
    }
}

/// How urgently a reminder is displayed.
#[derive(Clone, Copy, Debug, PartialEq, Eq, Structural)]
pub enum Urgency {
    Low,
    Normal,
    Critical,
}

/// Maps a definition's raw urgency level to the displayed urgency:
/// 0 is low, 2 is critical, anything else is normal.
pub fn urgency_of(level: u8) -> (r: Urgency)
    ensures
        r == (if level == 0 { Urgency::Low } else if level == 2 { Urgency::Critical } else { Urgency::Normal }),
{
    if level == 0 {
        Urgency::Low
    } else if level == 2 {
        Urgency::Critical
    } else {
        Urgency::Normal
    }
}

/// Relies on std::time::SystemTime::now, read as whole milliseconds since
/// the Unix epoch (zero if the clock reads earlier than the epoch). The
/// result depends on the clock, so nothing is promised of it.
#[verifier::external_body]
fn now_unix_millis() -> u128 {
    match std::time::SystemTime::now().duration_since(std::time::UNIX_EPOCH) {
        Ok(d) => d.as_millis(),
        Err(_) => 0,
    }
}

} // verus!
