//! The notification record.
use vstd::prelude::*;

verus! {

/// One notification, from the moment a producer creates it until it is
/// archived.
#[derive(Debug)]
pub struct Notification {
    /// Opaque unique id.
    pub id: String,
    pub title: String,
    pub message: String,
    /// Requested display duration, in seconds.
    pub duration: u64,
    /// Free-form type tag.
    pub kind: String,
    /// The surface this record was last assigned to, if any.
    pub window_label: Option<String>,
    /// When the record was first delivered to a surface, in epoch seconds.
    pub timestamp: Option<u64>,
    /// When the record entered the queue, in epoch seconds.
    pub enqueued_at: u64,
}

impl Clone for Notification {
    fn clone(&self) -> (r: Self)
        ensures
            r == *self,
    {
        let window_label = match &self.window_label {
            Some(s) => Some(s.clone()),
            None => None,
        };
        Notification {
            id: self.id.clone(),
            title: self.title.clone(),
            message: self.message.clone(),
            duration: self.duration,
            kind: self.kind.clone(),
            window_label,
            timestamp: self.timestamp,
            enqueued_at: self.enqueued_at,
        }
    }
}

impl Notification {
    /// A fresh record: not assigned to any surface, never displayed, and not
    /// yet enqueued.
    pub fn new(id: String, title: String, message: String, duration: u64, kind: String) -> (r: Self)
        ensures
            r.id == id,
            r.title == title,
            r.message == message,
            r.duration == duration,
            r.kind == kind,
            r.window_label is None,
            r.timestamp is None,
            r.enqueued_at == 0,
    {
        Notification { id, title, message, duration, kind, window_label: None, timestamp: None, enqueued_at: 0 }
    }
}

} // verus!
