//! The state of a browsing session and how each request changes it.
use vstd::prelude::*;

use crate::actions::{parse_date, NoteDate};
use crate::messages::Message;
use crate::scans::Scan;
use crate::settings::Paths;

verus! {

/// What the caller is to do on the file system after a request.
#[derive(Debug, Clone, Copy, PartialEq, Eq, Structural)]
pub enum Action {
    /// Nothing.
    Nothing,
    /// Remove the scan shown, then reload the scans.
    DeleteScan,
    /// File the scan shown under this date, then reload the scans.
    PostScan(NoteDate),
}

/// A browsing session: the scans of the inbox, the one shown, and the date entered.
#[derive(Debug)]
pub struct NoteApp {
    pub index: usize,
    pub scans: Vec<Scan>,
    pub input: String,
    pub date: Option<NoteDate>,
    pub paths: Paths,
}

impl NoteApp {
    /// A session over `scans` that shows the first scan, with no date entered.
    pub fn new(paths: Paths, scans: Vec<Scan>) -> (r: NoteApp)
        ensures
            r.index == 0,
            r.scans@ == scans@,
            r.input@.len() == 0,
            r.date is None,
            r.paths == paths,
    {
        NoteApp { index: 0, scans, input: String::new(), date: None, paths }
    }

    /// The window title.
    pub fn title(&self) -> (r: String)
        ensures
            r@ == "Note App"@,
    {
        String::from_str("Note App")
    }

    /// The scan shown, if there is one.
    pub fn current_scan(&self) -> (r: Option<&Scan>)
        ensures
            self.index < self.scans@.len() ==> r == Some(&self.scans@[self.index as int]),
            self.index >= self.scans@.len() ==> r is None,
    {
        if self.index < self.scans.len() {
            Some(&self.scans[self.index])
        } else {
            None
        }
    }

    /// Replaces the scans by a fresh listing; the position shown stays where it was, or moves
    /// to the last scan where the list has become shorter.
    pub fn reload(&mut self, scans: Vec<Scan>)
        ensures
            final(self).scans@ == scans@,
            final(self).index == if old(self).index < scans@.len() || scans@.len() == 0 {
                old(self).index
            } else {
                (scans@.len() - 1) as usize
            },
            final(self).input == old(self).input,
            final(self).date == old(self).date,
            final(self).paths == old(self).paths,
    {
        let len = scans.len();
        if self.index >= len && len > 0 {
            self.index = len - 1;
        }
        self.scans = scans;
    }

    /// Applies one request to the session, and says what is to be done on the file system.
    /// Moving is clamped to the list; an edit of the date text parses it anew; removing and
    /// filing need a scan shown, and filing a date that parsed.
    pub fn update(&mut self, message: Message) -> (a: Action)
        ensures
            final(self).scans@ == old(self).scans@,
            final(self).paths == old(self).paths,
            match message {
                Message::Previous => {
                    &&& final(self).index == if old(self).index > 0 {
                        (old(self).index - 1) as usize
                    } else {
                        old(self).index
                    }
                    &&& final(self).input == old(self).input
                    &&& final(self).date == old(self).date
                    &&& a == Action::Nothing
                },
                Message::Next => {
                    &&& final(self).index == if old(self).index + 1 < old(self).scans@.len() {
                        (old(self).index + 1) as usize
                    } else {
                        old(self).index
                    }
                    &&& final(self).input == old(self).input
                    &&& final(self).date == old(self).date
                    &&& a == Action::Nothing
                },
                Message::InputChanged(text) => {
                    &&& final(self).index == old(self).index
                    &&& final(self).input@ == text@
                    &&& final(self).date == parse_date(text@)
                    &&& a == Action::Nothing
                },
                Message::Delete => {
                    &&& final(self).index == old(self).index
                    &&& final(self).input == old(self).input
                    &&& final(self).date == old(self).date
                    &&& a == if old(self).index < old(self).scans@.len() {
                        Action::DeleteScan
                    } else {
                        Action::Nothing
                    }
                },
                Message::Post => {
                    &&& final(self).index == old(self).index
                    &&& final(self).input == old(self).input
                    &&& final(self).date == old(self).date
                    &&& a == match old(self).date {
                        Some(d) => if old(self).index < old(self).scans@.len() {
                            Action::PostScan(d)
                        } else {
                            Action::Nothing
                        },
                        None => Action::Nothing,
                    }
                },
            },
    {
        match message {
            Message::Previous => {
                if self.index > 0 {
                    self.index = self.index - 1;
                }
                Action::Nothing
            },
            Message::Next => {
                if self.scans.len() > 0 && self.index < self.scans.len() - 1 {
                    self.index = self.index + 1;
                }
                Action::Nothing
            },
            Message::InputChanged(text) => {
                self.date = match NoteDate::validate(text.as_str()) {
                    Ok(d) => Some(d),
                    Err(_) => None,
                };
                self.input = text;
                Action::Nothing
            },
            Message::Delete => {
                if self.index < self.scans.len() {
                    Action::DeleteScan
                } else {
                    Action::Nothing
                }
            },
            Message::Post => {
                match self.date {
                    Some(d) => {
                        if self.index < self.scans.len() {
                            Action::PostScan(d)
                        } else {
                            Action::Nothing
                        }
                    },
                    None => Action::Nothing,
                }
            },
        }
    }
}

} // verus!
