//! The two directories the tool works between, and their check at startup.
use vstd::prelude::*;

use crate::actions::{date_path, NoteDate};

verus! {

/// Why the configured directories cannot be used.
#[derive(Debug, Clone)]
pub struct SettingsValidationError {
    pub message: String,
}

impl SettingsValidationError {
    /// The message shown to the user.
    pub fn to_string(&self) -> (r: String)
        ensures
            r@ == "SettingsValidationError: "@ + self.message@,
    {
        String::from_str("SettingsValidationError: ").concat(self.message.as_str())
    }
}

/// The archive root, where notes are filed, and the inbox root, where scans wait.
#[derive(Debug, Clone)]
pub struct Paths {
    pub notes_path: String,
    pub scans_path: String,
}

impl Paths {
    /// Decides whether the configured directories can be used, given whether each exists:
    /// the archive root is checked first, then the inbox root.
    pub fn validate(&self, notes_exists: bool, scans_exists: bool) -> (r: Result<
        (),
        SettingsValidationError,
    >)
        ensures
            !notes_exists ==> r is Err && r->Err_0.message@ == "Notes path does not exist: "@
                + self.notes_path@,
            notes_exists && !scans_exists ==> r is Err && r->Err_0.message@
                == "Scans path does not exist: "@ + self.scans_path@,
            notes_exists && scans_exists ==> r is Ok,
    {
        if !notes_exists {
            return Err(
                SettingsValidationError {
                    message: String::from_str("Notes path does not exist: ").concat(
                        self.notes_path.as_str(),
                    ),
                },
            );
        }
        if !scans_exists {
            return Err(
                SettingsValidationError {
                    message: String::from_str("Scans path does not exist: ").concat(
                        self.scans_path.as_str(),
                    ),
                },
            );
        }
        Ok(())
    }

    /// The folder of the archive where notes of `date` are filed.
    pub fn date_folder(&self, date: &NoteDate) -> (r: String)
        ensures
            r@ == self.notes_path@ + seq!['/'] + date_path(*date),
    {
        proof {
            reveal_strlit("/");
        }
        self.notes_path.clone().concat("/").concat(date.to_path().as_str())
    }
}

} // verus!
