//! The record a launcher row carries, whatever the discovery source: a
//! flattened view of a desktop-entry record, with absent icon or keywords
//! as empty strings.

use vstd::prelude::*;
use vstd::string::*;
use crate::desktop_entry::DesktopApp;

verus! {

/// One launchable application, as the launcher's list holds it.
#[derive(Clone)]
pub struct AppEntry {
    pub id: String,
    pub name: String,
    pub command: String,
    pub icon: String,
    pub keywords: String,
}

impl AppEntry {
    /// An entry with the given fields; a missing icon or keyword string
    /// becomes empty.
    pub fn new(
        id: String,
        name: String,
        command: String,
        icon: Option<String>,
        keywords: Option<String>,
    ) -> (r: AppEntry)
        ensures
            r.id == id && r.name == name && r.command == command,
            r.icon@ == (match icon {
                Some(s) => s@,
                None => Seq::<char>::empty(),
            }),
            r.keywords@ == (match keywords {
                Some(s) => s@,
                None => Seq::<char>::empty(),
            }),
    {
        let icon = match icon {
            Some(s) => s,
            None => String::new(),
        };
        let keywords = match keywords {
            Some(s) => s,
            None => String::new(),
        };
        AppEntry { id, name, command, icon, keywords }
    }

    /// The entry for a desktop-entry record.
    pub fn from_freedesktop(app: &DesktopApp) -> (r: AppEntry)
        ensures
            r.id == app.id && r.name == app.name && r.command == app.command && r.icon == app.icon
                && r.keywords == app.keywords,
    {
        AppEntry {
            id: app.id.clone(),
            name: app.name.clone(),
            command: app.command.clone(),
            icon: app.icon.clone(),
            keywords: app.keywords.clone(),
        }
    }
}

} // verus!
