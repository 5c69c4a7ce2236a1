//! Settings-dialog state. The dialog may be waiting for a patch-version
//! fetch that the surrounding layer runs; the layer reports each fetch
//! outcome back through `fetch_finished`.

use vstd::prelude::*;

verus! {

/// The settings dialog: whether it is open, whether a fetch is in flight,
/// the last fetch's status text, and the pending schema-update request.
pub struct SettingsWindow {
    pub open: bool,
    pub is_fetching: bool,
    pub fetch_status_msg: Option<String>,
    pub request_update_schema: bool,
    pub schema_status_msg: Option<String>,
}

impl Default for SettingsWindow {
    /// A closed dialog with nothing in flight.
    fn default() -> (r: Self)
        ensures
            !r.open && !r.is_fetching && !r.request_update_schema,
            r.fetch_status_msg is None,
            r.schema_status_msg is None,
    {
        SettingsWindow {
            open: false,
            is_fetching: false,
            fetch_status_msg: None,
            request_update_schema: false,
            schema_status_msg: None,
        }
    }
}

impl SettingsWindow {
    /// A fresh, closed dialog.
    pub fn new() -> (r: Self)
        ensures
            !r.open && !r.is_fetching && !r.request_update_schema,
            r.fetch_status_msg is None,
            r.schema_status_msg is None,
    {
        Self::default()
    }

    /// Opens the dialog.
    pub fn open(&mut self)
        ensures
            final(self).open,
            final(self).is_fetching == old(self).is_fetching,
            final(self).fetch_status_msg == old(self).fetch_status_msg,
            final(self).request_update_schema == old(self).request_update_schema,
            final(self).schema_status_msg == old(self).schema_status_msg,
    {
        self.open = true;
    }

    /// Records the outcome of a patch-version fetch: the fetch is no longer
    /// in flight and the status text is the message handed in.
    pub fn fetch_finished(&mut self, status: String)
        ensures
            !final(self).is_fetching,
            final(self).fetch_status_msg == Some(status),
            final(self).open == old(self).open,
            final(self).request_update_schema == old(self).request_update_schema,
            final(self).schema_status_msg == old(self).schema_status_msg,
    {
        self.is_fetching = false;
        self.fetch_status_msg = Some(status);
    }
}

} // verus!
