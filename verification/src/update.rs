//! Release-check state. The surrounding layer performs the network check on
//! a worker and hands each received outcome to `poll`; the state records the
//! newer release's version and address, or the failure.

use vstd::prelude::*;

verus! {

/// The state of one release check: whether an answer is still pending, and
/// the latest version and its address once a newer release was found.
pub struct UpdateState {
    pub pending: bool,
    pub latest_version: Option<String>,
    pub release_url: Option<String>,
    pub error_msg: Option<String>,
}

impl UpdateState {
    /// Folds one received outcome into the state: nothing received keeps the
    /// check pending; a received outcome ends it, recording the newer
    /// release's version and address, or nothing when already current, or
    /// the error.
    pub fn poll(&mut self, received: Option<Result<Option<(String, String)>, String>>)
        ensures
            match received {
                None => *final(self) == *old(self),
                Some(_) => !final(self).pending,
            },
            old(self).pending ==> match received {
                Some(Ok(Some((ver, url)))) => final(self).latest_version == Some(ver) && final(self).release_url == Some(url) && final(self).error_msg == old(self).error_msg,
                Some(Ok(None)) => final(self).latest_version == old(self).latest_version && final(self).release_url == old(self).release_url && final(self).error_msg == old(self).error_msg,
                Some(Err(e)) => final(self).error_msg == Some(e),
                None => true,
            },
            !old(self).pending ==> match received {
                Some(_) => final(self).latest_version == old(self).latest_version && final(self).release_url == old(self).release_url && final(self).error_msg == old(self).error_msg,
                None => true,
            },
    {
        match received {
            Some(result) => {
                if self.pending {
                    self.pending = false;
                    match result {
                        Ok(Some((ver, url))) => {
                            self.latest_version = Some(ver);
                            self.release_url = Some(url);
                        },
                        Ok(None) => {},
                        Err(e) => {
                            self.error_msg = Some(e);
                        },
                    }
                } else {
                    self.pending = false;
                }
            },
            None => {},
        }
    }
}

} // verus!
