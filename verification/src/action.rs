use vstd::prelude::*;
use crate::config::AppConfig;

verus! {

/// What a rendered frame asks the app to do next: the screens return it
/// and the shell acts on it.
pub enum Action {
    /// Open the device with these settings, and save them once it opens.
    Start(AppConfig),
    OpenSettings,
}

} // verus!
