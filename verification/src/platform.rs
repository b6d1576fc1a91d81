//! The operations a platform integration offers.
use vstd::prelude::*;

verus! {

/// A platform's browser discovery and default-handler registration.
/// Errors are reported as messages.
pub trait PlatformHandler {
    fn find_browsers(&self) -> Vec<String>;

    fn set_as_default_handler(&self) -> Result<(), String>;

    fn unregister_handler(&self) -> Result<(), String>;

    fn is_default_handler(&self) -> bool;

    /// The OS-configured default browser's path (in the format that
    /// `find_browsers` uses), so that it can be floated to the top of the
    /// selection list; `None` when it cannot be determined, or when the
    /// default is this handler itself. A platform that does not provide
    /// it reports `None`.
    fn default_browser_path(&self) -> (r: Option<String>)
        default_ensures
            r is None,
    {
        None
    }
}

/// The integration of a platform that is not supported.
pub struct UnsupportedHandler;

/// The error every operation of an unsupported platform reports.
pub open spec fn unsupported_message() -> Seq<char> {
    "Unsupported platform"@
}

impl PlatformHandler for UnsupportedHandler {
    fn find_browsers(&self) -> (r: Vec<String>)
        ensures
            r@.len() == 0,
    {
        Vec::new()
    }

    fn set_as_default_handler(&self) -> (r: Result<(), String>)
        ensures
            r matches Err(m) && m@ == unsupported_message(),
    {
        Err("Unsupported platform".to_owned())
    }

    fn unregister_handler(&self) -> (r: Result<(), String>)
        ensures
            r matches Err(m) && m@ == unsupported_message(),
    {
        Err("Unsupported platform".to_owned())
    }

    fn is_default_handler(&self) -> (r: bool)
        ensures
            !r,
    {
        false
    }

    fn default_browser_path(&self) -> (r: Option<String>)
        ensures
            r is None,
    {
        None
    }
}

} // verus!
