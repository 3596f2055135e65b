//! The application's persisted settings, as plain values.
//!
//! Loading the settings from disk is the surrounding application's job; this
//! type only holds what was loaded and answers questions about it.

use vstd::prelude::*;

verus! {

/// The settings the application runs with: at present, just an optional
/// database connection string.
pub struct ConfigurationManager {
    database_connection_string: Option<String>,
}

impl ConfigurationManager {
    /// The connection string this configuration carries, if any.
    pub closed spec fn connection_string(&self) -> Option<Seq<char>> {
        match self.database_connection_string {
            Some(s) => Some(s@),
            None => None,
        }
    }

    /// A configuration carrying the given connection string, if any.
    pub fn with_connection_string(database_connection_string: Option<String>) -> (r: Self)
        ensures
            r.connection_string() is Some <==> database_connection_string is Some,
            database_connection_string is Some ==> r.connection_string()->0
                == database_connection_string->0@,
    {
        ConfigurationManager { database_connection_string }
    }

    /// The configured database connection string, if one is set.
    pub fn get_database_connection_string(&self) -> (r: Option<&str>)
        ensures
            r is Some <==> self.connection_string() is Some,
            r is Some ==> r->0@ == self.connection_string()->0,
    {
        match &self.database_connection_string {
            Some(s) => Some(s.as_str()),
            None => None,
        }
    }
}

impl Default for ConfigurationManager {
    /// An empty configuration with no connection string set.
    fn default() -> (r: Self)
        ensures
            r.connection_string() is None,
    {
        ConfigurationManager { database_connection_string: None }
    }
}

} // verus!
