//! Where the database listens.

use vstd::prelude::*;
use crate::text::{decimal, decimal_string};

verus! {

/// The local database server, by the port it listens on.
pub struct DBController {
    port: u16,
}

/// The port the database is started on.
pub const DB_PORT: u16 = 27021;

/// The connection URI of the local database on `port`:
/// `mongodb://127.0.0.1:<port>/estm`.
pub open spec fn connection_uri(port: nat) -> Seq<char> {
    "mongodb://127.0.0.1:"@ + decimal(port) + "/estm"@
}

impl DBController {
    /// The controller of a database listening on `port`.
    pub fn on_port(port: u16) -> (d: DBController)
        ensures
            d.port() == port,
    {
        DBController { port }
    }

    pub closed spec fn port(&self) -> u16 {
        self.port
    }

    /// The URI to connect to the database: `mongodb://127.0.0.1:<port>/estm`.
    pub fn get_connection_uri(&self) -> (uri: String)
        ensures
            uri@ == connection_uri(self.port() as nat),
    {
        let mut uri = String::from_str("mongodb://127.0.0.1:");
        let port_text = decimal_string(self.port as u64);
        uri.append(port_text.as_str());
        uri.append("/estm");
        proof {
            assert(uri@ =~= connection_uri(self.port() as nat));
        }
        uri
    }
}

} // verus!
