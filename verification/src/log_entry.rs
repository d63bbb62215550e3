//! The request part of a Caddy access-log entry.

use vstd::prelude::*;
use vstd::string::StringExecFns;
use crate::reports::{address_of, client_address};
use crate::table::Table;

verus! {

/// TLS details of a request.
pub struct TlsInfo {
    pub resumed: bool,
    pub version: u16,
    pub cipher_suite: u16,
    pub proto: String,
    pub server_name: String,
}

/// The request of a log entry; the header map is kept as a table.
pub struct RequestInfo {
    pub remote_ip: String,
    pub remote_port: String,
    pub client_ip: String,
    pub proto: String,
    pub method: String,
    pub host: String,
    pub uri: String,
    pub headers: Table<String, Vec<String>>,
    pub tls: Option<TlsInfo>,
}

impl RequestInfo {
    /// The address the request is attributed to: the client IP, else the
    /// remote IP.
    pub fn address(&self) -> (r: String)
        ensures
            r@ == address_of(self.client_ip@, self.remote_ip@),
    {
        client_address(self.client_ip.as_str(), self.remote_ip.as_str())
    }

    /// The first `User-Agent` header value.
    pub fn user_agent(&self) -> (r: Option<String>)
        requires
            self.headers.wf(),
        ensures
            r matches Some(u) ==> crate::analytics::header_first_spec(
                crate::analytics::headers_view(&self.headers),
                seq!["User-Agent"@],
            ) == Some(u@),
            r is None ==> crate::analytics::header_first_spec(
                crate::analytics::headers_view(&self.headers),
                seq!["User-Agent"@],
            ) is None,
    {
        let mut names: Vec<String> = Vec::new();
        names.push(String::from_str("User-Agent"));
        let r = crate::analytics::header_first(&self.headers, &names);
        proof {
            assert(names@.map_values(|s: String| s@) =~= seq!["User-Agent"@]);
        }
        r
    }
}

} // verus!
