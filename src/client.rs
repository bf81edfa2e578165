//! The client's connection settings and the checker endpoint's address.

use vstd::prelude::*;

use crate::number::{decimal, push_decimal};

verus! {

/// Where the daemon listens and how to talk to it.
pub struct IcingaPsRestApiClient {
    host: String,
    port: u32,
    allow_invalid_certs: bool,
    timeout: u32,
}

/// `https://{host}:{port}/v1/checker?command={command}`
pub open spec fn checker_url_text(host: Seq<char>, port: u32, command: Seq<char>) -> Seq<char> {
    "https://"@ + host + ":"@ + decimal(port as nat) + "/v1/checker?command="@ + command
}

impl IcingaPsRestApiClient {
    pub closed spec fn host_view(&self) -> Seq<char> {
        self.host@
    }

    pub closed spec fn port_view(&self) -> u32 {
        self.port
    }

    pub closed spec fn insecure_view(&self) -> bool {
        self.allow_invalid_certs
    }

    pub closed spec fn timeout_view(&self) -> u32 {
        self.timeout
    }

    /// A client with the default timeout of 60 seconds.
    pub fn new(host: &str, port: u32, allow_invalid_certs: bool) -> (r: IcingaPsRestApiClient)
        ensures
            r.host_view() == host@,
            r.port_view() == port,
            r.insecure_view() == allow_invalid_certs,
            r.timeout_view() == 60,
    {
        IcingaPsRestApiClient { host: host.to_owned(), port, allow_invalid_certs, timeout: 60 }
    }

    /// The same client with another timeout, in seconds, for connecting and
    /// for the whole request.
    pub fn with_timeout(self, seconds: u32) -> (r: IcingaPsRestApiClient)
        ensures
            r.host_view() == self.host_view(),
            r.port_view() == self.port_view(),
            r.insecure_view() == self.insecure_view(),
            r.timeout_view() == seconds,
    {
        IcingaPsRestApiClient { timeout: seconds, ..self }
    }

    pub fn allow_invalid_certs(&self) -> (r: bool)
        ensures
            r == self.insecure_view(),
    {
        self.allow_invalid_certs
    }

    pub fn timeout(&self) -> (r: u32)
        ensures
            r == self.timeout_view(),
    {
        self.timeout
    }

    /// The address of the checker endpoint for `command`.
    pub fn checker_url(&self, command: &str) -> (r: String)
        ensures
            r@ == checker_url_text(self.host_view(), self.port_view(), command@),
    {
        let mut url = "https://".to_owned();
        url.push_str(self.host.as_str());
        url.push_str(":");
        push_decimal(&mut url, self.port as u64);
        url.push_str("/v1/checker?command=");
        url.push_str(command);
        url
    }
}

} // verus!
