use vstd::prelude::*;
use vstd::string::*;

use crate::text::{decimal, push_decimal};

verus! {

/// The server's settings.
#[derive(Clone, Debug)]
pub struct Config {
    pub database_url: String,
    pub jwt_secret: String,
    pub google_client_id: String,
    pub server_host: String,
    pub server_port: u16,
    pub allowed_origins: Vec<String>,
}

impl Config {
    /// `host:port`.
    pub fn server_addr(&self) -> (r: String)
        ensures
            r@ == self.server_host@ + ":"@ + decimal(self.server_port as nat),
    {
        let mut r = self.server_host.clone();
        r.append(":");
        push_decimal(&mut r, self.server_port as u64);
        r
    }
}

} // verus!
