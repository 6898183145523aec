use vstd::prelude::*;

verus! {

/// Where the server binds: an IP address and a port.
pub struct ArgsParser {
    pub ip: String,
    pub port: u16,
}

impl Default for ArgsParser {
    /// The loopback address on the usual port, 6379.
    fn default() -> (r: Self)
        ensures
            r.ip@ == "127.0.0.1"@,
            r.port == 6379,
    {
        ArgsParser { ip: "127.0.0.1".to_owned(), port: 6379 }
    }
}

} // verus!
