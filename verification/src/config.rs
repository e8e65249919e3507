use vstd::prelude::*;

verus! {

/// The settings of the relay.
pub struct Config {
    /// Where clients send their queries.
    pub listen_addr: String,
    /// The local address from which queries go upstream.
    pub lookup_addr: String,
    /// The upstream server.
    pub upstream: String,
    /// The file of the route table.
    pub route_file: String,
    /// The size of the buffers that datagrams are read into.
    pub udp_msg_max_size: usize,
}

/// The value given, or the default when none is.
pub open spec fn value_or(value: Option<String>, default: Seq<char>) -> Seq<char> {
    match value {
        Some(s) => s@,
        None => default,
    }
}

/// The string given, or the default when none is.
fn or_default(value: Option<String>, default: &str) -> (s: String)
    ensures
        s@ == value_or(value, default@),
{
    match value {
        Some(s) => s,
        None => default.to_owned(),
    }
}

impl Config {
    /// The settings from the values of `DNSL_LISTEN`, `DNSL_LOOKUP`,
    /// `DNSL_UPSTREAM` and `DNSL_ROUTE`, each replaced by its default when it
    /// is not set: `127.0.0.1:53`, `0.0.0.0:10053`, `8.8.8.8:53` and `route`.
    /// Datagrams are read into buffers of 512 bytes.
    pub fn from_vars(
        listen: Option<String>,
        lookup: Option<String>,
        upstream: Option<String>,
        route: Option<String>,
    ) -> (config: Self)
        ensures
            config.listen_addr@ == value_or(listen, "127.0.0.1:53"@),
            config.lookup_addr@ == value_or(lookup, "0.0.0.0:10053"@),
            config.upstream@ == value_or(upstream, "8.8.8.8:53"@),
            config.route_file@ == value_or(route, "route"@),
            config.udp_msg_max_size == 512,
    {
        Config {
            listen_addr: or_default(listen, "127.0.0.1:53"),
            lookup_addr: or_default(lookup, "0.0.0.0:10053"),
            upstream: or_default(upstream, "8.8.8.8:53"),
            route_file: or_default(route, "route"),
            udp_msg_max_size: 512,
        }
    }
}

} // verus!
