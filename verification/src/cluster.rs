//! Cluster configuration values.
//!
//! Loading them (a named configuration file with environment overrides) is
//! I/O and stays with the surrounding program; this type holds the values
//! the library's callers need once they are read.

use vstd::prelude::*;

verus! {

/// Configuration of one cluster: where its server listens.
pub struct ClusterConfig {
    dflt_server_hostport: String,
}

impl ClusterConfig {
    /// The listen address this configuration names.
    pub closed spec fn spec_hostport(&self) -> Seq<char> {
        self.dflt_server_hostport@
    }

    /// A configuration from values already read.
    pub fn new(dflt_server_hostport: String) -> (r: Self)
        ensures
            r.spec_hostport() == dflt_server_hostport@,
    {
        ClusterConfig { dflt_server_hostport }
    }

    /// The default server host and port.
    pub fn dflt_server_hostport(&self) -> (r: String)
        ensures
            r@ == self.spec_hostport(),
    {
        self.dflt_server_hostport.clone()
    }
}

} // verus!
