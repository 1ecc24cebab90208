//! Ready-made configurations.
use vstd::prelude::*;
use crate::runtime::RuntimeConfig;

verus! {

impl RuntimeConfig {
    /// A mobile configuration compiles on a remote server.
    pub fn is_mobile(&self) -> (r: bool)
        ensures
            r == self.remote,
    {
        self.remote
    }

    /// Compiles locally, with the executable found on the search path.
    pub fn desktop_default() -> (r: RuntimeConfig)
        ensures
            !r.remote,
            r.server_url is None,
            r.auth_token is None,
            r.local_executable is None,
    {
        RuntimeConfig { remote: false, server_url: None, auth_token: None, local_executable: None }
    }

    /// Compiles on the server at `endpoint`.
    pub fn mobile_default(endpoint: String, auth_token: Option<String>) -> (r: RuntimeConfig)
        ensures
            r.remote,
            r.server_url == Some(endpoint),
            r.auth_token == auth_token,
            r.local_executable is None,
    {
        RuntimeConfig { remote: true, server_url: Some(endpoint), auth_token, local_executable: None }
    }
}

} // verus!
