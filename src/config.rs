use vstd::prelude::*;

verus! {

/// Client settings.
#[derive(Debug)]
pub struct Config {
    pub peer_id_prefix: String,
    pub listen_port: u16,
    pub max_connections: usize,
    /// Seconds.
    pub piece_timeout: u64,
    /// Seconds.
    pub request_timeout: u64,
    pub max_retries: u32,
    pub download_directory: String,
}

impl Default for Config {
    fn default() -> (r: Config)
        ensures
            r.peer_id_prefix@ == "-RB0001-"@,
            r.listen_port == 6881,
            r.max_connections == 50,
            r.piece_timeout == 30,
            r.request_timeout == 10,
            r.max_retries == 3,
            r.download_directory@ == "."@,
    {
        Config {
            peer_id_prefix: "-RB0001-".to_owned(),
            listen_port: 6881,
            max_connections: 50,
            piece_timeout: 30,
            request_timeout: 10,
            max_retries: 3,
            download_directory: ".".to_owned(),
        }
    }
}

} // verus!
