//! Settings of the engine: which network it follows, where its data lives,
//! which addresses it talks to, and how large its batches, worker pool and
//! cache are. Defaults depend on the network.

use vstd::prelude::*;
use vstd::string::{StrSliceExecFns, StringExecFns};
use vstd::utf8::encode_utf8;
use crate::daemon::CookieSource;

verus! {

/// The networks the engine can follow.
#[derive(Clone, Copy, Debug, PartialEq, Eq, Structural)]
pub enum Network {
    Bitcoin,
    Testnet,
    Regtest,
}

/// An address to listen on or connect to.
#[derive(Clone, Debug, PartialEq, Eq)]
pub enum Address {
    /// Text of the form `addr:port`, as the operator gave it.
    Given(String),
    /// The given port on the local host, `127.0.0.1`.
    Local(u16),
}

/// Why a configuration could not be built.
#[derive(Clone, Debug, PartialEq, Eq)]
pub enum ConfigError {
    /// The network name is none of `mainnet`, `testnet`, `regtest`.
    UnsupportedNetwork(String),
    /// No daemon directory was given and no home directory is known.
    NoHomeDir,
}

/// What the operator asked for, before defaults are filled in.
#[derive(Clone, Debug, PartialEq, Eq)]
pub struct Options {
    pub verbosity: usize,
    pub timestamp: bool,
    pub db_dir: Option<String>,
    pub daemon_dir: Option<String>,
    pub cookie: Option<String>,
    pub network: Option<String>,
    pub electrum_rpc_addr: Option<String>,
    pub http_addr: Option<String>,
    pub daemon_rpc_addr: Option<String>,
    pub monitoring_addr: Option<String>,
    pub jsonrpc_import: bool,
    pub index_batch_size: usize,
    pub bulk_index_threads: usize,
    pub tx_cache_size: usize,
    pub light: bool,
    pub disable_prevout: bool,
}

/// The settings the engine runs with. Paths are kept as their components,
/// outermost first.
#[derive(Clone, Debug, PartialEq, Eq)]
pub struct Config {
    pub verbosity: usize,
    pub timestamp: bool,
    pub network_type: Network,
    pub db_path: Vec<String>,
    pub daemon_dir: Vec<String>,
    pub daemon_rpc_addr: Address,
    pub cookie: Option<String>,
    pub electrum_rpc_addr: Address,
    pub http_addr: Address,
    pub monitoring_addr: Address,
    pub jsonrpc_import: bool,
    pub index_batch_size: usize,
    pub bulk_index_threads: usize,
    pub tx_cache_size: usize,
    pub extended_db_enabled: bool,
    pub prevout_enabled: bool,
}

/// The network that a name selects, if any.
pub open spec fn network_named(name: Seq<char>) -> Option<Network> {
    if name == "mainnet"@ {
        Some(Network::Bitcoin)
    } else if name == "testnet"@ {
        Some(Network::Testnet)
    } else if name == "regtest"@ {
        Some(Network::Regtest)
    } else {
        None
    }
}

/// The name that selects a network.
pub open spec fn network_name(network: Network) -> Seq<char> {
    match network {
        Network::Bitcoin => "mainnet"@,
        Network::Testnet => "testnet"@,
        Network::Regtest => "regtest"@,
    }
}

/// The name in force: the one given, else `mainnet`.
pub open spec fn chosen_network_name(given: Option<String>) -> Seq<char> {
    match given {
        Some(name) => name@,
        None => "mainnet"@,
    }
}

pub open spec fn default_daemon_port(network: Network) -> u16 {
    match network {
        Network::Bitcoin => 5222,
        Network::Testnet => 25222,
        Network::Regtest => 25222,
    }
}

pub open spec fn default_electrum_port(network: Network) -> u16 {
    match network {
        Network::Bitcoin => 50001,
        Network::Testnet => 60001,
        Network::Regtest => 60401,
    }
}

pub open spec fn default_http_port(network: Network) -> u16 {
    match network {
        Network::Bitcoin => 3000,
        Network::Testnet => 3001,
        Network::Regtest => 3002,
    }
}

pub open spec fn default_monitoring_port(network: Network) -> u16 {
    match network {
        Network::Bitcoin => 4224,
        Network::Testnet => 14224,
        Network::Regtest => 24224,
    }
}

/// The address in force: the one given, else the default port on the local host.
pub open spec fn address_matches(addr: Address, given: Option<String>, port: u16) -> bool {
    match given {
        Some(text) => addr matches Address::Given(t) && t@ == text@,
        None => addr == Address::Local(port),
    }
}

/// The components of the index directory: the one given, else `./db`, then
/// the network's name.
pub open spec fn db_path_matches(
    path: Seq<String>,
    given: Option<String>,
    network: Network,
) -> bool {
    &&& path.len() == 2
    &&& path[0]@ == match given {
        Some(dir) => dir@,
        None => "./db"@,
    }
    &&& path[1]@ == network_name(network)
}

/// The number of components the network adds below the daemon's directory.
pub open spec fn network_subdirs(network: Network) -> Seq<Seq<char>> {
    match network {
        Network::Bitcoin => seq![],
        Network::Testnet => seq!["testnet3"@],
        Network::Regtest => seq!["regtest"@],
    }
}

/// The components of the daemon's data directory: the one given, else
/// `.viacoin` under the home directory; then the network's own subdirectory.
pub open spec fn daemon_dir_components(
    given: Option<String>,
    home: Option<String>,
    network: Network,
) -> Option<Seq<Seq<char>>> {
    match given {
        Some(dir) => Some(seq![dir@] + network_subdirs(network)),
        None => match home {
            Some(h) => Some(seq![h@, ".viacoin"@] + network_subdirs(network)),
            None => None,
        },
    }
}

/// The views of a path's components.
pub open spec fn components(path: Seq<String>) -> Seq<Seq<char>> {
    Seq::new(path.len(), |i: int| path[i]@)
}

/// The size of the worker pool: the one asked for, or the number of
/// processors where none was.
pub open spec fn pool_size(requested: usize, cpus: usize) -> usize {
    if requested == 0 {
        cpus
    } else {
        requested
    }
}

/// Whether a configuration is the one that the options, the home directory
/// and the number of processors determine.
pub open spec fn config_matches(c: Config, o: Options, home: Option<String>, cpus: usize) -> bool {
    &&& network_named(chosen_network_name(o.network)) == Some(c.network_type)
    &&& c.verbosity == o.verbosity
    &&& c.timestamp == o.timestamp
    &&& db_path_matches(c.db_path@, o.db_dir, c.network_type)
    &&& daemon_dir_components(o.daemon_dir, home, c.network_type) == Some(components(c.daemon_dir@))
    &&& address_matches(c.daemon_rpc_addr, o.daemon_rpc_addr, default_daemon_port(c.network_type))
    &&& address_matches(
        c.electrum_rpc_addr,
        o.electrum_rpc_addr,
        default_electrum_port(c.network_type),
    )
    &&& address_matches(c.http_addr, o.http_addr, default_http_port(c.network_type))
    &&& address_matches(
        c.monitoring_addr,
        o.monitoring_addr,
        default_monitoring_port(c.network_type),
    )
    &&& match o.cookie {
        Some(text) => c.cookie matches Some(t) && t@ == text@,
        None => c.cookie is None,
    }
    &&& c.jsonrpc_import == o.jsonrpc_import
    &&& c.index_batch_size == o.index_batch_size
    &&& c.bulk_index_threads == pool_size(o.bulk_index_threads, cpus)
    &&& c.tx_cache_size == o.tx_cache_size
    &&& c.extended_db_enabled == !o.light
    &&& c.prevout_enabled == !o.disable_prevout
}

/// The error, if any, that the options and the home directory lead to.
pub open spec fn config_error(o: Options, home: Option<String>) -> Option<ConfigError> {
    if network_named(chosen_network_name(o.network)) is None {
        Some(ConfigError::UnsupportedNetwork(o.network->0))
    } else if o.daemon_dir is None && home is None {
        Some(ConfigError::NoHomeDir)
    } else {
        None
    }
}

/// The three network names differ from each other.
pub proof fn lemma_network_names_distinct()
    ensures
        "mainnet"@ != "testnet"@,
        "mainnet"@ != "regtest"@,
        "testnet"@ != "regtest"@,
        forall|n: Network| network_named(network_name(n)) == Some(n),
{
    reveal_strlit("mainnet");
    reveal_strlit("testnet");
    reveal_strlit("regtest");
    assert("mainnet"@[0] != "testnet"@[0]);
    assert("mainnet"@[0] != "regtest"@[0]);
    assert("testnet"@[0] != "regtest"@[0]);
}

impl Network {
    /// The network that `name` selects: `mainnet`, `testnet` or `regtest`.
    pub fn from_name(name: &String) -> (r: Option<Network>)
        ensures
            r == network_named(name@),
    {
        if *name == String::from_str("mainnet") {
            Some(Network::Bitcoin)
        } else if *name == String::from_str("testnet") {
            Some(Network::Testnet)
        } else if *name == String::from_str("regtest") {
            Some(Network::Regtest)
        } else {
            None
        }
    }

    /// The name that selects this network.
    pub fn name(&self) -> (r: String)
        ensures
            r@ == network_name(*self),
    {
        match self {
            Network::Bitcoin => String::from_str("mainnet"),
            Network::Testnet => String::from_str("testnet"),
            Network::Regtest => String::from_str("regtest"),
        }
    }

    /// The port on which the daemon serves its RPC by default.
    pub fn daemon_port(&self) -> (p: u16)
        ensures
            p == default_daemon_port(*self),
    {
        match self {
            Network::Bitcoin => 5222,
            Network::Testnet => 25222,
            Network::Regtest => 25222,
        }
    }

    /// The port on which the wallet protocol is served by default.
    pub fn electrum_port(&self) -> (p: u16)
        ensures
            p == default_electrum_port(*self),
    {
        match self {
            Network::Bitcoin => 50001,
            Network::Testnet => 60001,
            Network::Regtest => 60401,
        }
    }

    /// The port on which the HTTP interface is served by default.
    pub fn http_port(&self) -> (p: u16)
        ensures
            p == default_http_port(*self),
    {
        match self {
            Network::Bitcoin => 3000,
            Network::Testnet => 3001,
            Network::Regtest => 3002,
        }
    }

    /// The port on which counters are exported by default.
    pub fn monitoring_port(&self) -> (p: u16)
        ensures
            p == default_monitoring_port(*self),
    {
        match self {
            Network::Bitcoin => 4224,
            Network::Testnet => 14224,
            Network::Regtest => 24224,
        }
    }
}

/// The address given, or the default port on the local host.
fn address_or_local(given: Option<String>, port: u16) -> (a: Address)
    ensures
        address_matches(a, given, port),
{
    match given {
        Some(text) => Address::Given(text),
        None => Address::Local(port),
    }
}

/// The number of processors that `num_cpus::get` reports for this process.
/// Nothing is claimed of the number: it depends on the machine, on the
/// scheduler's affinity mask and on container limits.
#[verifier::external_body]
fn available_cpus() -> (n: usize) {
    num_cpus::get()
}

impl Config {
    /// Builds the configuration from the operator's options, the home
    /// directory (if one is known) and the number of processors.
    ///
    /// Fails when the network's name is not known, or when neither a daemon
    /// directory nor a home directory is there to find the daemon's data in.
    pub fn build(o: Options, home: Option<String>, cpus: usize) -> (r: Result<Config, ConfigError>)
        ensures
            match r {
                Ok(c) => config_error(o, home) is None && config_matches(c, o, home, cpus),
                Err(ConfigError::UnsupportedNetwork(name)) => {
                    &&& network_named(chosen_network_name(o.network)) is None
                    &&& name@ == chosen_network_name(o.network)
                },
                Err(ConfigError::NoHomeDir) => config_error(o, home) == Some(ConfigError::NoHomeDir),
            },
    {
        let network_name = match o.network {
            Some(name) => name,
            None => String::from_str("mainnet"),
        };
        let network_type = match Network::from_name(&network_name) {
            Some(n) => n,
            None => {
                return Err(ConfigError::UnsupportedNetwork(network_name));
            },
        };
        proof {
            lemma_network_names_distinct();
        }
        let mut db_path: Vec<String> = Vec::new();
        db_path.push(
            match o.db_dir {
                Some(dir) => dir,
                None => String::from_str("./db"),
            },
        );
        db_path.push(network_type.name());

        let mut daemon_dir: Vec<String> = Vec::new();
        match o.daemon_dir {
            Some(dir) => {
                daemon_dir.push(dir);
            },
            None => match home {
                Some(h) => {
                    daemon_dir.push(h);
                    daemon_dir.push(String::from_str(".viacoin"));
                },
                None => {
                    return Err(ConfigError::NoHomeDir);
                },
            },
        }
        match network_type {
            Network::Bitcoin => {},
            Network::Testnet => {
                daemon_dir.push(String::from_str("testnet3"));
            },
            Network::Regtest => {
                daemon_dir.push(String::from_str("regtest"));
            },
        }
        assert(daemon_dir_components(o.daemon_dir, home, network_type) == Some(
            components(daemon_dir@),
        )) by {
            assert(daemon_dir_components(o.daemon_dir, home, network_type)->0 =~= components(
                daemon_dir@,
            ));
        }
        let bulk_index_threads = if o.bulk_index_threads == 0 {
            cpus
        } else {
            o.bulk_index_threads
        };
        Ok(
            Config {
                verbosity: o.verbosity,
                timestamp: o.timestamp,
                network_type,
                db_path,
                daemon_dir,
                daemon_rpc_addr: address_or_local(o.daemon_rpc_addr, network_type.daemon_port()),
                cookie: o.cookie,
                electrum_rpc_addr: address_or_local(
                    o.electrum_rpc_addr,
                    network_type.electrum_port(),
                ),
                http_addr: address_or_local(o.http_addr, network_type.http_port()),
                monitoring_addr: address_or_local(
                    o.monitoring_addr,
                    network_type.monitoring_port(),
                ),
                jsonrpc_import: o.jsonrpc_import,
                index_batch_size: o.index_batch_size,
                bulk_index_threads,
                tx_cache_size: o.tx_cache_size,
                extended_db_enabled: !o.light,
                prevout_enabled: !o.disable_prevout,
            },
        )
    }

    /// Builds the configuration from the arguments that were read, as
    /// [`Config::build`] does, asking the machine for its number of
    /// processors. Where the arguments name a pool size, the result is the
    /// one that `build` gives for any number of processors.
    pub fn from_args(o: Options, home: Option<String>) -> (r: Result<Config, ConfigError>)
        ensures
            match r {
                Ok(c) => config_error(o, home) is None && exists|cpus: usize|
                    config_matches(c, o, home, cpus),
                Err(ConfigError::UnsupportedNetwork(name)) => {
                    &&& network_named(chosen_network_name(o.network)) is None
                    &&& name@ == chosen_network_name(o.network)
                },
                Err(ConfigError::NoHomeDir) => config_error(o, home) == Some(ConfigError::NoHomeDir),
            },
            r matches Ok(c) ==> (o.bulk_index_threads != 0 ==> config_matches(c, o, home, 0)),
    {
        let cpus = available_cpus();
        Config::build(o, home, cpus)
    }

    /// Where the daemon's credential comes from: the fixed cookie where one
    /// was configured, else the cookie file in the daemon's directory.
    pub fn cookie_getter(&self) -> (r: CookieSource)
        ensures
            match self.cookie {
                Some(text) => r matches CookieSource::Static(value) && value@ == encode_utf8(text@),
                None => r matches CookieSource::File(dir) && components(dir@) == components(
                    self.daemon_dir@,
                ),
            },
    {
        match &self.cookie {
            Some(text) => CookieSource::Static(text.as_str().as_bytes_vec()),
            None => {
                let mut dir: Vec<String> = Vec::new();
                let mut i: usize = 0;
                while i < self.daemon_dir.len()
                    invariant
                        i <= self.daemon_dir.len(),
                        dir@.len() == i,
                        forall|j: int| 0 <= j < i ==> dir@[j]@ == self.daemon_dir@[j]@,
                    decreases self.daemon_dir.len() - i,
                {
                    dir.push(self.daemon_dir[i].clone());
                    i += 1;
                }
                assert(components(dir@) =~= components(self.daemon_dir@));
                CookieSource::File(dir)
            },
        }
    }
}

} // verus!
