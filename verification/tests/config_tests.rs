use chain_index::config::{Address, Config, ConfigError, Network, Options};
use chain_index::daemon::CookieSource;

fn plain_options() -> Options {
    Options {
        verbosity: 0,
        timestamp: false,
        db_dir: None,
        daemon_dir: None,
        cookie: None,
        network: None,
        electrum_rpc_addr: None,
        http_addr: None,
        daemon_rpc_addr: None,
        monitoring_addr: None,
        jsonrpc_import: false,
        index_batch_size: 100,
        bulk_index_threads: 0,
        tx_cache_size: 10000,
        light: false,
        disable_prevout: false,
    }
}

fn text(s: &str) -> String {
    String::from(s)
}

#[test]
fn mainnet_is_the_default_network() {
    let config = Config::build(plain_options(), Some(text("/home/op")), 8).unwrap();
    assert_eq!(config.network_type, Network::Bitcoin);
    assert_eq!(config.db_path, vec![text("./db"), text("mainnet")]);
    assert_eq!(config.daemon_dir, vec![text("/home/op"), text(".viacoin")]);
    assert_eq!(config.daemon_rpc_addr, Address::Local(5222));
    assert_eq!(config.electrum_rpc_addr, Address::Local(50001));
    assert_eq!(config.http_addr, Address::Local(3000));
    assert_eq!(config.monitoring_addr, Address::Local(4224));
    assert_eq!(config.cookie, None);
    assert_eq!(config.index_batch_size, 100);
    assert_eq!(config.bulk_index_threads, 8);
    assert_eq!(config.tx_cache_size, 10000);
    assert!(config.extended_db_enabled);
    assert!(config.prevout_enabled);
    assert!(!config.jsonrpc_import);
}

#[test]
fn testnet_has_its_own_ports_and_subdirectory() {
    let mut options = plain_options();
    options.network = Some(text("testnet"));
    let config = Config::build(options, Some(text("/home/op")), 2).unwrap();
    assert_eq!(config.network_type, Network::Testnet);
    assert_eq!(config.db_path, vec![text("./db"), text("testnet")]);
    assert_eq!(config.daemon_dir, vec![text("/home/op"), text(".viacoin"), text("testnet3")]);
    assert_eq!(config.daemon_rpc_addr, Address::Local(25222));
    assert_eq!(config.electrum_rpc_addr, Address::Local(60001));
    assert_eq!(config.http_addr, Address::Local(3001));
    assert_eq!(config.monitoring_addr, Address::Local(14224));
}

#[test]
fn regtest_has_its_own_ports_and_subdirectory() {
    let mut options = plain_options();
    options.network = Some(text("regtest"));
    options.daemon_dir = Some(text("/data/node"));
    options.db_dir = Some(text("/var/index"));
    let config = Config::build(options, None, 2).unwrap();
    assert_eq!(config.network_type, Network::Regtest);
    assert_eq!(config.db_path, vec![text("/var/index"), text("regtest")]);
    assert_eq!(config.daemon_dir, vec![text("/data/node"), text("regtest")]);
    assert_eq!(config.daemon_rpc_addr, Address::Local(25222));
    assert_eq!(config.electrum_rpc_addr, Address::Local(60401));
    assert_eq!(config.http_addr, Address::Local(3002));
    assert_eq!(config.monitoring_addr, Address::Local(24224));
}

#[test]
fn given_addresses_are_kept_as_given() {
    let mut options = plain_options();
    options.daemon_rpc_addr = Some(text("10.0.0.5:8332"));
    options.electrum_rpc_addr = Some(text("0.0.0.0:50001"));
    options.http_addr = Some(text("[::1]:3000"));
    options.monitoring_addr = Some(text("127.0.0.1:9999"));
    let config = Config::build(options, Some(text("/h")), 1).unwrap();
    assert_eq!(config.daemon_rpc_addr, Address::Given(text("10.0.0.5:8332")));
    assert_eq!(config.electrum_rpc_addr, Address::Given(text("0.0.0.0:50001")));
    assert_eq!(config.http_addr, Address::Given(text("[::1]:3000")));
    assert_eq!(config.monitoring_addr, Address::Given(text("127.0.0.1:9999")));
}

#[test]
fn unknown_network_is_refused_with_its_name() {
    let mut options = plain_options();
    options.network = Some(text("signet"));
    let r = Config::build(options, Some(text("/h")), 1);
    assert_eq!(r, Err(ConfigError::UnsupportedNetwork(text("signet"))));
}

#[test]
fn missing_home_directory_is_refused_without_daemon_dir() {
    let r = Config::build(plain_options(), None, 1);
    assert_eq!(r, Err(ConfigError::NoHomeDir));
}

#[test]
fn unknown_network_comes_before_missing_home() {
    let mut options = plain_options();
    options.network = Some(text("Mainnet"));
    let r = Config::build(options, None, 1);
    assert_eq!(r, Err(ConfigError::UnsupportedNetwork(text("Mainnet"))));
}

#[test]
fn pool_size_is_the_one_asked_for() {
    let mut options = plain_options();
    options.bulk_index_threads = 3;
    let config = Config::build(options.clone(), Some(text("/h")), 16).unwrap();
    assert_eq!(config.bulk_index_threads, 3);
    let config = Config::from_args(options, Some(text("/h"))).unwrap();
    assert_eq!(config.bulk_index_threads, 3);
}

#[test]
fn pool_size_defaults_to_the_processors() {
    let config = Config::build(plain_options(), Some(text("/h")), 12).unwrap();
    assert_eq!(config.bulk_index_threads, 12);
    assert!(Config::from_args(plain_options(), Some(text("/h"))).is_ok());
}

#[test]
fn switches_turn_features_off() {
    let mut options = plain_options();
    options.light = true;
    options.disable_prevout = true;
    options.jsonrpc_import = true;
    options.verbosity = 3;
    options.timestamp = true;
    options.index_batch_size = 7;
    options.tx_cache_size = 0;
    let config = Config::build(options, Some(text("/h")), 1).unwrap();
    assert!(!config.extended_db_enabled);
    assert!(!config.prevout_enabled);
    assert!(config.jsonrpc_import);
    assert_eq!(config.verbosity, 3);
    assert!(config.timestamp);
    assert_eq!(config.index_batch_size, 7);
    assert_eq!(config.tx_cache_size, 0);
}

#[test]
fn network_names_and_ports() {
    assert_eq!(Network::from_name(&text("mainnet")), Some(Network::Bitcoin));
    assert_eq!(Network::from_name(&text("testnet")), Some(Network::Testnet));
    assert_eq!(Network::from_name(&text("regtest")), Some(Network::Regtest));
    assert_eq!(Network::from_name(&text("")), None);
    assert_eq!(Network::Bitcoin.name(), "mainnet");
    assert_eq!(Network::Testnet.name(), "testnet");
    assert_eq!(Network::Regtest.name(), "regtest");
    assert_eq!(Network::Bitcoin.daemon_port(), 5222);
    assert_eq!(Network::Regtest.electrum_port(), 60401);
    assert_eq!(Network::Testnet.http_port(), 3001);
    assert_eq!(Network::Regtest.monitoring_port(), 24224);
}

#[test]
fn fixed_cookie_is_used_as_bytes() {
    let mut options = plain_options();
    options.cookie = Some(text("user:secret"));
    let config = Config::build(options, Some(text("/h")), 1).unwrap();
    assert_eq!(config.cookie_getter(), CookieSource::Static(b"user:secret".to_vec()));
}

#[test]
fn cookie_file_lies_in_the_daemon_directory() {
    let mut options = plain_options();
    options.network = Some(text("testnet"));
    let config = Config::build(options, Some(text("/h")), 1).unwrap();
    assert_eq!(
        config.cookie_getter(),
        CookieSource::File(vec![text("/h"), text(".viacoin"), text("testnet3")])
    );
}
