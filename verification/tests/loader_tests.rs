use farmcfg::capacity::ParseError;
use farmcfg::codec::{deserialize, load_config, serialize};
use farmcfg::config::{Config, ConfigError, DiskFarmInner};

fn farm(directory: &str, allocated: Option<&str>) -> DiskFarmInner {
    DiskFarmInner {
        directory: directory.to_string(),
        allocated_plotting_space: allocated.map(|s| s.to_string()),
    }
}

#[test]
fn duplicate_servers_rejected() {
    let doc = "plot_servers = [\"a:1\", \"b:2\", \"a:1\"]\n";
    assert_eq!(load_config(doc).unwrap_err(), ConfigError::DuplicateServer);
}

#[test]
fn distinct_servers_accepted() {
    let doc = "plot_servers = [\"a:1\", \"b:2\", \"c:3\"]\n";
    let cfg = load_config(doc).unwrap();
    assert_eq!(cfg.plot_servers, vec!["a:1", "b:2", "c:3"]);
    assert!(cfg.disk_farms.is_empty());
}

#[test]
fn duplicate_directories_rejected() {
    let doc = "plot_servers = []\n\n[[disk_farms]]\ndirectory = \"/tmp/plot\"\n\n[[disk_farms]]\ndirectory = \"/tmp/plot\"\n";
    assert_eq!(
        load_config(doc).unwrap_err(),
        ConfigError::DuplicateStorageDirectory
    );
}

#[test]
fn distinct_directories_accepted_without_capacity() {
    let doc = "plot_servers = []\n\n[[disk_farms]]\ndirectory = \"/tmp/plot\"\n\n[[disk_farms]]\ndirectory = \"/tmp/plot1\"\n";
    let cfg = load_config(doc).unwrap();
    assert_eq!(cfg.disk_farms.len(), 2);
    assert_eq!(cfg.disk_farms[0].directory, "/tmp/plot");
    assert_eq!(cfg.disk_farms[0].allocated_plotting_space, None);
    assert_eq!(cfg.disk_farms[1].directory, "/tmp/plot1");
    assert_eq!(cfg.disk_farms[1].allocated_plotting_space, None);
}

#[test]
fn server_check_runs_before_directory_check() {
    // both violations present: the duplicate server is the one reported
    let doc = "plot_servers = [\"a:1\", \"a:1\"]\n\n[[disk_farms]]\ndirectory = \"/tmp/plot\"\n\n[[disk_farms]]\ndirectory = \"/tmp/plot\"\n";
    assert_eq!(load_config(doc).unwrap_err(), ConfigError::DuplicateServer);
}

#[test]
fn optional_capacity_resolves_to_none_or_exact_bytes() {
    let cfg = Config {
        disk_farms: vec![farm("/tmp/plot", Some("1500G")), farm("/tmp/plot1", None)],
        plot_servers: vec![],
    };
    let resolved = cfg.get_disk_farms().unwrap();
    assert_eq!(resolved.len(), 2);
    assert_eq!(resolved[0].allocated_plotting_space, Some(1_500_000_000_000));
    assert_eq!(resolved[1].allocated_plotting_space, None);
}

#[test]
fn end_to_end_scenario() {
    let doc = "plot_servers = [\"localhost:12345\"]\n\n[[disk_farms]]\ndirectory = \"/tmp/plot\"\nallocated_plotting_space = \"1500G\"\n\n[[disk_farms]]\ndirectory = \"/tmp/plot1\"\n";
    let cfg = load_config(doc).unwrap();
    assert_eq!(cfg.plot_servers, vec!["localhost:12345"]);
    let resolved = cfg.get_disk_farms().unwrap();
    assert_eq!(resolved.len(), 2);
    assert_eq!(resolved[0].directory, "/tmp/plot");
    assert_eq!(resolved[0].allocated_plotting_space, Some(1_500_000_000_000));
    assert_eq!(resolved[1].directory, "/tmp/plot1");
    assert_eq!(resolved[1].allocated_plotting_space, None);
}

#[test]
fn resolution_reports_first_failing_entry() {
    let cfg = Config {
        disk_farms: vec![
            farm("/a", Some("10G")),
            farm("/b", Some("nonsense")),
            farm("/c", Some("999999999999999999999G")),
        ],
        plot_servers: vec![],
    };
    assert_eq!(cfg.get_disk_farms().unwrap_err(), ParseError::Malformed);
}

#[test]
fn resolution_reports_overflow() {
    let cfg = Config {
        disk_farms: vec![farm("/a", Some("999999999999999999999G"))],
        plot_servers: vec![],
    };
    assert_eq!(cfg.get_disk_farms().unwrap_err(), ParseError::Overflow);
}

#[test]
fn serialize_load_round_trip() {
    let cfg = Config {
        disk_farms: vec![farm("/tmp/plot", Some("1500G")), farm("/tmp/plot1", None)],
        plot_servers: vec!["localhost:12345".to_string(), "other:9".to_string()],
    };
    let text = serialize(&cfg).unwrap();
    let back = load_config(&text).unwrap();
    assert_eq!(back.plot_servers, cfg.plot_servers);
    assert_eq!(back.disk_farms.len(), cfg.disk_farms.len());
    for (a, b) in back.disk_farms.iter().zip(cfg.disk_farms.iter()) {
        assert_eq!(a.directory, b.directory);
        assert_eq!(a.allocated_plotting_space, b.allocated_plotting_space);
    }
}

#[test]
fn serialize_emits_canonical_document() {
    let cfg = Config {
        disk_farms: vec![farm("/tmp/plot", Some("1500G")), farm("/tmp/plot1", None)],
        plot_servers: vec!["localhost:12345".to_string()],
    };
    let text = serialize(&cfg).unwrap();
    assert_eq!(
        text,
        "plot_servers = [\"localhost:12345\"]\n\n[[disk_farms]]\ndirectory = \"/tmp/plot\"\nallocated_plotting_space = \"1500G\"\n\n[[disk_farms]]\ndirectory = \"/tmp/plot1\"\n"
    );
}

#[test]
fn serialize_empty_configuration() {
    let cfg = Config {
        disk_farms: vec![],
        plot_servers: vec![],
    };
    let text = serialize(&cfg).unwrap();
    assert_eq!(text, "plot_servers = []\n");
    let back = load_config(&text).unwrap();
    assert!(back.plot_servers.is_empty());
    assert!(back.disk_farms.is_empty());
}

#[test]
fn serialize_refuses_unrepresentable_strings() {
    let cfg = Config {
        disk_farms: vec![farm("/tmp/has\"quote", None)],
        plot_servers: vec![],
    };
    assert_eq!(serialize(&cfg), None);
    let cfg2 = Config {
        disk_farms: vec![],
        plot_servers: vec!["line\nbreak:1".to_string()],
    };
    assert_eq!(serialize(&cfg2), None);
}

#[test]
fn syntax_errors_rejected() {
    for doc in [
        "",
        "plot_servers = [\"a:1\"",
        "plot_servers = [\"a:1\"]",
        "nonsense",
        "plot_servers = []\n[[disk_farms]]\ndirectory = \"/tmp/plot\"\n",
        "plot_servers = []\n\n[[disk_farms]]\ndirectory = /tmp/plot\n",
        "plot_servers = []\n\n[[disk_farms]]\nallocated_plotting_space = \"1G\"\n",
        "plot_servers = []\nx",
        "plot_servers = [\"a:1\"]\r\n",
        "plot_servers = [\"a:1\",\"b:2\"]\n",
    ] {
        assert_eq!(load_config(doc).unwrap_err(), ConfigError::Syntax);
    }
}

#[test]
fn deserialize_does_not_validate_uniqueness() {
    // deserialization is purely structural; the loader adds the checks
    let doc = "plot_servers = [\"a:1\", \"a:1\"]\n";
    let cfg = deserialize(doc).unwrap();
    assert_eq!(cfg.plot_servers, vec!["a:1", "a:1"]);
    assert_eq!(load_config(doc).unwrap_err(), ConfigError::DuplicateServer);
}

#[test]
fn has_dup_detects_any_equal_pair() {
    let empty: Vec<String> = vec![];
    assert!(!farmcfg::config::has_dup(&empty));
    let distinct = vec!["a".to_string(), "b".to_string(), "c".to_string()];
    assert!(!farmcfg::config::has_dup(&distinct));
    let dup_ends = vec!["x".to_string(), "y".to_string(), "x".to_string()];
    assert!(farmcfg::config::has_dup(&dup_ends));
}
