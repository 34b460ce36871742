use shrlink::cli::{Cli, Commands};
use shrlink::config::Config;

#[test]
fn test_default_config() {
    let config = Config::default();
    assert_eq!(config.compression.algorithm, "lz4");
    assert_eq!(config.compression.block_size, 4 * 1024 * 1024);
    assert_eq!(config.p2p.timeout_ms, 5000);
}

#[test]
fn test_config_loading() {
    let config = Config::default();

    assert_eq!(config.compression.algorithm, "lz4");
    assert_eq!(config.compression.block_size, 4 * 1024 * 1024);
    assert_eq!(config.p2p.timeout_ms, 5000);
    assert_eq!(config.fallback.endpoint, Some("http://localhost:8080".to_string()));
}

#[test]
fn test_parallel_workers_override() {
    let mut config = Config::default();
    config.compression.parallel_workers = Some(3);
    assert_eq!(config.get_parallel_workers(), 3);

    config.compression.parallel_workers = None;
    assert!(config.get_parallel_workers() >= 1);
}

#[test]
fn test_cli_new() {
    let cli = Cli::new(
        Commands::Send { file: "archive.bin".to_string(), force_fallback: true, timeout: Some(9) },
        Some("custom.toml".to_string()),
        true,
    );
    assert!(cli.verbose);
    assert_eq!(cli.config, Some("custom.toml".to_string()));
    match cli.command {
        Commands::Send { file, force_fallback, timeout } => {
            assert_eq!(file, "archive.bin");
            assert!(force_fallback);
            assert_eq!(timeout, Some(9));
        }
        _ => panic!("wrong command variant"),
    }
}
