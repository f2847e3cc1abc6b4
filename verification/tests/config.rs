use high_perf_trading::engine_server::Args;

fn args(journal_path: Option<String>, snapshot_dir: Option<String>) -> Args {
    Args {
        symbol_id: 7,
        symbol_name: "BTC/USD".to_string(),
        listen_addr: "0.0.0.0:9100".to_string(),
        admin_addr: "0.0.0.0:8080".to_string(),
        journal_path,
        snapshot_dir,
        journal_batch_size: 100,
        snapshot_interval: 100_000,
        max_frame: 64 * 1024,
        ingress_cap: 100_000,
    }
}

#[test]
fn default_paths_name_the_symbol() {
    let a = args(None, None);
    assert_eq!(a.get_journal_path(), "journal/engine_7_journal.bin");
    assert_eq!(a.get_snapshot_dir(), "journal/engine_7_snapshots");
}

#[test]
fn given_paths_win() {
    let a = args(Some("j.bin".to_string()), Some("snaps".to_string()));
    assert_eq!(a.get_journal_path(), "j.bin");
    assert_eq!(a.get_snapshot_dir(), "snaps");
}
