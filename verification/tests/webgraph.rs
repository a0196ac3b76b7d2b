use stract::webgraph_entry::{
    HttpConfig, JobConfig, LocalConfig, Mode, S3Config, WarcSource, WebgraphConfig, WebgraphEntrypoint,
    WebgraphLocalConfig, WebgraphMasterConfig,
};

fn local_source() -> WarcSource {
    WarcSource::Local(LocalConfig { folder: "data".to_string(), names: vec!["a.warc".to_string()] })
}

fn paths(n: usize) -> Vec<String> {
    (0..n).map(|i| format!("crawl/{}.warc.gz", i)).collect()
}

#[test]
fn run_picks_mode_of_config() {
    let entry = WebgraphEntrypoint::new(WebgraphConfig::Worker, Some("0.0.0.0:3000".to_string()));
    assert!(matches!(entry.run(), Mode::Worker(addr) if addr == "0.0.0.0:3000"));

    let entry = WebgraphEntrypoint::new(
        WebgraphConfig::Local(WebgraphLocalConfig { warc_source: local_source() }),
        None,
    );
    assert!(matches!(entry.run(), Mode::Local(_)));

    let entry = WebgraphEntrypoint::new(
        WebgraphConfig::Master(WebgraphMasterConfig {
            warc_source: local_source(),
            workers: vec!["0.0.0.0:3000".to_string()],
            graph_base_path: None,
            limit_warc_files: Some(2),
        }),
        Some("ignored".to_string()),
    );
    assert!(matches!(entry.run(), Mode::Master(config) if config.limit_warc_files == Some(2)));
}

#[test]
fn master_jobs_follow_limit_and_base_path() {
    let mut config = WebgraphMasterConfig {
        warc_source: WarcSource::HTTP(HttpConfig {
            base_url: "https://data.example".to_string(),
            warc_paths_file: "warc.paths".to_string(),
        }),
        workers: Vec::new(),
        graph_base_path: Some("graphs".to_string()),
        limit_warc_files: Some(2),
    };
    let jobs = WebgraphEntrypoint::run_master(&config, &paths(3));
    assert_eq!(jobs.len(), 2);
    assert_eq!(jobs[1].warc_path, "crawl/1.warc.gz");
    assert_eq!(jobs[1].graph_base_path, "graphs");
    assert!(matches!(&jobs[0].config, JobConfig::Http(c) if c.base_url == "https://data.example"
        && c.warc_paths_file == "warc.paths"));

    config.limit_warc_files = Some(7);
    config.graph_base_path = None;
    let jobs = WebgraphEntrypoint::run_master(&config, &paths(3));
    assert_eq!(jobs.len(), 3);
    assert_eq!(jobs[2].graph_base_path, "webgraph");

    config.limit_warc_files = None;
    assert_eq!(WebgraphEntrypoint::run_master(&config, &paths(4)).len(), 4);
    config.limit_warc_files = Some(0);
    assert_eq!(WebgraphEntrypoint::run_master(&config, &paths(4)).len(), 0);
}

#[test]
fn local_jobs_cover_all_paths() {
    let config = WebgraphLocalConfig { warc_source: local_source() };
    let jobs = WebgraphEntrypoint::run_locally(&config, &paths(2));
    assert_eq!(jobs.len(), 2);
    assert_eq!(jobs[0].warc_path, "crawl/0.warc.gz");
    assert_eq!(jobs[0].graph_base_path, "webgraph");
    assert!(matches!(&jobs[1].config, JobConfig::Local(c) if c.folder == "data"
        && c.names == vec!["a.warc".to_string()]));
    let unsupported = WarcSource::S3(S3Config { bucket: "b".to_string(), folder: "f".to_string() });
    assert!(matches!(unsupported, WarcSource::S3(_)));
}
