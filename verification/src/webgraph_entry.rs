//! The entry point of webgraph construction: which mode to run, and which
//! jobs a run is made of.

use vstd::prelude::*;

verus! {

/// Where archive files are fetched from over HTTP.
pub struct HttpConfig {
    pub base_url: String,
    pub warc_paths_file: String,
}

/// Where archive files lie on the local disk.
pub struct LocalConfig {
    pub folder: String,
    pub names: Vec<String>,
}

/// Where archive files lie in an object store.
pub struct S3Config {
    pub bucket: String,
    pub folder: String,
}

/// The source of the archive files.
pub enum WarcSource {
    HTTP(HttpConfig),
    Local(LocalConfig),
    S3(S3Config),
}

/// The source of the archive file of one job.
pub enum JobConfig {
    Http(HttpConfig),
    Local(LocalConfig),
}

/// One unit of work: build the graph of one archive file.
pub struct Job {
    pub config: JobConfig,
    pub warc_path: String,
    pub graph_base_path: String,
}

/// The configuration of a master, which hands jobs to workers.
pub struct WebgraphMasterConfig {
    pub warc_source: WarcSource,
    pub workers: Vec<String>,
    pub graph_base_path: Option<String>,
    pub limit_warc_files: Option<usize>,
}

/// The configuration of a run on the local machine.
pub struct WebgraphLocalConfig {
    pub warc_source: WarcSource,
}

/// The configuration of webgraph construction.
pub enum WebgraphConfig {
    Master(WebgraphMasterConfig),
    Worker,
    Local(WebgraphLocalConfig),
}

/// What a run does.
pub enum Mode<'a> {
    /// Hand out the jobs of this configuration to its workers.
    Master(&'a WebgraphMasterConfig),
    /// Serve jobs at this address.
    Worker(String),
    /// Do the jobs of this configuration here, one after the other.
    Local(&'a WebgraphLocalConfig),
}

/// The directory below which graphs are built where none is configured.
pub open spec fn default_graph_base() -> Seq<char> {
    seq!['w', 'e', 'b', 'g', 'r', 'a', 'p', 'h']
}

/// The number of jobs that a run makes of `paths` archive files under a limit.
pub open spec fn job_count(paths: nat, limit: Option<usize>) -> nat {
    match limit {
        Some(limit) => if paths <= limit {
            paths
        } else {
            limit as nat
        },
        None => paths,
    }
}

/// A job is for the given archive file of the given source, with its graph
/// below the given directory.
pub open spec fn job_for(job: Job, source: WarcSource, warc_path: Seq<char>, base: Seq<char>) -> bool {
    &&& job.warc_path@ == warc_path
    &&& job.graph_base_path@ == base
    &&& match source {
        WarcSource::HTTP(config) => job.config matches JobConfig::Http(c) && c.base_url@
            == config.base_url@ && c.warc_paths_file@ == config.warc_paths_file@,
        WarcSource::Local(config) => job.config matches JobConfig::Local(c) && c.folder@
            == config.folder@ && names_equal(c.names@, config.names@),
        WarcSource::S3(_) => false,
    }
}

/// Two lists of names hold the same texts.
pub open spec fn names_equal(a: Seq<String>, b: Seq<String>) -> bool {
    a.len() == b.len() && forall|i: int| 0 <= i < a.len() ==> (#[trigger] a[i])@ == b[i]@
}

/// Copies a list of names.
fn copy_names(names: &Vec<String>) -> (copy: Vec<String>)
    ensures
        names_equal(copy@, names@),
{
    let mut copy: Vec<String> = Vec::new();
    let mut i: usize = 0;
    while i < names.len()
        invariant
            i <= names@.len(),
            copy@.len() == i,
            forall|j: int| 0 <= j < i ==> (#[trigger] copy@[j])@ == names@[j]@,
        decreases names@.len() - i,
    {
        copy.push(names[i].clone());
        i += 1;
    }
    copy
}

/// The job source for an archive source that is supported.
fn job_config(source: &WarcSource) -> (config: JobConfig)
    requires
        !(source is S3),
    ensures
        match *source {
            WarcSource::HTTP(h) => config matches JobConfig::Http(c) && c.base_url@ == h.base_url@
                && c.warc_paths_file@ == h.warc_paths_file@,
            WarcSource::Local(l) => config matches JobConfig::Local(c) && c.folder@ == l.folder@
                && names_equal(c.names@, l.names@),
            WarcSource::S3(_) => false,
        },
{
    match source {
        WarcSource::HTTP(config) => JobConfig::Http(
            HttpConfig {
                base_url: config.base_url.clone(),
                warc_paths_file: config.warc_paths_file.clone(),
            },
        ),
        WarcSource::Local(config) => JobConfig::Local(
            LocalConfig { folder: config.folder.clone(), names: copy_names(&config.names) },
        ),
        WarcSource::S3(_) => JobConfig::Local(LocalConfig { folder: String::new(), names: Vec::new() }),
    }
}

/// The jobs of the first `count` archive files.
fn jobs_of(source: &WarcSource, warc_paths: &Vec<String>, base: &String, count: usize) -> (jobs: Vec<
    Job,
>)
    requires
        !(source is S3),
        count <= warc_paths@.len(),
    ensures
        jobs@.len() == count,
        forall|i: int|
            0 <= i < jobs@.len() ==> job_for(#[trigger] jobs@[i], *source, warc_paths@[i]@, base@),
{
    let mut jobs: Vec<Job> = Vec::new();
    let mut i: usize = 0;
    while i < count
        invariant
            i <= count <= warc_paths@.len(),
            !(source is S3),
            jobs@.len() == i,
            forall|j: int|
                0 <= j < i ==> job_for(#[trigger] jobs@[j], *source, warc_paths@[j]@, base@),
        decreases count - i,
    {
        jobs.push(
            Job {
                config: job_config(source),
                warc_path: warc_paths[i].clone(),
                graph_base_path: base.clone(),
            },
        );
        i += 1;
    }
    jobs
}

/// The entry point of webgraph construction.
pub struct WebgraphEntrypoint {
    config: WebgraphConfig,
    worker_addr: Option<String>,
}

impl WebgraphEntrypoint {
    /// The configuration of the run.
    pub closed spec fn config(&self) -> WebgraphConfig {
        self.config
    }

    /// The address at which a worker serves.
    pub closed spec fn worker_addr(&self) -> Option<String> {
        self.worker_addr
    }

    /// An entry point for a configuration and, for a worker, its address.
    pub fn new(config: WebgraphConfig, worker_addr: Option<String>) -> (entry: Self)
        ensures
            entry.config() == config,
            entry.worker_addr() == worker_addr,
    {
        Self { config, worker_addr }
    }

    /// The jobs that a master hands out: one for each archive file, in order,
    /// up to the configured limit, each with its graph below the configured
    /// directory, or below `webgraph` if none is configured.
    pub fn run_master(config: &WebgraphMasterConfig, warc_paths: &Vec<String>) -> (jobs: Vec<Job>)
        requires
            !(config.warc_source is S3),
        ensures
            jobs@.len() == job_count(warc_paths@.len(), config.limit_warc_files),
            forall|i: int|
                0 <= i < jobs@.len() ==> job_for(
                    #[trigger] jobs@[i],
                    config.warc_source,
                    warc_paths@[i]@,
                    match config.graph_base_path {
                        Some(base) => base@,
                        None => default_graph_base(),
                    },
                ),
    {
        let base = match &config.graph_base_path {
            Some(base) => base.clone(),
            None => {
                proof {
                    reveal_strlit("webgraph");
                    assert("webgraph"@ =~= default_graph_base());
                }
                String::from_str("webgraph")
            },
        };
        let count = match config.limit_warc_files {
            Some(limit) => if warc_paths.len() <= limit {
                warc_paths.len()
            } else {
                limit
            },
            None => warc_paths.len(),
        };
        jobs_of(&config.warc_source, warc_paths, &base, count)
    }

    /// The jobs of a run on the local machine: one for each archive file, in
    /// order, each with its graph below `webgraph`.
    pub fn run_locally(config: &WebgraphLocalConfig, warc_paths: &Vec<String>) -> (jobs: Vec<Job>)
        requires
            !(config.warc_source is S3),
        ensures
            jobs@.len() == warc_paths@.len(),
            forall|i: int|
                0 <= i < jobs@.len() ==> job_for(
                    #[trigger] jobs@[i],
                    config.warc_source,
                    warc_paths@[i]@,
                    default_graph_base(),
                ),
    {
        proof {
            reveal_strlit("webgraph");
            assert("webgraph"@ =~= default_graph_base());
        }
        let base = String::from_str("webgraph");
        jobs_of(&config.warc_source, warc_paths, &base, warc_paths.len())
    }

    /// What this run does: a master hands out jobs, a worker serves at its
    /// address, and a local run does its jobs itself.
    pub fn run(&self) -> (mode: Mode<'_>)
        requires
            self.config() is Worker ==> self.worker_addr() is Some,
        ensures
            match self.config() {
                WebgraphConfig::Master(config) => mode matches Mode::Master(c) && *c == config,
                WebgraphConfig::Worker => mode matches Mode::Worker(addr) && addr@
                    == self.worker_addr()->0@,
                WebgraphConfig::Local(config) => mode matches Mode::Local(c) && *c == config,
            },
    {
        match &self.config {
            WebgraphConfig::Master(config) => Mode::Master(config),
            WebgraphConfig::Worker => match &self.worker_addr {
                Some(addr) => Mode::Worker(addr.clone()),
                None => Mode::Worker(String::new()),
            },
            WebgraphConfig::Local(config) => Mode::Local(config),
        }
    }
}

} // verus!
