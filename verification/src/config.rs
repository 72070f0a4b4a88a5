//! Settings.
use vstd::prelude::*;

use crate::text::{dec, push_dec};

verus! {

#[derive(Debug, Clone)]
pub struct Config {
    pub paths: PathsConfig,
    pub capture: CaptureConfig,
    pub ingest: IngestConfig,
    pub server: ServerConfig,
}

#[derive(Debug, Clone)]
pub struct PathsConfig {
    /// The folder that recordings lie under.
    pub nas_mount: String,
    /// Which files under it are recordings.
    pub ts_glob: String,
    pub cache_dir: String,
    pub db_path: String,
}

#[derive(Debug, Clone)]
pub struct CaptureConfig {
    /// The number of thumbnails of each caption.
    pub thumb_count: u32,
    /// The size of full images.
    pub width: u32,
    pub height: u32,
    /// The quality of full images; lower is better.
    pub jpeg_quality: u32,
    /// The size of thumbnails.
    pub thumb_width: u32,
    pub thumb_height: u32,
    /// The quality of thumbnails; lower is better.
    pub thumb_quality: u32,
}

#[derive(Debug, Clone)]
pub struct IngestConfig {
    /// When to look for recordings; empty for never.
    pub schedule_cron: String,
    pub run_on_startup: bool,
    /// How many recordings to read at a time.
    pub concurrency: u32,
    /// Whether to skip recordings without a caption stream.
    pub require_captions: bool,
    /// Which files to read, as patterns of paths below the mounted folder; empty
    /// for all.
    pub filter_include: Vec<String>,
    /// Which of them not to read, as patterns of whole paths.
    pub filter_exclude: Vec<String>,
}

#[derive(Debug, Clone)]
pub struct ServerConfig {
    pub host: String,
    pub port: u16,
}

/// Paths that the environment sets.
#[derive(Debug, Clone)]
pub struct PathOverrides {
    pub nas_mount: Option<String>,
    pub ts_glob: Option<String>,
    pub db_path: Option<String>,
    pub cache_dir: Option<String>,
}

/// How many recordings to read at a time, where nothing is said.
pub fn default_concurrency() -> (n: u32)
    ensures
        n == 3,
{
    3
}

/// A setting after one that may replace it.
pub open spec fn overridden(setting: Seq<char>, by: Option<String>) -> Seq<char> {
    match by {
        Some(s) => s@,
        None => setting,
    }
}

impl Config {
    /// Puts the paths that the environment sets in place of the others.
    pub fn apply_env(&mut self, env: PathOverrides)
        ensures
            final(self).paths.nas_mount@ == overridden(old(self).paths.nas_mount@, env.nas_mount),
            final(self).paths.ts_glob@ == overridden(old(self).paths.ts_glob@, env.ts_glob),
            final(self).paths.db_path@ == overridden(old(self).paths.db_path@, env.db_path),
            final(self).paths.cache_dir@ == overridden(old(self).paths.cache_dir@, env.cache_dir),
            final(self).capture == old(self).capture,
            final(self).ingest == old(self).ingest,
            final(self).server == old(self).server,
    {
        if let Some(v) = env.nas_mount {
            self.paths.nas_mount = v;
        }
        if let Some(v) = env.ts_glob {
            self.paths.ts_glob = v;
        }
        if let Some(v) = env.db_path {
            self.paths.db_path = v;
        }
        if let Some(v) = env.cache_dir {
            self.paths.cache_dir = v;
        }
    }

    /// Settings to develop with.
    pub fn default_dev() -> (c: Self)
        ensures
            c.paths.nas_mount@ == "."@,
            c.paths.ts_glob@ == "**/*.ts"@,
            c.paths.cache_dir@ == "/tmp/captu_cache"@,
            c.paths.db_path@ == "./data/captions.db"@,
            c.capture == (CaptureConfig {
                thumb_count: 6,
                width: 1920,
                height: 1080,
                jpeg_quality: 2,
                thumb_width: 640,
                thumb_height: 360,
                thumb_quality: 4,
            }),
            c.ingest.schedule_cron@ == "0 * * * * *"@,
            c.ingest.run_on_startup,
            c.ingest.concurrency == 3,
            !c.ingest.require_captions,
            c.ingest.filter_include@.len() == 0,
            c.ingest.filter_exclude@.len() == 0,
            c.server.host@ == "0.0.0.0"@,
            c.server.port == 8000,
    {
        Config {
            paths: PathsConfig {
                nas_mount: ".".to_string(),
                ts_glob: "**/*.ts".to_string(),
                cache_dir: "/tmp/captu_cache".to_string(),
                db_path: "./data/captions.db".to_string(),
            },
            capture: CaptureConfig {
                thumb_count: 6,
                width: 1920,
                height: 1080,
                jpeg_quality: 2,
                thumb_width: 640,
                thumb_height: 360,
                thumb_quality: 4,
            },
            ingest: IngestConfig {
                schedule_cron: "0 * * * * *".to_string(),
                run_on_startup: true,
                concurrency: 3,
                require_captions: false,
                filter_include: Vec::new(),
                filter_exclude: Vec::new(),
            },
            server: ServerConfig { host: "0.0.0.0".to_string(), port: 8000 },
        }
    }
}

impl ServerConfig {
    /// Where to listen.
    pub fn address(&self) -> (s: String)
        ensures
            s@ == self.host@ + ":"@ + dec(self.port as nat),
    {
        let mut s = self.host.clone();
        s.append(":");
        push_dec(&mut s, self.port as u64);
        s
    }
}

/// How the database is opened: it is made where it does not exist.
pub fn db_url(db_path: &str) -> (s: String)
    ensures
        s@ == "sqlite://"@ + db_path@ + "?mode=rwc"@,
{
    let mut s = "sqlite://".to_string();
    s.append(db_path);
    s.append("?mode=rwc");
    s
}

/// How many connections to the database are kept: one for each recording that is
/// read at a time, and five for the pages.
pub fn pool_size(concurrency: u32) -> (n: u32)
    requires
        concurrency <= u32::MAX - 5,
    ensures
        n == concurrency + 5,
{
    concurrency + 5
}

/// What the environment sets counts before a setting; what it does not set leaves it.
pub proof fn the_environment_counts_first(setting: Seq<char>, by: String)
    ensures
        overridden(setting, Some(by)) == by@,
        overridden(setting, None) == setting,
{
}

} // verus!
