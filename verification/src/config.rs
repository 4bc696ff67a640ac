//! What an operator can set, and what holds where nothing is set.

use crate::text;
use vstd::prelude::*;
use vstd::string::*;

verus! {

/// The settings of a registry.
#[derive(Debug, Clone)]
pub struct Config {
    pub listen: String,
    pub data_dir: String,
    /// Allow anonymous pulls. Push always requires a credential when users are configured.
    pub public_pull: bool,
    /// No users configured means open mode: everyone is admin. Meant for local development only.
    pub users: Vec<UserCfg>,
    /// Garbage collection never deletes rows younger than this.
    pub gc_grace_seconds: i64,
    /// Serve the embedded dashboard at `/`.
    pub ui: bool,
    pub sharding: Option<Sharding>,
    /// When set, object storage is the source of truth.
    pub object_storage: Option<ObjectStorageCfg>,
    pub retention: RetentionCfg,
}

/// Where the bucket is.
#[derive(Debug, Clone)]
pub struct ObjectStorageCfg {
    /// Local directory acting as the bucket.
    pub path: Option<String>,
    /// S3-compatible endpoint.
    pub endpoint: Option<String>,
    pub bucket: Option<String>,
    pub region: Option<String>,
    pub access_key: Option<String>,
    pub secret_key: Option<String>,
}

/// One user.
#[derive(Debug, Clone)]
pub struct UserCfg {
    pub username: String,
    /// Either a plaintext password or an argon2 hash.
    pub password: String,
    /// `pull`, `push` or `admin`.
    pub role: String,
}

/// A static list of shards.
#[derive(Debug, Clone)]
pub struct Sharding {
    /// This instance's public base URL; it must be listed in `shards`.
    pub self_url: String,
    pub shards: Vec<String>,
}

/// Which tags a sweep may give up on.
#[derive(Debug, Clone)]
pub struct RetentionCfg {
    /// Sweep on a schedule. Off unless the operator asks for it.
    pub enabled: bool,
    pub interval_seconds: i64,
    /// The newest of the matching tags, this many of them, stay.
    pub keep_newest: usize,
    /// Tags pushed within this many days stay.
    pub keep_days: i64,
    /// Only tags that match are ever candidates.
    pub tag_pattern: String,
    /// `repo:tag` pairs that always stay.
    pub protect: Vec<String>,
    /// Collect garbage after a sweep.
    pub run_gc: bool,
}

/// The address to listen on where none is set.
pub fn default_listen() -> (s: String)
    ensures
        s@ == "0.0.0.0:5100"@,
{
    "0.0.0.0:5100".to_owned()
}

/// The data directory where none is set.
pub fn default_data_dir() -> (s: String)
    ensures
        s@ == "./data"@,
{
    "./data".to_owned()
}

/// The value of a switch that is on where it is not set.
pub fn default_true() -> (b: bool)
    ensures
        b,
{
    true
}

/// The grace window where none is set, in seconds.
pub fn default_grace() -> (n: i64)
    ensures
        n == 3600,
{
    3600
}

/// The role of a user for whom none is set.
pub fn default_role() -> (s: String)
    ensures
        s@ == "push"@,
{
    "push".to_owned()
}

/// The interval between retention sweeps where none is set: a day.
pub fn default_interval() -> (n: i64)
    ensures
        n == 86_400,
{
    86_400
}

/// How many of the newest candidates stay where nothing is set.
pub fn default_keep_newest() -> (n: usize)
    ensures
        n == 10,
{
    10
}

/// For how many days a push protects a tag where nothing is set.
pub fn default_keep_days() -> (n: i64)
    ensures
        n == 2,
{
    2
}

/// The candidate pattern where none is set: a bare commit hash.
pub fn default_tag_pattern() -> (s: String)
    ensures
        s@ == "^[0-9a-f]{40}$"@,
{
    "^[0-9a-f]{40}$".to_owned()
}

impl Default for RetentionCfg {
    fn default() -> (c: RetentionCfg)
        ensures
            !c.enabled,
            c.interval_seconds == 86_400,
            c.keep_newest == 10,
            c.keep_days == 2,
            c.tag_pattern@ == "^[0-9a-f]{40}$"@,
            c.protect@.len() == 0,
            c.run_gc,
    {
        RetentionCfg {
            enabled: false,
            interval_seconds: default_interval(),
            keep_newest: default_keep_newest(),
            keep_days: default_keep_days(),
            tag_pattern: default_tag_pattern(),
            protect: Vec::new(),
            run_gc: default_true(),
        }
    }
}

impl Default for Config {
    fn default() -> (c: Config)
        ensures
            c.listen@ == "0.0.0.0:5100"@,
            c.data_dir@ == "./data"@,
            c.public_pull,
            c.users@.len() == 0,
            c.gc_grace_seconds == 3600,
            c.ui,
            c.sharding is None,
            c.object_storage is None,
            !c.retention.enabled,
            c.retention.interval_seconds == 86_400,
            c.retention.keep_newest == 10,
            c.retention.keep_days == 2,
            c.retention.tag_pattern@ == "^[0-9a-f]{40}$"@,
            c.retention.protect@.len() == 0,
            c.retention.run_gc,
    {
        Config {
            listen: default_listen(),
            data_dir: default_data_dir(),
            public_pull: default_true(),
            users: Vec::new(),
            gc_grace_seconds: default_grace(),
            ui: default_true(),
            sharding: None,
            object_storage: None,
            retention: RetentionCfg::default(),
        }
    }
}

/// The values of the environment variables that override settings, where they are set.
#[derive(Debug, Clone)]
pub struct Overrides {
    /// `BREEZY_LISTEN`.
    pub listen: Option<String>,
    /// `BREEZY_DATA_DIR`.
    pub data_dir: Option<String>,
    /// `BREEZY_PUBLIC_PULL`.
    pub public_pull: Option<String>,
    /// `BREEZY_UI`.
    pub ui: Option<String>,
    /// `BREEZY_SELF_URL`.
    pub self_url: Option<String>,
}

/// A switch is on when it reads `true` or `1`.
pub open spec fn switched_on(v: Seq<char>) -> bool {
    v == "true"@ || v == "1"@
}

/// Whether a switch reads `true` or `1`.
pub fn is_on(v: &str) -> (b: bool)
    ensures
        b == switched_on(v@),
        b <==> v@ == "true"@ || v@ == "1"@,
{
    text::same(v, "true") || text::same(v, "1")
}

/// The value of an override, or else what was set.
pub open spec fn overridden(o: Option<String>, set: String) -> String {
    match o {
        Some(v) => v,
        None => set,
    }
}

/// The state of an overridden switch.
pub open spec fn overridden_switch(o: Option<String>, set: bool) -> bool {
    match o {
        Some(v) => switched_on(v@),
        None => set,
    }
}

/// A URL override names this shard; where there are no shards it has no effect.
pub open spec fn overridden_self(o: Option<String>, set: Option<Sharding>) -> Option<Sharding> {
    match (o, set) {
        (Some(v), Some(sh)) => Some(Sharding { self_url: v, ..sh }),
        (_, s) => s,
    }
}

/// What the bucket is made of.
#[derive(Debug, Clone)]
pub enum Backend {
    /// A local directory.
    Directory(String),
    /// S3-compatible storage.
    S3,
}

impl Config {
    /// The settings with the environment's overrides in place of what they override.
    pub fn apply_env(self, env: Overrides) -> (c: Config)
        ensures
            c == (Config {
                listen: overridden(env.listen, self.listen),
                data_dir: overridden(env.data_dir, self.data_dir),
                public_pull: overridden_switch(env.public_pull, self.public_pull),
                ui: overridden_switch(env.ui, self.ui),
                sharding: overridden_self(env.self_url, self.sharding),
                ..self
            }),
            env.listen matches Some(v) ==> c.listen == v,
            env.listen is None ==> c.listen == self.listen,
            env.data_dir matches Some(v) ==> c.data_dir == v,
            env.data_dir is None ==> c.data_dir == self.data_dir,
            env.public_pull matches Some(v) ==> c.public_pull == (v@ == "true"@ || v@ == "1"@),
            env.public_pull is None ==> c.public_pull == self.public_pull,
            env.ui matches Some(v) ==> c.ui == (v@ == "true"@ || v@ == "1"@),
            env.ui is None ==> c.ui == self.ui,
            c.sharding is Some <==> self.sharding is Some,
            self.sharding matches Some(sh) ==> c.sharding->0.shards == sh.shards
                && c.sharding->0.self_url == (match env.self_url {
                Some(v) => v,
                None => sh.self_url,
            }),
            c.users == self.users,
    {
        let Overrides { listen, data_dir, public_pull, ui, self_url } = env;
        let mut c = self;
        if let Some(v) = listen {
            c.listen = v;
        }
        if let Some(v) = data_dir {
            c.data_dir = v;
        }
        if let Some(v) = public_pull {
            c.public_pull = is_on(v.as_str());
        }
        if let Some(v) = ui {
            c.ui = is_on(v.as_str());
        }
        if let Some(v) = self_url {
            c.sharding = match c.sharding {
                Some(sh) => Some(Sharding { self_url: v, shards: sh.shards }),
                None => None,
            };
        }
        c
    }

    /// Whether this instance is one of its own shards, where there are shards.
    pub open spec fn sharding_ok(self) -> bool {
        self.sharding matches Some(sh) ==> text::views(sh.shards@).contains(sh.self_url@)
    }

    /// Checks that this instance is listed among its shards.
    pub fn check_sharding(&self) -> (r: Result<(), String>)
        ensures
            match r {
                Ok(_) => self.sharding_ok(),
                Err(msg) => !self.sharding_ok() && msg@
                    == "sharding.self_url must be listed in sharding.shards"@,
            },
            r is Ok <==> (self.sharding matches Some(sh) ==> text::views(sh.shards@).contains(
                sh.self_url@,
            )),
    {
        match &self.sharding {
            None => Ok(()),
            Some(sh) => {
                if text::contains(&sh.shards, sh.self_url.as_str()) {
                    Ok(())
                } else {
                    Err("sharding.self_url must be listed in sharding.shards".to_owned())
                }
            },
        }
    }

    /// Whether user `i` has a password in plain text.
    pub open spec fn plaintext(self, i: int) -> bool {
        !("$argon2"@.is_prefix_of(self.users@[i].password@))
    }

    /// The positions of the users who have a password in plain text.
    pub fn plaintext_users(&self) -> (out: Vec<usize>)
        ensures
            forall|i: int, j: int| 0 <= i < j < out@.len() ==> out@[i] < out@[j],
            forall|k: int| 0 <= k < out@.len() ==> #[trigger] out@[k] < self.users@.len()
                && self.plaintext(out@[k] as int),
            forall|i: int|
                0 <= i < self.users@.len() && #[trigger] self.plaintext(i) ==> out@.contains(
                    i as usize,
                ),
            forall|i: int|
                0 <= i < self.users@.len() && !"$argon2"@.is_prefix_of(
                    (#[trigger] self.users@[i]).password@,
                ) ==> out@.contains(i as usize),
            forall|k: int|
                0 <= k < out@.len() ==> !"$argon2"@.is_prefix_of(
                    self.users@[#[trigger] out@[k] as int].password@,
                ),
    {
        let mut out: Vec<usize> = Vec::new();
        let mut i: usize = 0;
        while i < self.users.len()
            invariant
                i <= self.users@.len(),
                forall|a: int, b: int| 0 <= a < b < out@.len() ==> out@[a] < out@[b],
                forall|k: int| 0 <= k < out@.len() ==> #[trigger] out@[k] < i && self.plaintext(
                    out@[k] as int,
                ),
                forall|a: int|
                    0 <= a < i && #[trigger] self.plaintext(a) ==> out@.contains(a as usize),
            decreases self.users@.len() - i,
        {
            let ghost before = out@;
            if !text::has_prefix(self.users[i].password.as_str(), "$argon2") {
                out.push(i);
                proof {
                    assert(out@[before.len() as int] == i);
                    assert forall|a: int|
                        0 <= a < i + 1 && #[trigger] self.plaintext(a) implies out@.contains(
                        a as usize,
                    ) by {
                        if a < i {
                            let k = before.index_of(a as usize);
                            assert(out@[k] == a);
                        }
                    }
                }
            }
            i += 1;
        }
        proof {
            assert forall|a: int|
                0 <= a < self.users@.len() && !"$argon2"@.is_prefix_of(
                    (#[trigger] self.users@[a]).password@,
                ) implies out@.contains(a as usize) by {
                assert(self.plaintext(a));
            }
        }
        out
    }
}

impl ObjectStorageCfg {
    /// Which backend the settings ask for: a directory where there is a path, else S3
    /// where there is an endpoint or a bucket.
    pub fn backend(&self) -> (r: Result<Backend, String>)
        ensures
            match r {
                Ok(Backend::Directory(p)) => text::opt_view(self.path) == Some(p@),
                Ok(Backend::S3) => self.path is None && (self.endpoint is Some || self.bucket is Some),
                Err(msg) => self.path is None && self.endpoint is None && self.bucket is None && msg@
                    == "[object_storage] needs either `path` or `endpoint`/`bucket`"@,
            },
    {
        match &self.path {
            Some(p) => Ok(Backend::Directory(p.clone())),
            None => {
                if self.endpoint.is_some() || self.bucket.is_some() {
                    Ok(Backend::S3)
                } else {
                    Err("[object_storage] needs either `path` or `endpoint`/`bucket`".to_owned())
                }
            },
        }
    }

    /// The name of the bucket; `breezy` where none is set.
    pub fn bucket_name(&self) -> (s: String)
        ensures
            s@ == match self.bucket {
                Some(b) => b@,
                None => "breezy"@,
            },
    {
        match &self.bucket {
            Some(b) => b.clone(),
            None => "breezy".to_owned(),
        }
    }
}

} // verus!
