//! The `.kvc/` store's state: the engine configuration, the committed index, the commit
//! history and its records, the branch list, the shelf of set-aside work, and the loaded
//! repository that holds them. Maps of the on-disk JSON are ordered text-keyed tables
//! ([`crate::assoc`]).

use crate::chains::ChainStore;
use crate::assoc::{keys_sorted, lemma_table_get_put, table_find, table_get, table_insert};
use crate::text::{
    all_ascii, ascii_chars, ascii_string, hex, hex_ascii, lemma_all_ascii_concat, lemma_hex_ascii,
    lemma_hex_prefix, lemma_padded_ascii, padded,
    push_padded,
};
use vstd::prelude::*;
use vstd::string::StringExecFns;

verus! {

/// Engine configuration (`config.json`).
#[derive(Debug, Clone, Copy, PartialEq, Eq, Structural)]
pub struct Config {
    pub version: u32,
    /// Max consecutive patches before a fresh full snapshot is forced.
    pub delta_chain_max: usize,
    pub tile_size: u32,
    /// Size budget of the capped-raster cache.
    pub cache_max_bytes: u64,
    /// Store decoded tile pixels instead of the stored LZF payloads.
    pub tile_pixel_deltas: bool,
    /// Decode working-document diff entries on demand.
    pub low_memory_diff: bool,
}

/// The default raster-cache budget, 256 MiB.
pub fn default_cache_max_bytes() -> (r: u64)
    ensures
        r == 256 * 1024 * 1024,
{
    256 * 1024 * 1024
}

impl Default for Config {
    fn default() -> (c: Config)
        ensures
            c == (Config {
                version: 2,
                delta_chain_max: 20,
                tile_size: 64,
                cache_max_bytes: 268435456u64,
                tile_pixel_deltas: false,
                low_memory_diff: false,
            }),
    {
        Config {
            version: 2,
            delta_chain_max: 20,
            tile_size: 64,
            cache_max_bytes: default_cache_max_bytes(),
            tile_pixel_deltas: false,
            low_memory_diff: false,
        }
    }
}

/// A loaded configuration brought up to the current version, and whether it changed. Before
/// version 2 the cache budget default was 512 MiB, which only ever meant "the old default": it
/// becomes the new default.
pub open spec fn migrated_config(config: Config) -> (Config, bool) {
    if config.version >= 2 {
        (config, false)
    } else {
        (
            Config {
                version: 2,
                cache_max_bytes: if config.cache_max_bytes == 512 * 1024 * 1024 {
                    268435456u64
                } else {
                    config.cache_max_bytes
                },
                ..config
            },
            true,
        )
    }
}

/// Bring a loaded configuration up to the current version; also says whether it changed
/// and must be written back.
pub fn migrate_config(config: Config) -> (r: (Config, bool))
    ensures
        r == migrated_config(config),
{
    let mut config = config;
    if config.version < 2 {
        if config.cache_max_bytes == 512 * 1024 * 1024 {
            config.cache_max_bytes = default_cache_max_bytes();
        }
        config.version = 2;
        (config, true)
    } else {
        (config, false)
    }
}

/// Committed head of one tracked file.
#[derive(Debug, Clone)]
pub struct TrackedFile {
    /// Hash of the whole working file as last committed.
    pub hash: String,
    pub is_kra: bool,
    pub size: u64,
    pub mtime: u64,
}

/// The committed index: relative path to committed head.
#[derive(Debug, Clone)]
pub struct Index {
    pub files: Vec<(String, TrackedFile)>,
}

impl Index {
    /// Well-formed: paths in order, none twice.
    pub open spec fn wf(&self) -> bool {
        keys_sorted(self.files@)
    }
}

impl Default for Index {
    fn default() -> (i: Index)
        ensures
            i.files@.len() == 0,
    {
        Index { files: Vec::new() }
    }
}

/// One file's entry in a commit.
#[derive(Debug, Clone)]
pub struct CommittedFile {
    pub path: String,
    /// `A` added, `M` modified, `D` deleted, `C` merged with a collision.
    pub status: String,
    /// Stream hash of the stored content; `None` for deletions.
    pub content: Option<String>,
    pub is_kra: bool,
    /// Hash of the working file as it was when recorded.
    pub file_hash: Option<String>,
    /// Size of the working file as it was when recorded.
    pub original_size: u64,
}

/// A committed file as plain values.
pub struct FileView {
    pub path: Seq<char>,
    pub status: Seq<char>,
    pub content: Option<Seq<char>>,
    pub is_kra: bool,
    pub file_hash: Option<Seq<char>>,
    pub original_size: u64,
}

impl View for CommittedFile {
    type V = FileView;

    open spec fn view(&self) -> FileView {
        FileView {
            path: self.path@,
            status: self.status@,
            content: self.content.deep_view(),
            is_kra: self.is_kra,
            file_hash: self.file_hash.deep_view(),
            original_size: self.original_size,
        }
    }
}

/// A commit record.
#[derive(Debug, Clone)]
pub struct Commit {
    pub id: String,
    pub hash: String,
    pub message: String,
    pub author: String,
    pub timestamp: String,
    pub parents: Vec<String>,
    /// Branch the commit was made on (display only).
    pub branch: String,
    /// Exactly the diff of this commit's tree against its first parent's tree.
    pub files: Vec<CommittedFile>,
    /// Id of the commit a rollback restored.
    pub restored_from: Option<String>,
}

/// Work set aside off to the side of history.
#[derive(Debug, Clone)]
pub struct Stash {
    pub id: String,
    pub label: String,
    pub author: String,
    pub timestamp: String,
    pub branch: String,
    pub files: Vec<CommittedFile>,
}

/// The shelf, oldest first.
#[derive(Debug, Clone)]
pub struct Stashes {
    pub stashes: Vec<Stash>,
}

impl Default for Stashes {
    fn default() -> (s: Stashes)
        ensures
            s.stashes@.len() == 0,
    {
        Stashes { stashes: Vec::new() }
    }
}

/// Local branches: name to tip commit id (`""` for a branch with no commits yet), and the
/// branch being worked on.
#[derive(Debug, Clone)]
pub struct Branches {
    pub current: String,
    pub branches: Vec<(String, String)>,
}

/// A tip as seen by callers: the empty id means "no commits yet".
pub open spec fn tip_view(t: Option<String>) -> Option<Seq<char>> {
    match t {
        Some(s) => if s@.len() == 0 {
            None
        } else {
            Some(s@)
        },
        None => None,
    }
}

/// An optional text as plain values.
pub open spec fn str_opt_view(r: Option<&str>) -> Option<Seq<char>> {
    match r {
        Some(s) => Some(s@),
        None => None,
    }
}

impl Branches {
    /// Well-formed: names in order, none twice.
    pub open spec fn wf(&self) -> bool {
        keys_sorted(self.branches@)
    }

    /// The tip of branch `name`, `None` when it is unknown or has no commits.
    pub open spec fn tip_of_spec(&self, name: Seq<char>) -> Option<Seq<char>> {
        tip_view(table_get(self.branches@, name))
    }

    /// Tip commit id of the current branch, `None` if the branch has no commits yet.
    pub fn tip(&self) -> (r: Option<&str>)
        requires
            self.wf(),
        ensures
            str_opt_view(r) == self.tip_of_spec(self.current@),
    {
        self.tip_of(self.current.as_str())
    }

    /// Tip commit id of branch `name`, `None` if there is no such branch or it has no commits.
    pub fn tip_of(&self, name: &str) -> (r: Option<&str>)
        requires
            self.wf(),
        ensures
            str_opt_view(r) == self.tip_of_spec(name@),
    {
        match table_find(&self.branches, name) {
            Some(i) => {
                let t = self.branches[i].1.as_str();
                if t.is_empty() {
                    None
                } else {
                    Some(t)
                }
            },
            None => None,
        }
    }

    /// The branch list as a map from name to tip id.
    pub open spec fn branch_map(&self) -> Map<Seq<char>, Seq<char>> {
        Map::new(
            |k: Seq<char>| table_get(self.branches@, k) is Some,
            |k: Seq<char>| table_get(self.branches@, k)->0@,
        )
    }

    /// Point the current branch at `id`.
    pub fn set_tip(&mut self, id: &str)
        requires
            old(self).wf(),
        ensures
            final(self).wf(),
            final(self).current == old(self).current,
            final(self).branch_map() == old(self).branch_map().insert(old(self).current@, id@),
    {
        let name = self.current.clone();
        let v = id.to_owned();
        let ghost gname = name;
        let ghost gv = v;
        let ghost before = self.branches@;
        table_insert(&mut self.branches, name, v);
        proof {
            assert forall|k: Seq<char>| #[trigger]
                table_get(self.branches@, k) == (if k == gname@ {
                    Some(gv)
                } else {
                    table_get(before, k)
                }) by {
                lemma_table_get_put(before, gname, gv, k);
            }
        }
        assert(self.branch_map() =~= old(self).branch_map().insert(old(self).current@, id@));
    }
}


/// The BLAKE3 digest of `data`.
pub uninterp spec fn blake3_digest(data: Seq<u8>) -> Seq<u8>;

/// `blake3::hash`: the 32-byte BLAKE3 digest of `data`. The contract names the digest and
/// states its length; what the bytes are is BLAKE3 itself, which is not restated here.
#[verifier::external_body]
fn blake3_hash(data: &[u8]) -> (r: Vec<u8>)
    ensures
        r@ == blake3_digest(data@),
        r@.len() == 32,
{
    blake3::hash(data).as_bytes().to_vec()
}

/// BLAKE3 of a byte slice as lower-case hex (64 characters).
pub fn hash_bytes(bytes: &[u8]) -> (r: String)
    ensures
        r@ == ascii_chars(hex_ascii(blake3_digest(bytes@))),
        r@.len() == 64,
{
    let d = blake3_hash(bytes);
    hex(d.as_slice())
}

/// The first `n` bytes of a digest of `bytes`, as lower-case hex (`2 * n` characters): the
/// leading characters of [`hash_bytes`].
pub fn short_hash(bytes: &[u8], n: usize) -> (r: String)
    requires
        n <= 32,
    ensures
        r@ == ascii_chars(hex_ascii(blake3_digest(bytes@))).take(2 * n),
{
    let d = blake3_hash(bytes);
    let mut head: Vec<u8> = Vec::new();
    let mut i: usize = 0;
    while i < n
        invariant
            i <= n <= 32,
            d@.len() == 32,
            head@ == d@.take(i as int),
        decreases n - i,
    {
        head.push(d[i]);
        assert(d@.take(i + 1) =~= d@.take(i as int).push(d@[i as int]));
        i = i + 1;
    }
    proof {
        lemma_hex_prefix(d@, n as int);
        lemma_hex_ascii(d@);
        assert(ascii_chars(hex_ascii(d@)).take(2 * n) =~= ascii_chars(hex_ascii(d@).take(2 * n)));
    }
    hex(head.as_slice())
}


/// Loaded repository state, mutated in memory and then written back.
pub struct Repo {
    pub root: String,
    pub config: Config,
    pub index: Index,
    /// Delta chains of every stored stream.
    pub chains: ChainStore,
    pub commits: Vec<Commit>,
    pub branches: Branches,
    /// Work set aside off to the side of history.
    pub stashes: Stashes,
    /// How many of `commits` are already lines of the commit log.
    pub commits_persisted: usize,
    /// The whole log must be rewritten on the next save (legacy migration, or commits dropped).
    pub commits_rewrite: bool,
    /// `config` was migrated on load and must be written on the next save.
    pub config_dirty: bool,
}

/// What a save must write, besides the index, branches and shelf it always writes.
#[derive(Debug, Clone, Copy, PartialEq, Eq, Structural)]
pub enum LogWrite {
    /// Rewrite the whole commit log from `commits`.
    Rewrite,
    /// Append `commits[from..]` to the log.
    Append { from: usize },
    /// The log is up to date.
    Unchanged,
}

/// The writes one save performs.
#[derive(Debug, Clone, Copy, PartialEq, Eq, Structural)]
pub struct SavePlan {
    /// Write `config.json`.
    pub config: bool,
    pub log: LogWrite,
}

impl Repo {
    /// Well-formed: the index, the chains and the branch list are ordered tables.
    pub open spec fn wf(&self) -> bool {
        self.index.wf() && self.branches.wf() && self.chains.wf()
    }

    /// Assemble a loaded repository from what was read: `commits` with the number of them
    /// already in the log and whether the log must be rewritten, and the branch list and shelf
    /// when their files exist (a repository from before branching gets everything on `main`,
    /// tipped at the newest commit; a missing shelf is empty). The configuration is migrated.
    pub fn open(
        root: String,
        config: Config,
        index: Index,
        chains: ChainStore,
        commits: Vec<Commit>,
        persisted: usize,
        rewrite: bool,
        branches: Option<Branches>,
        stashes: Option<Stashes>,
    ) -> (r: Repo)
        requires
            index.wf(),
            chains.wf(),
            branches matches Some(b) ==> b.wf(),
        ensures
            r.wf(),
            r.root == root,
            (r.config, r.config_dirty) == migrated_config(config),
            r.index == index,
            r.chains == chains,
            r.commits == commits,
            r.commits_persisted == persisted,
            r.commits_rewrite == rewrite,
            branches matches Some(b) ==> r.branches == b,
            branches is None ==> r.branches.current@ == seq!['m', 'a', 'i', 'n'] && r.branches.branch_map()
                == map![seq!['m', 'a', 'i', 'n'] => if commits@.len() == 0 {
                    Seq::<char>::empty()
                } else {
                    commits@.last().id@
                }],
            stashes matches Some(s) ==> r.stashes == s,
            stashes is None ==> r.stashes.stashes@.len() == 0,
    {
        let (config, config_dirty) = migrate_config(config);
        let branches = match branches {
            Some(b) => b,
            None => Branches::migrated(&commits),
        };
        let stashes = match stashes {
            Some(s) => s,
            None => Stashes::default(),
        };
        Repo {
            root,
            config,
            index,
            chains,
            commits,
            branches,
            stashes,
            commits_persisted: persisted,
            commits_rewrite: rewrite,
            config_dirty,
        }
    }

    /// [`Repo::open`] without chains, for read paths that never store or reconstruct: the
    /// chain store comes up empty.
    pub fn open_light(
        root: String,
        config: Config,
        index: Index,
        commits: Vec<Commit>,
        persisted: usize,
        rewrite: bool,
        branches: Option<Branches>,
        stashes: Option<Stashes>,
    ) -> (r: Repo)
        requires
            index.wf(),
            branches matches Some(b) ==> b.wf(),
        ensures
            r.wf(),
            r.root == root,
            (r.config, r.config_dirty) == migrated_config(config),
            r.index == index,
            forall|k: Seq<char>| r.chains.chain_spec(k) is None,
            r.chains.dirty@.len() == 0,
            !r.chains.retire_monolith,
            r.commits == commits,
            r.commits_persisted == persisted,
            r.commits_rewrite == rewrite,
            branches matches Some(b) ==> r.branches == b,
            branches is None ==> r.branches.current@ == seq!['m', 'a', 'i', 'n'] && r.branches.branch_map()
                == map![seq!['m', 'a', 'i', 'n'] => if commits@.len() == 0 {
                    Seq::<char>::empty()
                } else {
                    commits@.last().id@
                }],
            stashes matches Some(s) ==> r.stashes == s,
            stashes is None ==> r.stashes.stashes@.len() == 0,
    {
        Repo::open(root, config, index, ChainStore::empty(), commits, persisted, rewrite, branches, stashes)
    }

    /// Mark the commit list as truncated so the next save rewrites the whole log.
    pub fn note_commits_truncated(&mut self)
        ensures
            final(self).commits_rewrite,
            final(self).commits_persisted == old(self).commits_persisted,
            final(self).config_dirty == old(self).config_dirty,
            final(self).root == old(self).root,
            final(self).config == old(self).config,
            final(self).index == old(self).index,
            final(self).chains == old(self).chains,
            final(self).commits == old(self).commits,
            final(self).branches == old(self).branches,
            final(self).stashes == old(self).stashes,
    {
        self.commits_rewrite = true;
    }

    /// Plan a save and mark the state as persisted: the configuration is written when it was
    /// migrated; the log is rewritten when flagged, else the commits not yet in it are
    /// appended.
    pub fn save(&mut self) -> (p: SavePlan)
        ensures
            p.config == old(self).config_dirty,
            p.log == if old(self).commits_rewrite {
                LogWrite::Rewrite
            } else if old(self).commits@.len() > old(self).commits_persisted {
                LogWrite::Append { from: old(self).commits_persisted }
            } else {
                LogWrite::Unchanged
            },
            !final(self).config_dirty,
            !final(self).commits_rewrite,
            final(self).commits_persisted == if p.log == LogWrite::Unchanged {
                old(self).commits_persisted as int
            } else {
                old(self).commits@.len() as int
            },
            final(self).root == old(self).root,
            final(self).config == old(self).config,
            final(self).index == old(self).index,
            final(self).chains == old(self).chains,
            final(self).commits == old(self).commits,
            final(self).branches == old(self).branches,
            final(self).stashes == old(self).stashes,
    {
        let config = self.config_dirty;
        self.config_dirty = false;
        let log = if self.commits_rewrite {
            self.commits_rewrite = false;
            self.commits_persisted = self.commits.len();
            LogWrite::Rewrite
        } else if self.commits.len() > self.commits_persisted {
            let from = self.commits_persisted;
            self.commits_persisted = self.commits.len();
            LogWrite::Append { from }
        } else {
            LogWrite::Unchanged
        };
        SavePlan { config, log }
    }

    /// Mark the configuration as written (a settings edit writes `config.json` alone).
    pub fn save_config(&mut self)
        ensures
            !final(self).config_dirty,
            final(self).commits_rewrite == old(self).commits_rewrite,
            final(self).commits_persisted == old(self).commits_persisted,
            final(self).root == old(self).root,
            final(self).config == old(self).config,
            final(self).index == old(self).index,
            final(self).chains == old(self).chains,
            final(self).commits == old(self).commits,
            final(self).branches == old(self).branches,
            final(self).stashes == old(self).stashes,
    {
        self.config_dirty = false;
    }
}

impl Branches {
    /// The branch list of a repository from before branching: everything on `main`, whose
    /// tip is the newest commit.
    pub fn migrated(commits: &Vec<Commit>) -> (b: Branches)
        ensures
            b.wf(),
            b.current@ == seq!['m', 'a', 'i', 'n'],
            b.branch_map() == map![seq!['m', 'a', 'i', 'n'] => if commits@.len() == 0 {
                Seq::<char>::empty()
            } else {
                commits@.last().id@
            }],
    {
        let mut b = Branches::default();
        if commits.len() > 0 {
            let last = &commits[commits.len() - 1];
            b.set_tip(last.id.as_str());
        }
        proof {
            assert(b.branch_map() =~= map![seq!['m', 'a', 'i', 'n'] => if commits@.len() == 0 {
                Seq::<char>::empty()
            } else {
                commits@.last().id@
            }]);
        }
        b
    }
}

impl Default for Branches {
    fn default() -> (b: Branches)
        ensures
            b.wf(),
            b.current@ == seq!['m', 'a', 'i', 'n'],
            b.branch_map() == map![seq!['m', 'a', 'i', 'n'] => Seq::<char>::empty()],
    {
        let main = String::from_str("main");
        proof {
            reveal_strlit("main");
            assert("main"@ =~= seq!['m', 'a', 'i', 'n']);
        }
        let empty = String::new();
        let mut branches: Vec<(String, String)> = Vec::new();
        branches.push((main.clone(), empty));
        let b = Branches { current: main, branches };
        proof {
            assert(b.branches@[0].0@ == seq!['m', 'a', 'i', 'n']);
            assert(b.branches@[0].1@ == Seq::<char>::empty());
            assert(b.branches@.skip(1) =~= Seq::<(String, String)>::empty());
            assert forall|k: Seq<char>| #[trigger] table_get(b.branches@, k) == if k == seq![
                'm',
                'a',
                'i',
                'n',
            ] {
                Some(b.branches@[0].1)
            } else {
                None
            } by {
                assert(table_get(b.branches@.skip(1), k) is None);
            }
            assert(b.branch_map() =~= map![seq!['m', 'a', 'i', 'n'] => Seq::<char>::empty()]);
        }
        b
    }
}


/// Integer division rounding toward zero, as Rust's `/` on signed integers does.
pub open spec fn tdiv(a: int, b: int) -> int {
    if a >= 0 {
        a / b
    } else {
        -((-a) / b)
    }
}

/// Howard Hinnant's civil-from-days: the proleptic Gregorian `(year, month, day)` of day
/// `days` counted from 1970-01-01.
pub open spec fn civil_from_days(days: int) -> (int, int, int) {
    let z = days + 719468;
    let era = z / 146097;
    let doe = z - era * 146097;
    let yoe = tdiv(doe - tdiv(doe, 1460) + tdiv(doe, 36524) - tdiv(doe, 146096), 365);
    let y = yoe + era * 400;
    let doy = doe - (365 * yoe + tdiv(yoe, 4) - tdiv(yoe, 100));
    let mp = tdiv(5 * doy + 2, 153);
    let d = doy - tdiv(153 * mp + 2, 5) + 1;
    let m = if mp < 10 {
        mp + 3
    } else {
        mp - 9
    };
    (if m <= 2 {
        y + 1
    } else {
        y
    }, m, d)
}

/// A number as `{:0w}` prints it: zero-padded to `w` characters at least, a minus sign
/// counting toward the width.
pub open spec fn signed_padded(v: int, w: nat) -> Seq<u8> {
    if v < 0 {
        seq![45u8] + padded((-v) as nat, (w - 1) as nat)
    } else {
        padded(v as nat, w)
    }
}

/// `YYYY-MM-DDTHH:MM:SSZ` for `secs` seconds after the Unix epoch, as ASCII bytes.
pub open spec fn iso_bytes(secs: int) -> Seq<u8> {
    let days = secs / 86400;
    let rem = secs % 86400;
    let (y, m, d) = civil_from_days(days);
    signed_padded(y, 4) + seq![45u8] + signed_padded(m, 2) + seq![45u8] + signed_padded(d, 2) + seq![
        84u8,
    ] + padded((rem / 3600) as nat, 2) + seq![58u8] + padded((rem % 3600 / 60) as nat, 2)
        + seq![58u8] + padded((rem % 60) as nat, 2) + seq![90u8]
}

proof fn lemma_signed_padded_ascii(v: int, w: nat)
    requires
        w >= 1,
    ensures
        all_ascii(signed_padded(v, w)),
{
    if v < 0 {
        lemma_padded_ascii((-v) as nat, (w - 1) as nat);
        lemma_all_ascii_concat(seq![45u8], padded((-v) as nat, (w - 1) as nat));
    } else {
        lemma_padded_ascii(v as nat, w);
    }
}

proof fn lemma_iso_ascii(secs: int)
    ensures
        all_ascii(iso_bytes(secs)),
{
    let days = secs / 86400;
    let rem = secs % 86400;
    let (y, m, d) = civil_from_days(days);
    let a0 = signed_padded(y, 4);
    let pm = signed_padded(m, 2);
    let pd = signed_padded(d, 2);
    let ph = padded((rem / 3600) as nat, 2);
    let pi = padded((rem % 3600 / 60) as nat, 2);
    let ps = padded((rem % 60) as nat, 2);
    lemma_signed_padded_ascii(y, 4);
    lemma_signed_padded_ascii(m, 2);
    lemma_signed_padded_ascii(d, 2);
    lemma_padded_ascii((rem / 3600) as nat, 2);
    lemma_padded_ascii((rem % 3600 / 60) as nat, 2);
    lemma_padded_ascii((rem % 60) as nat, 2);
    assert(all_ascii(seq![45u8]) && all_ascii(seq![84u8]) && all_ascii(seq![58u8]) && all_ascii(
        seq![90u8],
    ));
    let a1 = a0 + seq![45u8];
    lemma_all_ascii_concat(a0, seq![45u8]);
    let a2 = a1 + pm;
    lemma_all_ascii_concat(a1, pm);
    let a3 = a2 + seq![45u8];
    lemma_all_ascii_concat(a2, seq![45u8]);
    let a4 = a3 + pd;
    lemma_all_ascii_concat(a3, pd);
    let a5 = a4 + seq![84u8];
    lemma_all_ascii_concat(a4, seq![84u8]);
    let a6 = a5 + ph;
    lemma_all_ascii_concat(a5, ph);
    let a7 = a6 + seq![58u8];
    lemma_all_ascii_concat(a6, seq![58u8]);
    let a8 = a7 + pi;
    lemma_all_ascii_concat(a7, pi);
    let a9 = a8 + seq![58u8];
    lemma_all_ascii_concat(a8, seq![58u8]);
    let a10 = a9 + ps;
    lemma_all_ascii_concat(a9, ps);
    lemma_all_ascii_concat(a10, seq![90u8]);
}

/// Append `v` as `{:0w}` prints it.
fn push_signed_padded(out: &mut Vec<u8>, v: i128, w: usize)
    requires
        1 <= w,
        -1_000_000_000_000 <= v <= 1_000_000_000_000,
    ensures
        final(out)@ == old(out)@ + signed_padded(v as int, w as nat),
{
    if v < 0 {
        out.push(45u8);
        push_padded(out, (-v) as u64, w - 1);
        assert(out@ =~= old(out)@ + signed_padded(v as int, w as nat));
    } else {
        push_padded(out, v as u64, w);
    }
}

/// The civil date of a day count within the range of `i64` seconds.
fn civil(days: i128) -> (r: (i128, i128, i128))
    requires
        -200_000_000_000_000 <= days <= 200_000_000_000_000,
    ensures
        r.0 as int == civil_from_days(days as int).0,
        r.1 as int == civil_from_days(days as int).1,
        r.2 as int == civil_from_days(days as int).2,
        -1_000_000_000_000 <= r.0 <= 1_000_000_000_000,
        -1_000_000 <= r.1 <= 1_000_000,
        -1_000_000 <= r.2 <= 1_000_000,
{
    let zz: i128 = days + 719468 + 146097 * 10_000_000_000;
    let era_s: i128 = zz / 146097;
    let doe: i128 = zz % 146097;
    let era: i128 = era_s - 10_000_000_000;
    proof {
        assert(zz >= 0);
        assert(zz == era_s * 146097 + doe);
        vstd::arithmetic::div_mod::lemma_fundamental_div_mod_converse(
            days + 719468,
            146097,
            era as int,
            doe as int,
        );
    }
    let yoe: i128 = (doe - doe / 1460 + doe / 36524 - doe / 146096) / 365;
    assert(0 <= yoe <= 401);
    let y: i128 = yoe + era * 400;
    let doy: i128 = doe - (365 * yoe + yoe / 4 - yoe / 100);
    assert(-200_000 <= doy <= 200_000);
    let mp: i128 = (5 * doy + 2) / 153;
    let d: i128 = doy - (153 * mp + 2) / 5 + 1;
    let m: i128 = if mp < 10 {
        mp + 3
    } else {
        mp - 9
    };
    let y: i128 = if m <= 2 {
        y + 1
    } else {
        y
    };
    (y, m, d)
}

/// Unix epoch seconds as ISO-8601 UTC, `YYYY-MM-DDTHH:MM:SSZ`.
pub fn epoch_to_iso(secs: i64) -> (s: String)
    ensures
        s@ == ascii_chars(iso_bytes(secs as int)),
{
    let sh: i128 = secs as i128 + 86400 * 200_000_000_000_000;
    let q: i128 = sh / 86400;
    let rem: i128 = sh % 86400;
    let days: i128 = q - 200_000_000_000_000;
    proof {
        assert(sh >= 0);
        assert(sh == q * 86400 + rem);
        vstd::arithmetic::div_mod::lemma_fundamental_div_mod_converse(
            secs as int,
            86400,
            days as int,
            rem as int,
        );
    }
    let (y, m, d) = civil(days);
    let mut out: Vec<u8> = Vec::new();
    push_signed_padded(&mut out, y, 4);
    out.push(45u8);
    push_signed_padded(&mut out, m, 2);
    out.push(45u8);
    push_signed_padded(&mut out, d, 2);
    out.push(84u8);
    push_padded(&mut out, (rem / 3600) as u64, 2);
    out.push(58u8);
    push_padded(&mut out, ((rem % 3600) / 60) as u64, 2);
    out.push(58u8);
    push_padded(&mut out, (rem % 60) as u64, 2);
    out.push(90u8);
    assert(out@ =~= iso_bytes(secs as int));
    proof {
        lemma_iso_ascii(secs as int);
    }
    ascii_string(out.as_slice())
}


/// `SystemTime::now()` as whole seconds since the Unix epoch (0 for a clock set before it).
/// It reads the clock, so nothing is promised of the value.
#[verifier::external_body]
fn unix_seconds() -> i64 {
    match std::time::SystemTime::now().duration_since(std::time::UNIX_EPOCH) {
        Ok(d) => d.as_secs() as i64,
        Err(_) => 0,
    }
}

/// The current time as ISO-8601 UTC (`YYYY-MM-DDTHH:MM:SSZ`).
pub fn now_iso() -> (s: String)
    ensures
        exists|t: i64| s@ == ascii_chars(iso_bytes(t as int)),
{
    let t = unix_seconds();
    epoch_to_iso(t)
}

} // verus!
