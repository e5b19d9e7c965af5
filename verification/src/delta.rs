//! Content-addressed delta-chain storage. A stream is any versioned byte sequence (a file, a
//! document manifest, a layer entry, a single tile). Each new version is stored either as a
//! full zstd snapshot or as a bsdiff patch against the previous head; a threshold caps how many
//! patches may follow a snapshot, so restores stay fast. Every patch is checked to rebuild its
//! target before it is accepted, so every stored version can be restored.
//!
//! Objects are written and read by the caller; this module decides what to store, computes the
//! payloads, and rebuilds content from the payloads it is handed.

use crate::chains::{
    copy_version, find_from, opt_view, same_version, same_versions, starts_with, ChainStore,
    Version,
};
use crate::error::KvcError;
use crate::raster::copy_slice;
use crate::repo::{hash_bytes, Repo};
use crate::scan::hash_text;
use crate::text::{chars_of, str_eq};
use crate::assoc::{keys_sorted, table_find, table_get, table_insert, lemma_table_get_put};
use vstd::prelude::*;

verus! {

/// The zstd frame that compresses `data` at `level`.
pub uninterp spec fn zstd_frame(data: Seq<u8>, level: i32) -> Seq<u8>;

/// The content a zstd frame decompresses to.
pub uninterp spec fn zstd_content(frame: Seq<u8>) -> Seq<u8>;

/// The bsdiff patch that turns `source` into `target`.
pub uninterp spec fn bsdiff_patch(source: Seq<u8>, target: Seq<u8>) -> Seq<u8>;

/// The bytes that applying `patch` to `source` produces.
pub uninterp spec fn bspatch_output(patch: Seq<u8>, source: Seq<u8>) -> Seq<u8>;

/// `zstd::encode_all`: the zstd frame of `data` at compression `level`. The contract names the
/// frame, and states what the zstd format promises of it: it decodes to exactly `data`. The
/// encoder writes into an in-memory buffer, which never refuses a write, so for a
/// level in zstd's regular range the call succeeds; otherwise the error's text is returned.
#[verifier::external_body]
fn zstd_encode(data: &[u8], level: i32) -> (r: Result<Vec<u8>, String>)
    ensures
        r matches Ok(v) ==> v@ == zstd_frame(data@, level),
        r matches Ok(v) ==> zstd_content(v@) == data@,
        1 <= level <= 19 ==> r is Ok,
{
    zstd::encode_all(data, level).map_err(|e| e.to_string())
}

/// `zstd::decode_all`: the content of a zstd frame. The contract names it, and states what the
/// zstd format promises: a frame made by the encoder decodes, to exactly what was encoded.
/// Which malformed inputs fail is not stated.
#[verifier::external_body]
fn zstd_decode(frame: &[u8]) -> (r: Result<Vec<u8>, String>)
    ensures
        r matches Ok(v) ==> v@ == zstd_content(frame@),
        r matches Ok(v) ==> forall|d: Seq<u8>, level: i32|
            frame@ == #[trigger] zstd_frame(d, level) ==> v@ == d,
        r is Err ==> forall|d: Seq<u8>, level: i32| frame@ != #[trigger] zstd_frame(d, level),
{
    zstd::decode_all(frame).map_err(|e| e.to_string())
}

/// `qbsdiff::Bsdiff::compare`: the bsdiff patch from `source` to `target`, named. The crate
/// panics on a source past `i32::MAX` bytes, which `requires` leaves out. It writes into an
/// in-memory buffer, which never refuses a write, so the call succeeds; the header it writes
/// gives the true sizes of the sections that follow it.
#[verifier::external_body]
fn bsdiff(source: &[u8], target: &[u8]) -> (r: Result<Vec<u8>, String>)
    requires
        source.len() <= 0x7fff_ffff,
    ensures
        r matches Ok(v) ==> v@ == bsdiff_patch(source@, target@),
        r is Ok,
        r matches Ok(v) ==> patch_header_fits(v@),
{
    let mut patch = Vec::new();
    match qbsdiff::Bsdiff::new(source, target).compare(std::io::Cursor::new(&mut patch)) {
        Ok(_) => Ok(patch),
        Err(e) => Err(e.to_string()),
    }
}

/// The little-endian 64-bit number at `at`.
pub open spec fn le_u64(b: Seq<u8>, at: int) -> nat {
    (b[at] + b[at + 1] * 0x100 + b[at + 2] * 0x1_0000 + b[at + 3] * 0x100_0000 + b[at + 4] * 0x1_0000_0000
        + b[at + 5] * 0x100_0000_0000 + b[at + 6] * 0x1_0000_0000_0000 + b[at + 7] * 0x100_0000_0000_0000) as nat
}

/// A section size of a bsdiff header as the patcher reads it: sign-magnitude, taken as an
/// unsigned 64-bit number.
pub open spec fn header_size(x: nat) -> nat {
    if x <= 0x8000_0000_0000_0000 {
        x
    } else {
        (0x1_0000_0000_0000_0000 - (x - 0x8000_0000_0000_0000)) as nat
    }
}

/// The eight magic bytes `BSDIFF40` that open a bsdiff patch.
pub open spec fn bsdiff_magic() -> Seq<u8> {
    seq![0x42u8, 0x53, 0x44, 0x49, 0x46, 0x46, 0x34, 0x30]
}

/// Whether a patch is either refused outright by the patcher (too short, or not a bsdiff patch)
/// or has control and delta sections that fit inside it.
pub open spec fn patch_header_fits(p: Seq<u8>) -> bool {
    p.len() < 32 || p.take(8) != bsdiff_magic() || 32 + header_size(le_u64(p, 8)) + header_size(le_u64(p, 16))
        <= p.len()
}

/// `qbsdiff::Bspatch::apply`: the bytes `patch` produces from `source`, named. The patcher adds
/// the header's section sizes without a check and splits the patch there, so `requires` leaves
/// out a header whose sections do not fit. A patch the differ made for this very source applies.
/// Which other patches fail, with the error's text, is not stated.
#[verifier::external_body]
fn bspatch(patch: &[u8], source: &[u8]) -> (r: Result<Vec<u8>, String>)
    requires
        patch_header_fits(patch@),
    ensures
        r matches Ok(v) ==> v@ == bspatch_output(patch@, source@),
        (exists|t: Seq<u8>| patch@ == #[trigger] bsdiff_patch(source@, t)) ==> r is Ok,
{
    let mut out = Vec::new();
    match qbsdiff::Bspatch::new(patch) {
        Ok(p) => match p.apply(source, std::io::Cursor::new(&mut out)) {
            Ok(_) => Ok(out),
            Err(e) => Err(e.to_string()),
        },
        Err(e) => Err(e.to_string()),
    }
}

/// Whether a patch's header sections fit inside it, read from its bytes (see
/// [`patch_header_fits`]).
pub fn header_fits(p: &[u8]) -> (r: bool)
    ensures
        r == patch_header_fits(p@),
{
    if p.len() < 32 {
        return true;
    }
    if !(p[0] == 0x42 && p[1] == 0x53 && p[2] == 0x44 && p[3] == 0x49 && p[4] == 0x46 && p[5] == 0x46
        && p[6] == 0x34 && p[7] == 0x30) {
        proof {
            if p@.take(8) == bsdiff_magic() {
                assert(p@.take(8)[0] == p@[0] && p@.take(8)[7] == p@[7]);
                assert(p@.take(8)[1] == p@[1] && p@.take(8)[2] == p@[2] && p@.take(8)[3] == p@[3]);
                assert(p@.take(8)[4] == p@[4] && p@.take(8)[5] == p@[5] && p@.take(8)[6] == p@[6]);
            }
        }
        return true;
    }
    proof {
        assert(p@.take(8) =~= bsdiff_magic());
    }
    let c = read_le_u64(p, 8);
    let d = read_le_u64(p, 16);
    let cs: u128 = if c <= 0x8000_0000_0000_0000 { c as u128 } else { 0x1_0000_0000_0000_0000u128 - (c as u128 - 0x8000_0000_0000_0000u128) };
    let ds: u128 = if d <= 0x8000_0000_0000_0000 { d as u128 } else { 0x1_0000_0000_0000_0000u128 - (d as u128 - 0x8000_0000_0000_0000u128) };
    32 + cs + ds <= p.len() as u128
}

fn read_le_u64(p: &[u8], at: usize) -> (r: u64)
    requires
        at + 8 <= p@.len(),
    ensures
        r == le_u64(p@, at as int),
{
    p[at] as u64 + p[at + 1] as u64 * 0x100 + p[at + 2] as u64 * 0x1_0000 + p[at + 3] as u64 * 0x100_0000
        + p[at + 4] as u64 * 0x1_0000_0000 + p[at + 5] as u64 * 0x100_0000_0000 + p[at + 6] as u64
        * 0x1_0000_0000_0000 + p[at + 7] as u64 * 0x100_0000_0000_0000
}

/// A prepared version: either the content is already in the chain, or a new version with the
/// object (name and payload) still to be written.
pub enum Prepared {
    Dedup(String),
    New { version: Version, object: (String, Vec<u8>) },
}

impl Prepared {
    /// The content hash a prepared version stands for.
    pub open spec fn hash_spec(&self) -> Seq<char> {
        match self {
            Prepared::Dedup(h) => h@,
            Prepared::New { version, .. } => version.hash@,
        }
    }

    /// Content hash of the prepared version.
    pub fn hash(&self) -> (r: &str)
        ensures
            r@ == self.hash_spec(),
    {
        match self {
            Prepared::Dedup(h) => h.as_str(),
            Prepared::New { version, .. } => version.hash.as_str(),
        }
    }
}

/// Payloads that are already compressed (PNG, zip, zstd): patches of them come out near full
/// size.
pub open spec fn looks_compressed_spec(b: Seq<u8>) -> bool {
    (b.len() >= 4 && b[0] == 0x89 && b[1] == 0x50 && b[2] == 0x4E && b[3] == 0x47)
        || (b.len() >= 4 && b[0] == 0x50 && b[1] == 0x4B && b[2] == 0x03 && b[3] == 0x04)
        || (b.len() >= 4 && b[0] == 0x28 && b[1] == 0xB5 && b[2] == 0x2F && b[3] == 0xFD)
}

/// Whether `bytes` start with the PNG, zip or zstd signature.
pub fn looks_compressed(bytes: &[u8]) -> (r: bool)
    ensures
        r == looks_compressed_spec(bytes@),
{
    bytes.len() >= 4 && ((bytes[0] == 0x89 && bytes[1] == 0x50 && bytes[2] == 0x4E && bytes[3] == 0x47)
        || (bytes[0] == 0x50 && bytes[1] == 0x4B && bytes[2] == 0x03 && bytes[3] == 0x04)
        || (bytes[0] == 0x28 && bytes[1] == 0xB5 && bytes[2] == 0x2F && bytes[3] == 0xFD))
}

/// Per-stream storage knobs: the zstd level of full snapshots, and the size below which a
/// stream is always stored full.
pub struct StoreOpts {
    pub zstd_level: i32,
    pub patch_floor: usize,
}

/// Whether some version of `chain` already holds content `h`.
pub open spec fn holds(chain: Option<Seq<Version>>, h: Seq<char>) -> bool {
    chain matches Some(c) && exists|i: int| 0 <= i < c.len() && (#[trigger] c[i]).hash@ == h
}

/// The head a new version of `len` bytes would be patched against: the chain's last version,
/// when the content is large enough and not already compressed, and one more patch stays within
/// `max`.
pub open spec fn patch_head_spec(chain: Option<Seq<Version>>, len: nat, compressed: bool, floor: nat, max: nat) -> Option<Version> {
    if len < floor || compressed {
        None
    } else {
        match chain {
            Some(c) => if c.len() > 0 && c.last().chain_len + 1 <= max {
                Some(c.last())
            } else {
                None
            },
            None => None,
        }
    }
}

/// Whether the patch from `base` to `target` rebuilds `target`.
pub open spec fn patch_round_trips(base: Seq<u8>, target: Seq<u8>) -> bool {
    bspatch_output(bsdiff_patch(base, target), base) == target
}

/// The zstd level for a stream: already-compressed payloads and tiles get the fastest level,
/// everything else level 3.
pub open spec fn level_for(key: Seq<char>, bytes: Seq<u8>) -> i32 {
    if looks_compressed_spec(bytes) || crate::chains::first_at(key, ":tile:"@, 0) is Some {
        1
    } else {
        3
    }
}

/// Whether a prepared result is what storing `bytes` under a chain calls for.
pub open spec fn prepared_for(
    chain: Option<Seq<Version>>,
    max: nat,
    bytes: Seq<u8>,
    opts_level: i32,
    floor: nat,
    head: Option<Seq<u8>>,
    p: Prepared,
) -> bool {
    let h = hash_text(bytes);
    let cand = patch_head_spec(chain, bytes.len(), looks_compressed_spec(bytes), floor, max);
    if holds(chain, h) {
        p matches Prepared::Dedup(d) && d@ == h
    } else {
        match p {
            Prepared::Dedup(_) => false,
            Prepared::New { version, object } => {
                &&& version.hash@ == h
                &&& object.0@ == version.name()
                &&& match version.base {
                    Some(b) => {
                        &&& cand matches Some(hv)
                        &&& head matches Some(base)
                        &&& b@ == hv.hash@
                        &&& version.chain_len == hv.chain_len + 1
                        &&& object.1@ == bsdiff_patch(base, bytes)
                        &&& patch_round_trips(base, bytes)
                        &&& patch_header_fits(object.1@)
                    },
                    None => {
                        &&& version.chain_len == 0
                        &&& object.1@ == zstd_frame(bytes, opts_level)
                        &&& zstd_content(object.1@) == bytes
                        &&& !(cand is Some && (head matches Some(base) && patch_round_trips(base, bytes)))
                    },
                }
            },
        }
    }
}

fn holds_exec(chain: &Vec<Version>, h: &str) -> (r: bool)
    ensures
        r == exists|i: int| 0 <= i < chain@.len() && (#[trigger] chain@[i]).hash@ == h@,
{
    let mut i: usize = 0;
    while i < chain.len()
        invariant
            i <= chain.len(),
            forall|k: int| 0 <= k < i ==> (#[trigger] chain@[k]).hash@ != h@,
        decreases chain.len() - i,
    {
        if str_eq(chain[i].hash.as_str(), h) {
            return true;
        }
        i += 1;
    }
    false
}

fn vec_eq(a: &Vec<u8>, b: &[u8]) -> (r: bool)
    ensures
        r == (a@ == b@),
{
    if a.len() != b.len() {
        return false;
    }
    let mut i: usize = 0;
    while i < a.len()
        invariant
            a.len() == b.len(),
            i <= a.len(),
            forall|k: int| 0 <= k < i ==> a@[k] == b@[k],
        decreases a.len() - i,
    {
        if a[i] != b[i] {
            return false;
        }
        i += 1;
    }
    proof {
        assert(a@ =~= b@);
    }
    true
}

impl Repo {
    /// The version a new version of `key` holding `bytes` would be patched against, when a
    /// patch is worth trying; the caller reconstructs its content and hands it to
    /// [`Repo::prepare_stream`].
    pub fn patch_head(&self, key: &str, bytes: &[u8], patch_floor: usize) -> (r: Option<Version>)
        requires
            self.wf(),
        ensures
            !holds(self.chains.chain_spec(key@), hash_text(bytes@)) ==> match patch_head_spec(
                self.chains.chain_spec(key@),
                bytes@.len(),
                looks_compressed_spec(bytes@),
                patch_floor as nat,
                self.config.delta_chain_max as nat,
            ) {
                Some(hv) => r matches Some(v) && same_version(v, hv),
                None => r is None,
            },
            holds(self.chains.chain_spec(key@), hash_text(bytes@)) ==> r is None,
    {
        let hash = hash_bytes(bytes);
        let chain = self.chains.chain(key);
        match chain {
            None => None,
            Some(c) => {
                if holds_exec(&c, hash.as_str()) {
                    return None;
                }
                proof {
                    let w = self.chains.chain_spec(key@)->0;
                    if holds(self.chains.chain_spec(key@), hash@) {
                        let i = choose|i: int| 0 <= i < w.len() && (#[trigger] w[i]).hash@ == hash@;
                        assert(same_version(c@[i], w[i]));
                    }
                    if c@.len() > 0 {
                        assert(same_version(c@[c@.len() - 1], w[w.len() - 1]));
                    }
                }
                if bytes.len() < patch_floor || looks_compressed(bytes) || c.len() == 0 {
                    return None;
                }
                let last = &c[c.len() - 1];
                if last.chain_len < usize::MAX && last.chain_len + 1 <= self.config.delta_chain_max {
                    Some(copy_version(last))
                } else {
                    None
                }
            },
        }
    }

    /// Compute the next version of `key` for `bytes` without changing anything: `Dedup` when
    /// the chain already holds this content; otherwise a patch against the head when one is
    /// called for ([`Repo::patch_head`]), its content `head` was reconstructed, and the patch
    /// rebuilds `bytes`; otherwise a full zstd snapshot at `opts.zstd_level`. Failures of the
    /// compressor or the patcher are returned as `Io`.
    pub fn prepare_stream_opts(&self, key: &str, bytes: &[u8], opts: StoreOpts, head: Option<Vec<u8>>) -> (r: Result<Prepared, KvcError>)
        requires
            self.wf(),
            head matches Some(b) ==> b@.len() <= 0x7fff_ffff,
        ensures
            r matches Ok(p) ==> prepared_for(
                self.chains.chain_spec(key@),
                self.config.delta_chain_max as nat,
                bytes@,
                opts.zstd_level,
                opts.patch_floor as nat,
                match head {
                    Some(b) => Some(b@),
                    None => None,
                },
                p,
            ),
            holds(self.chains.chain_spec(key@), hash_text(bytes@)) ==> r is Ok,
            1 <= opts.zstd_level <= 19 ==> r is Ok,
    {
        let hash = hash_bytes(bytes);
        let ghost ch = self.chains.chain_spec(key@);
        let chain = self.chains.chain(key);
        let mut head_version: Option<Version> = None;
        match &chain {
            None => {},
            Some(c) => {
                if holds_exec(c, hash.as_str()) {
                    proof {
                        let w = ch->0;
                        let i = choose|i: int| 0 <= i < c@.len() && (#[trigger] c@[i]).hash@ == hash@;
                        assert(same_version(c@[i], w[i]));
                    }
                    return Ok(Prepared::Dedup(hash));
                }
                if c.len() > 0 {
                    head_version = Some(copy_version(&c[c.len() - 1]));
                }
            },
        }
        proof {
            if holds(ch, hash@) {
                let w = ch->0;
                let c = chain->0;
                let i = choose|i: int| 0 <= i < w.len() && (#[trigger] w[i]).hash@ == hash@;
                assert(same_version(c@[i], w[i]));
            }
        }
        let ghost cand = patch_head_spec(
            ch,
            bytes@.len(),
            looks_compressed_spec(bytes@),
            opts.patch_floor as nat,
            self.config.delta_chain_max as nat,
        );
        let mut patched: Option<(Version, (String, Vec<u8>))> = None;
        if !(bytes.len() < opts.patch_floor || looks_compressed(bytes)) {
            match (head_version, head) {
                (Some(h), Some(base)) => {
                    if h.chain_len < usize::MAX && h.chain_len + 1 <= self.config.delta_chain_max {
                        let patch = match bsdiff(base.as_slice(), bytes) {
                            Ok(p) => p,
                            Err(e) => return Err(KvcError::Io(e)),
                        };
                        proof {
                            assert(patch@ == bsdiff_patch(base@, bytes@));
                        }
                        let check = match bspatch(patch.as_slice(), base.as_slice()) {
                            Ok(c) => c,
                            Err(e) => return Err(KvcError::Io(e)),
                        };
                        if vec_eq(&check, bytes) {
                            let version = Version {
                                hash: hash.clone(),
                                base: Some(h.hash.clone()),
                                chain_len: h.chain_len + 1,
                            };
                            let name = version.object_name();
                            patched = Some((version, (name, patch)));
                        }
                    }
                },
                _ => {},
            }
        }
        match patched {
            Some((version, object)) => Ok(Prepared::New { version, object }),
            None => {
                let compressed = match zstd_encode(bytes, opts.zstd_level) {
                    Ok(c) => c,
                    Err(e) => return Err(KvcError::Io(e)),
                };
                let version = Version { hash, base: None, chain_len: 0 };
                let name = version.object_name();
                Ok(Prepared::New { version, object: (name, compressed) })
            },
        }
    }

    /// [`Repo::prepare_stream_opts`] with the stream's own knobs: level 1 for
    /// already-compressed payloads and tiles, 3 otherwise, and a 64 KiB patch floor.
    pub fn prepare_stream(&self, key: &str, bytes: &[u8], head: Option<Vec<u8>>) -> (r: Result<Prepared, KvcError>)
        requires
            self.wf(),
            head matches Some(b) ==> b@.len() <= 0x7fff_ffff,
        ensures
            r matches Ok(p) ==> prepared_for(
                self.chains.chain_spec(key@),
                self.config.delta_chain_max as nat,
                bytes@,
                level_for(key@, bytes@),
                65536,
                match head {
                    Some(b) => Some(b@),
                    None => None,
                },
                p,
            ),
            r is Ok,
    {
        proof {
            reveal_strlit(":tile:");
        }
        let k = chars_of(key);
        let tile = chars_of(":tile:");
        let level: i32 = if looks_compressed(bytes) || find_from(&k, &tile).is_some() {
            1
        } else {
            3
        };
        self.prepare_stream_opts(key, bytes, StoreOpts { zstd_level: level, patch_floor: 65536 }, head)
    }

    /// Apply a prepared version: a new one is appended to `key`'s chain. Returns the content
    /// hash and, for a new version, the object the caller must write (content-addressed, so
    /// writing it again is harmless).
    pub fn commit_prepared(&mut self, key: &str, prepared: Prepared) -> (r: (String, Option<(String, Vec<u8>)>))
        requires
            old(self).wf(),
        ensures
            final(self).wf(),
            r.0@ == prepared.hash_spec(),
            match prepared {
                Prepared::Dedup(_) => r.1 is None && final(self).chains == old(self).chains,
                Prepared::New { version, object } => {
                    &&& r.1 == Some(object)
                    &&& forall|k: Seq<char>|
                        #[trigger] final(self).chains.chain_spec(k) == if k == key@ {
                            Some(
                                match old(self).chains.chain_spec(key@) {
                                    Some(v) => v,
                                    None => Seq::empty(),
                                }.push(version),
                            )
                        } else {
                            old(self).chains.chain_spec(k)
                        }
                },
            },
            final(self).root == old(self).root,
            final(self).config == old(self).config,
            final(self).index == old(self).index,
            final(self).commits == old(self).commits,
            final(self).branches == old(self).branches,
            final(self).stashes == old(self).stashes,
    {
        match prepared {
            Prepared::Dedup(hash) => (hash, None),
            Prepared::New { version, object } => {
                let hash = version.hash.clone();
                self.chains.push(String::from_str(key), version);
                (hash, Some(object))
            },
        }
    }

    /// Store `bytes` as the next version of `key`: prepare, then commit. Returns the content
    /// hash and the object the caller must write, if any.
    pub fn store_stream(&mut self, key: &str, bytes: &[u8], head: Option<Vec<u8>>) -> (r: Result<(String, Option<(String, Vec<u8>)>), KvcError>)
        requires
            old(self).wf(),
            head matches Some(b) ==> b@.len() <= 0x7fff_ffff,
        ensures
            final(self).wf(),
            r matches Ok(v) ==> v.0@ == hash_text(bytes@),
            r is Ok,
            !holds(old(self).chains.chain_spec(key@), hash_text(bytes@)) ==> (final(self).chains.chain_spec(key@) matches Some(c)
                && c.len() > 0 && c.drop_last() == (match old(self).chains.chain_spec(key@) {
                    Some(v) => v,
                    None => Seq::empty(),
                }) && c.last().hash@ == hash_text(bytes@) && c.last().chain_len <= old(self).config.delta_chain_max),
            holds(old(self).chains.chain_spec(key@), hash_text(bytes@)) ==> (r matches Ok(v) && v.1 is None)
                && final(self).chains == old(self).chains,
            (r matches Ok(v) && v.1 is Some) ==> (final(self).chains.chain_spec(key@) matches Some(c) && c.len() > 0
                && c.last().hash@ == hash_text(bytes@)),
            forall|k: Seq<char>| k != key@ ==> #[trigger] final(self).chains.chain_spec(k) == old(self).chains.chain_spec(k),
            final(self).root == old(self).root,
            final(self).config == old(self).config,
            final(self).index == old(self).index,
            final(self).commits == old(self).commits,
            final(self).branches == old(self).branches,
            final(self).stashes == old(self).stashes,
    {
        let prepared = match self.prepare_stream(key, bytes, head) {
            Ok(p) => p,
            Err(e) => return Err(e),
        };
        Ok(self.commit_prepared(key, prepared))
    }
}

/// The chain of `key` after committing `items` in order onto chain `c`: each new version
/// prepared for `key` is appended.
pub open spec fn batch_chain(c: Option<Seq<Version>>, key: Seq<char>, items: Seq<(String, Prepared)>) -> Option<Seq<Version>>
    decreases items.len(),
{
    if items.len() == 0 {
        c
    } else {
        let before = batch_chain(c, key, items.drop_last());
        match items.last().1 {
            Prepared::New { version, .. } => if items.last().0@ == key {
                Some(
                    match before {
                        Some(v) => v,
                        None => Seq::empty(),
                    }.push(version),
                )
            } else {
                before
            },
            Prepared::Dedup(_) => before,
        }
    }
}

/// Whether some new version among `items` comes with an object named `name` holding `data`.
pub open spec fn carries_object(items: Seq<(String, Prepared)>, name: Seq<char>, data: Seq<u8>) -> bool {
    exists|i: int| 0 <= i < items.len() && match (#[trigger] items[i]).1 {
        Prepared::New { object, .. } => object.0@ == name && object.1@ == data,
        Prepared::Dedup(_) => false,
    }
}

impl Repo {
    /// Commit prepared versions in order (see [`Repo::commit_prepared`]): gives each item's
    /// content hash, and the objects to write, each name once (the first payload met under it;
    /// content addressing makes the others the same).
    pub fn commit_prepared_batch(&mut self, items: Vec<(String, Prepared)>) -> (r: (Vec<String>, Vec<(String, Vec<u8>)>))
        requires
            old(self).wf(),
        ensures
            final(self).wf(),
            r.0@.len() == items@.len(),
            forall|i: int| 0 <= i < items@.len() ==> (#[trigger] r.0@[i])@ == items@[i].1.hash_spec(),
            forall|k: Seq<char>| #[trigger] final(self).chains.chain_spec(k) == batch_chain(old(self).chains.chain_spec(k), k, items@),
            forall|a: int, b: int| 0 <= a < b < r.1@.len() ==> (#[trigger] r.1@[a]).0@ != (#[trigger] r.1@[b]).0@,
            forall|j: int| 0 <= j < r.1@.len() ==> carries_object(items@, (#[trigger] r.1@[j]).0@, r.1@[j].1@),
            forall|i: int| 0 <= i < items@.len() ==> ((#[trigger] items@[i]).1 matches Prepared::New { object, .. } ==> exists|j: int|
                0 <= j < r.1@.len() && r.1@[j].0@ == object.0@),
            final(self).root == old(self).root,
            final(self).config == old(self).config,
            final(self).index == old(self).index,
            final(self).commits == old(self).commits,
            final(self).branches == old(self).branches,
            final(self).stashes == old(self).stashes,
    {
        let ghost iv = items@;
        let ghost start = *self;
        let n_items = items.len();
        assert(iv.len() == n_items);
        let mut hashes: Vec<String> = Vec::new();
        let mut objects: Vec<(String, Vec<u8>)> = Vec::new();
        let mut items = items;
        let mut rev: Vec<(String, Prepared)> = Vec::new();
        while items.len() > 0
            invariant
                rev@.len() + items@.len() == iv.len(),
                forall|j: int| 0 <= j < items@.len() ==> #[trigger] items@[j] == iv[j],
                forall|j: int| 0 <= j < rev@.len() ==> #[trigger] rev@[j] == iv[iv.len() - 1 - j],
            decreases items@.len(),
        {
            let it = items.pop().unwrap();
            rev.push(it);
        }
        let mut i: usize = 0;
        while rev.len() > 0
            invariant
                self.wf(),
                i + rev@.len() == iv.len(),
                iv.len() <= usize::MAX,
                forall|j: int| 0 <= j < rev@.len() ==> #[trigger] rev@[j] == iv[iv.len() - 1 - j],
                hashes@.len() == i,
                forall|j: int| 0 <= j < i ==> (#[trigger] hashes@[j])@ == iv[j].1.hash_spec(),
                forall|k: Seq<char>| #[trigger] self.chains.chain_spec(k) == batch_chain(start.chains.chain_spec(k), k, iv.take(i as int)),
                forall|a: int, b: int| 0 <= a < b < objects@.len() ==> (#[trigger] objects@[a]).0@ != (#[trigger] objects@[b]).0@,
                forall|j: int| 0 <= j < objects@.len() ==> carries_object(iv, (#[trigger] objects@[j]).0@, objects@[j].1@),
                forall|t: int| 0 <= t < i ==> ((#[trigger] iv[t]).1 matches Prepared::New { object, .. } ==> exists|j: int|
                    0 <= j < objects@.len() && objects@[j].0@ == object.0@),
                self.root == start.root,
                self.config == start.config,
                self.index == start.index,
                self.commits == start.commits,
                self.branches == start.branches,
                self.stashes == start.stashes,
            decreases rev@.len(),
        {
            let (key, p) = rev.pop().unwrap();
            assert((key, p) == iv[i as int]);
            let ghost pv = p;
            let ghost before_chains = self.chains;
            let (h, obj) = self.commit_prepared(key.as_str(), p);
            hashes.push(h);
            let ghost objs_before = objects@;
            match obj {
                Some((name, data)) => {
                    let mut seen = false;
                    let mut j: usize = 0;
                    while j < objects.len()
                        invariant
                            j <= objects@.len(),
                            seen <==> exists|q: int| 0 <= q < j && (#[trigger] objects@[q]).0@ == name@,
                        decreases objects@.len() - j,
                    {
                        if crate::text::str_eq(objects[j].0.as_str(), name.as_str()) {
                            seen = true;
                        }
                        j += 1;
                    }
                    if !seen {
                        objects.push((name, data));
                    }
                },
                None => {},
            }
            proof {
                assert(iv.take(i + 1).drop_last() =~= iv.take(i as int));
                assert(iv.take(i + 1).last() == iv[i as int]);
                assert forall|j: int| 0 <= j < objects@.len() implies carries_object(iv, (#[trigger] objects@[j]).0@, objects@[j].1@) by {
                    if j < objs_before.len() {
                        assert(objects@[j] == objs_before[j]);
                    } else {
                        assert(iv[i as int].1 == pv);
                    }
                }
                assert forall|t: int| 0 <= t < i + 1 implies ((#[trigger] iv[t]).1 matches Prepared::New { object, .. } ==> exists|j: int|
                    0 <= j < objects@.len() && objects@[j].0@ == object.0@) by {
                    if t < i {
                        match iv[t].1 {
                            Prepared::New { object, .. } => {
                                let j = choose|j: int| 0 <= j < objs_before.len() && objs_before[j].0@ == object.0@;
                                assert(objects@[j] == objs_before[j]);
                            },
                            Prepared::Dedup(_) => {},
                        }
                    } else {
                        match pv {
                            Prepared::New { object, .. } => {
                                if exists|q: int| 0 <= q < objs_before.len() && (#[trigger] objs_before[q]).0@ == object.0@ {
                                    let q = choose|q: int| 0 <= q < objs_before.len() && (#[trigger] objs_before[q]).0@ == object.0@;
                                    assert(objects@[q] == objs_before[q]);
                                } else {
                                    assert(objects@[objs_before.len() as int].0@ == object.0@);
                                }
                            },
                            Prepared::Dedup(_) => {},
                        }
                    }
                }
                assert forall|a: int, b: int| 0 <= a < b < objects@.len() implies (#[trigger] objects@[a]).0@ != (#[trigger] objects@[b]).0@ by {
                    if b < objs_before.len() {
                        assert(objects@[a] == objs_before[a]);
                        assert(objects@[b] == objs_before[b]);
                    } else {
                        assert(objects@[a] == objs_before[a]);
                    }
                }
            }
            i += 1;
        }
        proof {
            assert(iv.take(iv.len() as int) =~= iv);
        }
        (hashes, objects)
    }
}

/// Where the first version of `chain` holding content `h` sits.
pub open spec fn version_index(chain: Seq<Version>, h: Seq<char>) -> Option<int>
    decreases chain.len(),
{
    if chain.len() == 0 {
        None
    } else {
        match version_index(chain.drop_last(), h) {
            Some(i) => Some(i),
            None => if chain.last().hash@ == h {
                Some(chain.len() - 1)
            } else {
                None
            },
        }
    }
}

/// Following a version's base links back to its full snapshot.
pub enum Walk {
    /// The positions visited, the version asked for first and the full snapshot last.
    Found(Seq<int>),
    /// A content hash the chain does not hold.
    Missing(Seq<char>),
    /// The links loop.
    Cyclic,
}

/// The walk from the version holding `h` back to its snapshot, with `fuel` links to spend.
pub open spec fn walk(chain: Seq<Version>, h: Seq<char>, fuel: nat) -> Walk
    decreases fuel,
{
    match version_index(chain, h) {
        None => Walk::Missing(h),
        Some(i) => match chain[i].base {
            None => Walk::Found(seq![i]),
            Some(b) => if fuel == 0 {
                Walk::Cyclic
            } else {
                match walk(chain, b@, (fuel - 1) as nat) {
                    Walk::Found(p) => Walk::Found(seq![i] + p),
                    other => other,
                }
            },
        },
    }
}

/// The text `key@hash` that names a version in a `MissingObject` error.
pub open spec fn version_label(key: Seq<char>, h: Seq<char>) -> Seq<char> {
    key + "@"@ + h
}

fn find_version(chain: &Vec<Version>, h: &str) -> (r: Option<usize>)
    ensures
        match r {
            Some(i) => version_index(chain@, h@) == Some(i as int) && i < chain.len(),
            None => version_index(chain@, h@) is None,
        },
{
    let mut i: usize = 0;
    while i < chain.len()
        invariant
            i <= chain.len(),
            version_index(chain@.take(i as int), h@) is None,
        decreases chain.len() - i,
    {
        proof {
            assert(chain@.take(i + 1).drop_last() =~= chain@.take(i as int));
        }
        if str_eq(chain[i].hash.as_str(), h) {
            proof {
                lemma_version_index_prefix(chain@, h@, i + 1);
            }
            return Some(i);
        }
        i += 1;
    }
    proof {
        assert(chain@.take(chain@.len() as int) =~= chain@);
    }
    None
}

proof fn lemma_version_index_prefix(chain: Seq<Version>, h: Seq<char>, n: int)
    requires
        0 <= n <= chain.len(),
        version_index(chain.take(n), h) is Some,
    ensures
        version_index(chain, h) == version_index(chain.take(n), h),
    decreases chain.len() - n,
{
    if n < chain.len() {
        assert(chain.take(n + 1).drop_last() =~= chain.take(n));
        lemma_version_index_prefix(chain, h, n + 1);
    } else {
        assert(chain.take(n) =~= chain);
    }
}

impl Repo {
    /// The versions to read to rebuild version `hash` of `key`: the version itself first, then
    /// each base in turn, ending at a full snapshot. `NotTracked` when the key has no chain;
    /// `MissingObject` naming `key@h` for the first content hash on the way that the chain does
    /// not hold; `Corrupt` when the base links loop.
    pub fn restore_path(&self, key: &str, hash: &str) -> (r: Result<Vec<Version>, KvcError>)
        requires
            self.wf(),
        ensures
            self.chains.chain_spec(key@) is None ==> (r matches Err(e) && e matches KvcError::NotTracked(m) && m@ == key@),
            self.chains.chain_spec(key@) matches Some(c) ==> match walk(c, hash@, c.len()) {
                Walk::Found(p) => r matches Ok(v) && v@.len() == p.len() && forall|j: int|
                    0 <= j < p.len() ==> same_version(#[trigger] v@[j], c[p[j]]),
                Walk::Missing(h) => r matches Err(e) && e matches KvcError::MissingObject(m) && m@ == version_label(key@, h),
                Walk::Cyclic => r matches Err(e) && e is Corrupt,
            },
    {
        let chain = match self.chains.chain(key) {
            Some(c) => c,
            None => return Err(KvcError::NotTracked(String::from_str(key))),
        };
        let ghost c = self.chains.chain_spec(key@)->0;
        proof {
            assert forall|i: int| 0 <= i < c.len() implies #[trigger] chain@[i].hash@ == c[i].hash@ && opt_view(chain@[i].base) == opt_view(c[i].base) by {
                assert(same_version(chain@[i], c[i]));
            }
            lemma_same_index(chain@, c);
        }
        let mut path: Vec<Version> = Vec::new();
        let mut cur: String = String::from_str(hash);
        let mut fuel: usize = chain.len();
        let ghost mut visited: Seq<int> = Seq::empty();
        loop
            invariant_except_break
                self.chains.chain_spec(key@) == Some(c),
                same_versions(chain@, c),
                same_versions_upto(chain@, c),
                fuel <= chain@.len(),
                path@.len() == visited.len(),
                forall|j: int| 0 <= j < visited.len() ==> 0 <= #[trigger] visited[j] < c.len() && same_version(path@[j], c[visited[j]]),
                forall|p: Seq<int>| walk(c, cur@, fuel as nat) == Walk::Found(p) ==> walk(c, hash@, c.len()) == Walk::Found(visited + p),
                walk(c, cur@, fuel as nat) is Missing ==> walk(c, hash@, c.len()) == walk(c, cur@, fuel as nat),
                walk(c, cur@, fuel as nat) is Cyclic ==> walk(c, hash@, c.len()) is Cyclic,
            ensures
                self.chains.chain_spec(key@) == Some(c),
                match walk(c, hash@, c.len()) {
                    Walk::Found(p) => path@.len() == p.len() && forall|j: int|
                        0 <= j < p.len() ==> same_version(#[trigger] path@[j], c[p[j]]),
                    _ => false,
                },
            decreases fuel,
        {
            let i = match find_version(&chain, cur.as_str()) {
                Some(i) => i,
                None => {
                    proof {
                        lemma_same_index(chain@, c);
                    }
                    let mut m = String::from_str(key);
                    m.append("@");
                    m.append(cur.as_str());
                    proof {
                        reveal_strlit("@");
                    }
                    return Err(KvcError::MissingObject(m));
                },
            };
            proof {
                lemma_same_index(chain@, c);
                assert(same_version(chain@[i as int], c[i as int]));
            }
            let v = copy_version(&chain[i]);
            match &chain[i].base {
                None => {
                    let ghost before = path@;
                    path.push(v);
                    proof {
                        let old_visited = visited;
                        visited = visited.push(i as int);
                        assert(walk(c, cur@, fuel as nat) == Walk::Found(seq![i as int]));
                        assert(visited =~= old_visited + seq![i as int]);
                        assert(walk(c, hash@, c.len()) == Walk::Found(visited));
                        assert forall|j: int| 0 <= j < visited.len() implies same_version(#[trigger] path@[j], c[visited[j]]) by {
                            if j < old_visited.len() {
                                assert(path@[j] == before[j]);
                            }
                        }
                    }
                    break;
                },
                Some(b) => {
                    if fuel == 0 {
                        return Err(KvcError::Corrupt(String::from_str("delta chain loops")));
                    }
                    let nb = b.clone();
                    let ghost before = path@;
                    path.push(v);
                    proof {
                        let old_visited = visited;
                        visited = visited.push(i as int);
                        assert(walk(c, cur@, fuel as nat) == match walk(c, nb@, (fuel - 1) as nat) {
                            Walk::Found(p) => Walk::Found(seq![i as int] + p),
                            other => other,
                        });
                        assert forall|j: int| 0 <= j < visited.len() implies 0 <= #[trigger] visited[j] < c.len() && same_version(path@[j], c[visited[j]]) by {
                            if j < old_visited.len() {
                                assert(path@[j] == before[j]);
                            }
                        }
                        assert forall|p: Seq<int>| walk(c, nb@, (fuel - 1) as nat) == Walk::Found(p) implies walk(c, hash@, c.len()) == Walk::Found(visited + p) by {
                            assert(walk(c, cur@, fuel as nat) == Walk::Found(seq![i as int] + p));
                            assert(old_visited + (seq![i as int] + p) =~= visited + p);
                        }
                    }
                    cur = nb;
                    fuel = fuel - 1;
                },
            }
        }
        Ok(path)
    }
}

/// Two chains agree on every version's hash and base.
pub open spec fn same_versions_upto(a: Seq<Version>, b: Seq<Version>) -> bool {
    a.len() == b.len() && forall|i: int| 0 <= i < a.len() ==> #[trigger] a[i].hash@ == b[i].hash@ && opt_view(a[i].base) == opt_view(b[i].base)
}

proof fn lemma_same_index(a: Seq<Version>, b: Seq<Version>)
    requires
        same_versions_upto(a, b),
    ensures
        forall|h: Seq<char>| #[trigger] version_index(a, h) == version_index(b, h),
    decreases a.len(),
{
    if a.len() > 0 {
        assert(same_versions_upto(a.drop_last(), b.drop_last())) by {
            assert forall|i: int| 0 <= i < a.drop_last().len() implies #[trigger] a.drop_last()[i].hash@ == b.drop_last()[i].hash@ && opt_view(a.drop_last()[i].base) == opt_view(b.drop_last()[i].base) by {
                assert(a.drop_last()[i] == a[i]);
                assert(b.drop_last()[i] == b[i]);
                assert(a[i].hash@ == b[i].hash@ && opt_view(a[i].base) == opt_view(b[i].base));
            }
        }
        lemma_same_index(a.drop_last(), b.drop_last());
        assert(a.last() == a[a.len() - 1]);
        assert(b.last() == b[b.len() - 1]);
        assert(a[a.len() - 1].hash@ == b[b.len() - 1].hash@);
        assert forall|h: Seq<char>| #[trigger] version_index(a, h) == version_index(b, h) by {
            assert(version_index(a.drop_last(), h) == version_index(b.drop_last(), h));
        }
    }
}

/// The content the payloads `raws` of a restore path rebuild: the last payload is a snapshot,
/// and each earlier one a patch applied onto what the rest rebuilt.
pub open spec fn rebuilt(raws: Seq<Seq<u8>>) -> Seq<u8>
    decreases raws.len(),
{
    if raws.len() == 0 {
        Seq::empty()
    } else if raws.len() == 1 {
        zstd_content(raws[0])
    } else {
        bspatch_output(raws[0], rebuilt(raws.skip(1)))
    }
}

/// Whether the payloads `raws` of a restore path are what the store writes: the last one a zstd
/// frame, and each earlier one a bsdiff patch (with a sound header) made against the content
/// the rest rebuild.
pub open spec fn well_made(raws: Seq<Seq<u8>>) -> bool
    decreases raws.len(),
{
    if raws.len() == 0 {
        false
    } else if raws.len() == 1 {
        exists|d: Seq<u8>, level: i32| raws[0] == #[trigger] zstd_frame(d, level)
    } else {
        &&& patch_header_fits(raws[0])
        &&& exists|t: Seq<u8>| raws[0] == #[trigger] bsdiff_patch(rebuilt(raws.skip(1)), t)
        &&& well_made(raws.skip(1))
    }
}

/// Rebuild content from the payloads of a restore path, in path order (the requested version
/// first, its snapshot last). Decoder and patcher failures are returned as `Io`. A lone
/// snapshot that the compressor produced rebuilds exactly the content it was made from.
pub fn rebuild(raws: &Vec<Vec<u8>>) -> (r: Result<Vec<u8>, KvcError>)
    requires
        raws@.len() > 0,
    ensures
        r matches Ok(v) ==> v@ == rebuilt(raws@.map_values(|x: Vec<u8>| x@)),
        raws@.len() == 1 ==> forall|d: Seq<u8>, level: i32|
            raws@[0]@ == #[trigger] zstd_frame(d, level) ==> (r matches Ok(v) && v@ == d),
        well_made(raws@.map_values(|x: Vec<u8>| x@)) ==> r is Ok,
{
    let ghost rv = raws@.map_values(|x: Vec<u8>| x@);
    let n = raws.len();
    proof {
        assert(rv.skip(n - 1) =~= seq![rv[n - 1]]);
        if well_made(rv) {
            lemma_well_made_skip(rv, n - 1);
            assert(well_made(seq![rv[n - 1]]));
            let (d, level) = choose|d: Seq<u8>, level: i32| rv[n - 1] == #[trigger] zstd_frame(d, level);
            assert(raws@[n - 1]@ == zstd_frame(d, level));
        }
    }
    let mut out = match zstd_decode(raws[n - 1].as_slice()) {
        Ok(v) => v,
        Err(e) => return Err(KvcError::Io(e)),
    };
    proof {
        assert(rv.skip(n - 1) =~= seq![rv[n - 1]]);
    }
    let mut i: usize = n - 1;
    while i > 0
        invariant
            n == raws@.len(),
            rv == raws@.map_values(|x: Vec<u8>| x@),
            i < n,
            out@ == rebuilt(rv.skip(i as int)),
            well_made(rv) ==> well_made(rv.skip(i as int)),
        decreases i,
    {
        proof {
            let s = rv.skip(i - 1);
            assert(s.skip(1) =~= rv.skip(i as int));
            assert(s[0] == rv[i - 1]);
            if well_made(rv) {
                lemma_well_made_skip(rv, i - 1);
            }
        }
        if !header_fits(raws[i - 1].as_slice()) {
            return Err(KvcError::Io(String::from_str("patch corrupted")));
        }
        let next = match bspatch(raws[i - 1].as_slice(), out.as_slice()) {
            Ok(v) => v,
            Err(e) => return Err(KvcError::Io(e)),
        };
        proof {
            let s = rv.skip(i - 1);
            assert(s.skip(1) =~= rv.skip(i as int));
            assert(s[0] == rv[i - 1]);
        }
        out = next;
        i -= 1;
    }
    proof {
        assert(rv.skip(0) =~= rv);
    }
    Ok(out)
}

proof fn lemma_well_made_skip(raws: Seq<Seq<u8>>, k: int)
    requires
        well_made(raws),
        0 <= k < raws.len(),
    ensures
        well_made(raws.skip(k)),
    decreases k,
{
    if k > 0 {
        lemma_well_made_skip(raws, k - 1);
        let s = raws.skip(k - 1);
        assert(s.skip(1) =~= raws.skip(k));
    } else {
        assert(raws.skip(0) =~= raws);
    }
}

/// A stored version is sound against the payloads written (`objects`, by object name) and the
/// contents stored (`contents`, by content hash): a snapshot's payload is a zstd frame of its
/// content, and a patch's payload is the bsdiff patch from its base's content that rebuilds its
/// own.
pub open spec fn sound_version(objects: Map<Seq<char>, Seq<u8>>, contents: Map<Seq<char>, Seq<u8>>, v: Version) -> bool {
    &&& contents.contains_key(v.hash@)
    &&& objects.contains_key(v.name())
    &&& match v.base {
        None => {
            &&& zstd_content(objects[v.name()]) == contents[v.hash@]
            &&& exists|l: i32| objects[v.name()] == #[trigger] zstd_frame(contents[v.hash@], l)
        },
        Some(b) => {
            &&& contents.contains_key(b@)
            &&& objects[v.name()] == bsdiff_patch(contents[b@], contents[v.hash@])
            &&& bspatch_output(objects[v.name()], contents[b@]) == contents[v.hash@]
            &&& patch_header_fits(objects[v.name()])
        },
    }
}

/// Every version of `chain` is sound, holds a content hash no earlier version holds, and, as a
/// patch, has its base held by an earlier version.
pub open spec fn sound_chain(chain: Seq<Version>, objects: Map<Seq<char>, Seq<u8>>, contents: Map<Seq<char>, Seq<u8>>) -> bool {
    forall|i: int| 0 <= i < chain.len() ==> sound_version(objects, contents, #[trigger] chain[i]) && version_index(chain, chain[i].hash@)
        == Some(i) && match chain[i].base {
        Some(b) => version_index(chain.take(i), b@) is Some,
        None => true,
    }
}

proof fn lemma_index_in_prefix(chain: Seq<Version>, h: Seq<char>, n: int)
    requires
        0 <= n <= chain.len(),
        version_index(chain.take(n), h) is Some,
    ensures
        version_index(chain, h) == version_index(chain.take(n), h),
        version_index(chain, h)->0 < n,
    decreases chain.len() - n,
{
    lemma_index_found(chain.take(n), h);
    if n < chain.len() {
        assert(chain.take(n + 1).drop_last() =~= chain.take(n));
        lemma_index_in_prefix(chain, h, n + 1);
    } else {
        assert(chain.take(n) =~= chain);
    }
}

proof fn lemma_sound_walk(chain: Seq<Version>, objects: Map<Seq<char>, Seq<u8>>, contents: Map<Seq<char>, Seq<u8>>, h: Seq<char>, fuel: nat)
    requires
        sound_chain(chain, objects, contents),
        version_index(chain, h) is Some,
        version_index(chain, h)->0 <= fuel,
    ensures
        walk(chain, h, fuel) is Found,
    decreases fuel,
{
    lemma_index_found(chain, h);
    let i = version_index(chain, h)->0;
    match chain[i].base {
        None => {},
        Some(b) => {
            lemma_index_in_prefix(chain, b@, i);
            lemma_sound_walk(chain, objects, contents, b@, (fuel - 1) as nat);
        },
    }
}

/// Every stored version reads back: in a sound chain, the restore path of any version the chain
/// holds is found, and the payloads read along it rebuild exactly the content stored under its
/// hash (and are what the store writes, so the rebuild succeeds).
pub proof fn lemma_read_back(chain: Seq<Version>, objects: Map<Seq<char>, Seq<u8>>, contents: Map<Seq<char>, Seq<u8>>, h: Seq<char>)
    requires
        sound_chain(chain, objects, contents),
        version_index(chain, h) is Some,
    ensures
        walk(chain, h, chain.len()) matches Walk::Found(p) && contents.contains_key(h)
            && rebuilt(path_payloads(chain, objects, p)) == contents[h] && well_made(path_payloads(chain, objects, p)),
{
    lemma_index_found(chain, h);
    lemma_sound_walk(chain, objects, contents, h, chain.len());
    lemma_sound_chain_restores(chain, objects, contents, h, chain.len());
}

/// The payloads read along a restore path `p` (indices into `chain`).
pub open spec fn path_payloads(chain: Seq<Version>, objects: Map<Seq<char>, Seq<u8>>, p: Seq<int>) -> Seq<Seq<u8>> {
    p.map_values(|j: int| objects[chain[j].name()])
}

proof fn lemma_index_found(chain: Seq<Version>, h: Seq<char>)
    ensures
        version_index(chain, h) matches Some(i) ==> 0 <= i < chain.len() && chain[i].hash@ == h,
    decreases chain.len(),
{
    if chain.len() > 0 {
        lemma_index_found(chain.drop_last(), h);
    }
}

/// Every stored version can be restored: in a sound chain, the payloads read along the restore
/// path of a version rebuild exactly the content stored under its hash, and they are what the
/// store writes (so the rebuild succeeds).
pub proof fn lemma_sound_chain_restores(
    chain: Seq<Version>,
    objects: Map<Seq<char>, Seq<u8>>,
    contents: Map<Seq<char>, Seq<u8>>,
    h: Seq<char>,
    fuel: nat,
)
    requires
        sound_chain(chain, objects, contents),
        walk(chain, h, fuel) is Found,
    ensures
        walk(chain, h, fuel) matches Walk::Found(p) && p.len() > 0 && contents.contains_key(h)
            && rebuilt(path_payloads(chain, objects, p)) == contents[h] && well_made(path_payloads(chain, objects, p)),
    decreases fuel,
{
    lemma_index_found(chain, h);
    let i = version_index(chain, h)->0;
    let v = chain[i];
    assert(sound_version(objects, contents, v));
    match v.base {
        None => {
            let raws = path_payloads(chain, objects, seq![i]);
            assert(raws =~= seq![objects[v.name()]]);
        },
        Some(b) => {
            lemma_sound_chain_restores(chain, objects, contents, b@, (fuel - 1) as nat);
            let q = walk(chain, b@, (fuel - 1) as nat)->Found_0;
            let p = seq![i] + q;
            let raws = path_payloads(chain, objects, p);
            let rest = path_payloads(chain, objects, q);
            assert(raws.skip(1) =~= rest);
            assert(raws[0] == objects[v.name()]);
            assert(raws[0] == bsdiff_patch(rebuilt(raws.skip(1)), contents[h]));
        },
    }
}

proof fn lemma_last_indexed(c: Seq<Version>)
    requires
        c.len() > 0,
    ensures
        version_index(c, c.last().hash@) is Some,
{
    if version_index(c.drop_last(), c.last().hash@) is None {
    }
}

/// Storing keeps a chain sound: when the chain is sound, the head content handed in is the one
/// stored under the head's hash, and stored contents and written payloads are never replaced by
/// different ones (content addressing), then the chain with the prepared version appended is
/// sound against the payloads and contents with the new ones added.
pub proof fn lemma_store_keeps_sound(
    chain: Option<Seq<Version>>,
    objects: Map<Seq<char>, Seq<u8>>,
    contents: Map<Seq<char>, Seq<u8>>,
    max: nat,
    bytes: Seq<u8>,
    level: i32,
    floor: nat,
    head: Option<Seq<u8>>,
    p: Prepared,
)
    requires
        sound_chain(match chain { Some(c) => c, None => Seq::empty() }, objects, contents),
        prepared_for(chain, max, bytes, level, floor, head, p),
        contents.contains_key(hash_text(bytes)) ==> contents[hash_text(bytes)] == bytes,
        head matches Some(base) ==> (patch_head_spec(chain, bytes.len(), looks_compressed_spec(bytes), floor, max) matches Some(hv)
            ==> contents.contains_key(hv.hash@) && base == contents[hv.hash@]),
        p matches Prepared::New { object, .. } ==> (objects.contains_key(object.0@) ==> objects[object.0@] == object.1@),
    ensures
        p matches Prepared::New { version, object } ==> sound_chain(
            (match chain { Some(c) => c, None => Seq::empty() }).push(version),
            objects.insert(object.0@, object.1@),
            contents.insert(version.hash@, bytes),
        ),
{
    let c = match chain { Some(c) => c, None => Seq::<Version>::empty() };
    match p {
        Prepared::Dedup(_) => {},
        Prepared::New { version, object } => {
            let o2 = objects.insert(object.0@, object.1@);
            let c2 = contents.insert(version.hash@, bytes);
            assert forall|i: int| 0 <= i < c.len() implies sound_version(o2, c2, #[trigger] c[i]) by {
                assert(sound_version(objects, contents, c[i]));
                let v = c[i];
                assert(sound_version(objects, contents, v));
                assert(o2[v.name()] == objects[v.name()]);
                assert(c2[v.hash@] == contents[v.hash@]);
                match v.base {
                    Some(b) => {
                        assert(c2[b@] == contents[b@]);
                    },
                    None => {
                        let l = choose|l: i32| objects[v.name()] == #[trigger] zstd_frame(contents[v.hash@], l);
                        assert(o2[v.name()] == zstd_frame(c2[v.hash@], l));
                    },
                }
            }
            let c3 = c.push(version);
            assert(c3.take(c.len() as int) =~= c);
            match version.base {
                Some(b) => {
                    let hv = patch_head_spec(chain, bytes.len(), looks_compressed_spec(bytes), floor, max)->Some_0;
                    assert(c.len() > 0 && hv == c.last());
                    assert(sound_version(objects, contents, c[c.len() - 1]));
                    assert(c2[b@] == contents[b@]);
                    lemma_last_indexed(c);
                },
                None => {
                    assert(o2[version.name()] == zstd_frame(c2[version.hash@], level));
                },
            }
            assert(!holds(chain, hash_text(bytes)));
            assert(c3.drop_last() =~= c);
            assert(version_index(c, version.hash@) is None) by {
                lemma_index_found(c, version.hash@);
            }
            assert forall|i: int| 0 <= i < c3.len() implies sound_version(o2, c2, #[trigger] c3[i]) && version_index(c3, c3[i].hash@)
                == Some(i) && match c3[i].base {
                Some(b) => version_index(c3.take(i), b@) is Some,
                None => true,
            } by {
                if i < c.len() {
                    assert(c3[i] == c[i]);
                    assert(c3.take(i) =~= c.take(i));
                    assert(version_index(c, c[i].hash@) == Some(i));
                }
            }
        },
    }
}

/// Read-through cache of rebuilt tile bytes keyed by content hash, scoped to one diff request:
/// the two sides of a modified layer share most tiles, so each shared tile is rebuilt once.
pub struct TileCache {
    pub entries: Vec<(String, Vec<u8>)>,
}

impl TileCache {
    /// Well-formed: ordered by hash.
    pub open spec fn wf(&self) -> bool {
        keys_sorted(self.entries@)
    }

    /// The bytes cached for `hash`.
    pub open spec fn cached(&self, hash: Seq<char>) -> Option<Seq<u8>> {
        match table_get(self.entries@, hash) {
            Some(v) => Some(v@),
            None => None,
        }
    }

    /// An empty cache.
    pub fn new() -> (c: TileCache)
        ensures
            c.wf(),
            forall|h: Seq<char>| c.cached(h) is None,
    {
        TileCache { entries: Vec::new() }
    }

    /// The bytes of `hash`: from the cache when present (`rebuild` is not called), else what
    /// `rebuild` returns, which is cached when it succeeds.
    pub fn get_or_reconstruct<F: FnOnce() -> Result<Vec<u8>, KvcError>>(&mut self, hash: &str, rebuild: F) -> (r: Result<Vec<u8>, KvcError>)
        requires
            old(self).wf(),
            old(self).cached(hash@) is None ==> rebuild.requires(()),
        ensures
            final(self).wf(),
            old(self).cached(hash@) matches Some(b) ==> (r matches Ok(v) && v@ == b) && final(self).entries == old(self).entries,
            old(self).cached(hash@) is None ==> rebuild.ensures((), r) && match r {
                Ok(v) => forall|h: Seq<char>| #[trigger] final(self).cached(h) == if h == hash@ { Some(v@) } else { old(self).cached(h) },
                Err(_) => final(self).entries == old(self).entries,
            },
    {
        match table_find(&self.entries, hash) {
            Some(i) => Ok(copy_slice(self.entries[i].1.as_slice())),
            None => {
                let r = rebuild();
                match r {
                    Ok(v) => {
                        let keep = copy_slice(v.as_slice());
                        let ghost kv = keep;
                        let key = String::from_str(hash);
                        let ghost k = key;
                        table_insert(&mut self.entries, key, keep);
                        proof {
                            assert forall|h: Seq<char>| #[trigger] self.cached(h) == if h == hash@ { Some(v@) } else { old(self).cached(h) } by {
                                lemma_table_get_put(old(self).entries@, k, kv, h);
                            }
                        }
                        Ok(v)
                    },
                    Err(e) => Err(e),
                }
            },
        }
    }
}

/// Where a packed object lives: pack file, absolute offset, length.
pub struct PackSlot {
    pub pack: String,
    pub offset: u64,
    pub len: u32,
}

/// The index over every pack file, loaded on first use: object name to where it lives.
pub struct Packs {
    pub index: Option<Vec<(String, PackSlot)>>,
}

impl Packs {
    /// Well-formed: a loaded index is ordered by name.
    pub open spec fn wf(&self) -> bool {
        self.index matches Some(ix) ==> keys_sorted(ix@)
    }

    /// No index loaded yet.
    pub fn new() -> (p: Packs)
        ensures
            p.wf(),
            p.index is None,
    {
        Packs { index: None }
    }

    /// Whether the index must be loaded before a lookup.
    pub fn needs_load(&self) -> (r: bool)
        ensures
            r == self.index is None,
    {
        self.index.is_none()
    }

    /// Install a freshly loaded index.
    pub fn install(&mut self, index: Vec<(String, PackSlot)>)
        requires
            keys_sorted(index@),
        ensures
            final(self).wf(),
            final(self).index == Some(index),
    {
        self.index = Some(index);
    }

    /// Drop the loaded index (packs changed on disk); it is loaded again on next use.
    pub fn invalidate(&mut self)
        ensures
            final(self).wf(),
            final(self).index is None,
    {
        self.index = None;
    }

    /// Where `name` is packed, in a loaded index.
    pub fn slot(&self, name: &str) -> (r: Option<&PackSlot>)
        requires
            self.wf(),
        ensures
            self.index is None ==> r is None,
            self.index matches Some(ix) ==> match table_get(ix@, name@) {
                Some(s) => r == Some(&s),
                None => r is None,
            },
    {
        match &self.index {
            None => None,
            Some(ix) => match table_find(ix, name) {
                Some(i) => Some(&ix[i].1),
                None => None,
            },
        }
    }

    /// Whether `name` is in a loaded index.
    pub fn contains(&self, name: &str) -> (r: bool)
        requires
            self.wf(),
        ensures
            r == (self.index matches Some(ix) && table_get(ix@, name@) is Some),
    {
        self.slot(name).is_some()
    }
}

} // verus!
