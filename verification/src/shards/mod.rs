//! `.meta-ast` index persistence.
//!
//! What a save writes and what a cold start takes back is decided here; reading
//! and writing files is left to the caller. Overlays are never persisted.

use std::path::Path;

use vstd::prelude::*;
use vstd::string::*;

pub mod io;

use self::io::{
    bucket_for, bucket_names_stay_in_shards, bucket_text, hex, hex_text, is_safe_shard_name,
    leading_byte, stays_in_shards,
};
use crate::index::snapshot::IndexSnapshot;
use crate::index::{find_path, hash_of, indexes_paths, Analysis};
use crate::lookup::{
    last_where, lemma_last_where, lemma_places_where, lemma_places_where_same, level, places_where,
    KeyIndex,
};
use crate::order::{gather, places};
use crate::model::{content_fingerprint, Fingerprint};
use crate::path::{
    is_ordinary, is_under, is_unprefixed, lead, lemma_path_level, path_parts, DocPath, Part, PathPart,
};
use crate::server::session::optional_bytes;
use crate::text::{joined, same_text};
use crate::types::RootDir;

verus! {

/// One line of the manifest.
#[derive(Debug)]
pub struct ManifestRecord {
    /// Path relative to the root.
    pub path: DocPath,
    /// Hash of the content in hexadecimal.
    pub content_hash: String,
    /// Name of the bucket that holds the payload.
    pub shard: String,
    /// Size of the file in bytes.
    pub size: u64,
    /// Time of the file's last change, in seconds since the epoch.
    pub mtime: u64,
}

/// One line of the manifest as a value.
pub struct RecordView {
    pub path: Seq<Part>,
    pub spelling: Seq<char>,
    pub content_hash: Seq<char>,
    pub shard: Seq<char>,
    pub size: u64,
    pub mtime: u64,
}

impl View for ManifestRecord {
    type V = RecordView;

    open spec fn view(&self) -> RecordView {
        RecordView {
            path: self.path@,
            spelling: self.path.spelling(),
            content_hash: self.content_hash@,
            shard: self.shard@,
            size: self.size,
            mtime: self.mtime,
        }
    }
}

/// The lines of a manifest as values.
pub open spec fn record_views(records: Seq<ManifestRecord>) -> Seq<RecordView> {
    records.map_values(|record: ManifestRecord| record@)
}

impl Clone for ManifestRecord {
    fn clone(&self) -> (r: ManifestRecord)
        ensures
            r@ == self@,
    {
        ManifestRecord {
            path: self.path.clone(),
            content_hash: self.content_hash.clone(),
            shard: self.shard.clone(),
            size: self.size,
            mtime: self.mtime,
        }
    }
}

// ---------------------------------------------------------------------------
// Paths under the root

/// What is left of a path without a base that it begins with.
pub uninterp spec fn stripped_path(path: Seq<char>, base: Seq<char>) -> Option<Seq<char>>;

/// A path put behind a base.
pub uninterp spec fn joined_path(base: Seq<char>, path: Seq<char>) -> Seq<char>;

/// Calls `std::path::Path::strip_prefix`. It succeeds on a path that begins with
/// the components of the base, and on a path without a prefix on no other. Where
/// such a path is ordinary and the rest has no prefix, the rest has the components
/// behind the base's, and joined onto the base it yields the path again, unless the
/// joined text begins with a prefix that the path has not. The rest is a function of
/// the two texts.
#[verifier::external_body]
fn strip_base(path: &str, base: &str) -> (r: Option<String>)
    ensures
        match r {
            Some(rest) => {
                &&& stripped_path(path@, base@) == Some(rest@)
                &&& is_unprefixed(path_parts(path@)) ==> is_under(
                    path_parts(path@),
                    path_parts(base@),
                )
                &&& is_under(path_parts(path@), path_parts(base@)) && is_ordinary(path_parts(path@))
                    && is_unprefixed(path_parts(rest@)) ==> {
                    &&& path_parts(rest@) == path_parts(path@).skip(path_parts(base@).len() as int)
                    &&& lead(path_parts(joined_path(base@, rest@))) == lead(path_parts(path@))
                        ==> path_parts(joined_path(base@, rest@)) == path_parts(path@)
                }
            },
            None => stripped_path(path@, base@) is None && !is_under(
                path_parts(path@),
                path_parts(base@),
            ),
        },
{
    Path::new(path).strip_prefix(base).ok().map(|rest| rest.to_string_lossy().into_owned())
}

/// Components that neither begin at the root nor at the current directory.
pub open spec fn is_inner(parts: Seq<Part>) -> bool {
    parts.len() > 0 ==> parts[0] is Name || parts[0] is Parent
}

/// What `join_paths` makes of a path without a prefix and an ordinary base: an inner
/// path goes behind the base, and a path from the root replaces one without a
/// prefix. A joined text that begins with a prefix the base has not is left out.
pub open spec fn is_joined(parts: Seq<Part>, base: Seq<Part>, path: Seq<Part>) -> bool {
    is_ordinary(base) && is_unprefixed(path) && lead(parts) == lead(base) ==> {
        &&& is_unprefixed(base) && path.len() > 0 && path[0] is Root ==> parts == path
        &&& is_inner(path) ==> parts == base + path
    }
}

/// Calls `std::path::Path::join`. Where no prefix but a drive's comes into it, an
/// inner path is adjoined to the base, and an absolute path replaces a base without a
/// prefix. The result is a function of the two texts.
#[verifier::external_body]
fn join_paths(base: &str, path: &str) -> (r: String)
    ensures
        r@ == joined_path(base@, path@),
        is_joined(path_parts(r@), path_parts(base@), path_parts(path@)),
{
    Path::new(base).join(path).to_string_lossy().into_owned()
}

/// The spelling under which a path is stored: relative to the root where it lies
/// under it.
pub open spec fn stored_spelling(root: Seq<char>, path: Seq<char>) -> Seq<char> {
    match stripped_path(path, root) {
        Some(rest) => rest,
        None => path,
    }
}

/// The components of a recorded path, put behind the root.
pub open spec fn absolute_parts(root: Seq<char>, path: Seq<char>) -> Seq<Part> {
    path_parts(joined_path(root, path))
}

/// A stored path leads back to the file: it has the components behind the root's,
/// and put behind the root it is the path it was. Prefixes of a platform other than a
/// drive's are left out.
pub open spec fn leads_back(stored: DocPath, root: RootDir, path: DocPath) -> bool {
    let absolute = absolute_parts(root.spelling(), stored.spelling());
    is_under(path@, root@) && is_ordinary(path@) && is_unprefixed(stored@) ==> {
        &&& stored@ == path@.skip(root@.len() as int)
        &&& root@.len() > lead(path@) ==> is_inner(stored@)
        &&& lead(absolute) == lead(path@) ==> absolute == path@
    }
}

/// Root-relative spelling of one indexed path; every path reaching a record is
/// under the root. Put behind the root again it is the path it was.
pub fn relative(root: &RootDir, path: &DocPath) -> (r: DocPath)
    ensures
        r.spelling() == stored_spelling(root.spelling(), path.spelling()),
        r@ == path_parts(r.spelling()),
        leads_back(r, *root, *path),
{
    let base = root.as_path();
    match strip_base(path.as_str(), base.as_str()) {
        Some(rest) => DocPath::new(rest),
        None => path.clone(),
    }
}

/// The path that a recorded path stands for.
pub fn absolute_path(root: &RootDir, path: &DocPath) -> (r: DocPath)
    ensures
        r.spelling() == joined_path(root.spelling(), path.spelling()),
        r@ == absolute_parts(root.spelling(), path.spelling()),
        is_joined(r@, root@, path@),
{
    DocPath::new(join_paths(root.as_path().as_str(), path.as_str()))
}

/// How far components lead down: one down for each name, one up for each `..`.
pub open spec fn descent(parts: Seq<Part>) -> int
    decreases parts.len(),
{
    if parts.len() == 0 {
        0
    } else {
        descent(parts.drop_last()) + match parts.last() {
            Part::Name(_) => 1int,
            Part::Parent => -1int,
            _ => 0,
        }
    }
}

/// Components never climb above where they start.
pub open spec fn stays_below(parts: Seq<Part>) -> bool {
    forall|n: int| 0 <= n <= parts.len() ==> descent(#[trigger] parts.take(n)) >= 0
}

/// A path stays under the root: it begins there, and no `..` leads above it.
pub open spec fn stays_under(path: Seq<Part>, root: Seq<Part>) -> bool {
    is_under(path, root) && stays_below(path.skip(root.len() as int))
}

/// Whether a path, from a place on, never climbs above that place.
fn stays_below_from(path: &DocPath, from: usize) -> (r: bool)
    requires
        from <= path@.len(),
    ensures
        r == stays_below(path@.skip(from as int)),
{
    let ghost rest = path@.skip(from as int);
    let mut depth: usize = 0;
    let mut i: usize = from;
    assert(rest.take(0) =~= Seq::empty());
    while i < path.len()
        invariant
            from <= i <= path@.len(),
            rest == path@.skip(from as int),
            depth <= i - from,
            depth == descent(rest.take(i - from)),
            forall|n: int| 0 <= n <= i - from ==> descent(#[trigger] rest.take(n)) >= 0,
        decreases path@.len() - i,
    {
        let ghost more = rest.take(i - from + 1);
        assert(more.drop_last() =~= rest.take(i - from));
        match path.part(i) {
            PathPart::Name(_) => {
                depth += 1;
            },
            PathPart::Parent => {
                if depth == 0 {
                    assert(descent(more) == -1);
                    return false;
                }
                depth -= 1;
            },
            _ => {},
        }
        i += 1;
        assert(descent(rest.take(i - from)) == depth);
        assert forall|n: int| 0 <= n <= i - from implies descent(#[trigger] rest.take(n)) >= 0 by {
            if n == i - from {
            }
        }
    }
    assert(rest.take(i - from) =~= rest);
    true
}

/// Accept relative and absolute records, but keep reads under the root.
pub fn absolute_under_root(root: &RootDir, path: &DocPath) -> (r: Option<DocPath>)
    ensures
        match r {
            Some(absolute) => absolute.spelling() == joined_path(root.spelling(), path.spelling())
                && absolute@ == absolute_parts(root.spelling(), path.spelling()) && stays_under(
                absolute@,
                root@,
            ) && is_joined(absolute@, root@, path@),
            None => {
                let absolute = absolute_parts(root.spelling(), path.spelling());
                !stays_under(absolute, root@) && is_joined(absolute, root@, path@)
            },
        },
{
    let absolute = absolute_path(root, path);
    if root.contains(&absolute) && stays_below_from(&absolute, root.as_path().len()) {
        Some(absolute)
    } else {
        None
    }
}

// ---------------------------------------------------------------------------
// Saving: which records stay

/// The places of the records of a stored path.
pub open spec fn is_record_of(records: Seq<ManifestRecord>, path: Seq<Part>) -> spec_fn(int) -> bool {
    |i: int| records[i].path@ == path
}

/// The place of the record of a stored path.
pub open spec fn record_place(records: Seq<ManifestRecord>, path: Seq<Part>) -> Option<int> {
    last_where(records.len() as int, is_record_of(records, path))
}

/// What a save does with one extraction.
#[derive(Debug)]
pub enum Fate {
    /// Not the cache's: an overlay, or outside the root.
    Left,
    /// No content hash is known for it, so no record describes it.
    Unhashed,
    /// The record at this place of the old manifest still describes it.
    Reused { previous: usize },
    /// A new record describes it; the old one's place, if it had one.
    Written { hash: String, shard: String, replaces: Option<usize> },
}

/// What a save does with one extraction, and the path it is stored under.
#[derive(Debug)]
pub struct Planned {
    pub stored: DocPath,
    pub fate: Fate,
}

/// A file belongs in the cache: it lies under the root and no open buffer stands
/// for it.
pub open spec fn is_cached(root: Seq<Part>, overlays: Seq<DocPath>, path: Seq<Part>) -> bool {
    is_under(path, root) && forall|i: int|
        0 <= i < overlays.len() ==> (#[trigger] overlays[i])@ != path
}

/// An old record still describes a content: it has its hash, and lies in the
/// bucket of that hash.
pub open spec fn still_describes(record: ManifestRecord, hash: Seq<u8>) -> bool {
    record.content_hash@ == hex_text(hash) && record.shard@ == bucket_text(
        leading_byte(record.content_hash@),
    )
}

/// The bucket of a content.
pub open spec fn bucket_of(hash: Seq<u8>) -> Seq<char> {
    bucket_text(leading_byte(hex_text(hash)))
}

/// The fate of one extraction follows from the root, the overlays, the content
/// hash in the snapshot and the old manifest.
pub open spec fn is_fate(
    planned: Planned,
    root: RootDir,
    overlays: Seq<DocPath>,
    path: DocPath,
    hash: Option<Seq<u8>>,
    previous: Seq<ManifestRecord>,
) -> bool {
    let stored = path_parts(stored_spelling(root.spelling(), path.spelling()));
    let place = record_place(previous, stored);
    &&& planned.stored@ == stored
    &&& planned.stored.spelling() == stored_spelling(root.spelling(), path.spelling())
    &&& leads_back(planned.stored, root, path)
    &&& match planned.fate {
        Fate::Left => !is_cached(root@, overlays, path@),
        Fate::Unhashed => is_cached(root@, overlays, path@) && hash is None,
        Fate::Reused { previous: own } => {
            &&& is_cached(root@, overlays, path@)
            &&& place == Some(own as int) && own < previous.len()
            &&& hash matches Some(hash) && still_describes(previous[own as int], hash)
        },
        Fate::Written { hash: text, shard, replaces: own } => {
            &&& is_cached(root@, overlays, path@)
            &&& hash matches Some(hash) && text@ == hex_text(hash) && shard@ == bucket_of(hash)
                && (place matches Some(old) ==> !still_describes(previous[old], hash))
            &&& match own {
                Some(own) => place == Some(own as int) && own < previous.len(),
                None => place is None,
            }
        },
    }
}

fn is_overlay(overlays: &Vec<DocPath>, path: &DocPath) -> (r: bool)
    ensures
        r == !(forall|i: int| 0 <= i < overlays@.len() ==> (#[trigger] overlays@[i])@ != path@),
{
    let mut i: usize = 0;
    while i < overlays.len()
        invariant
            i <= overlays@.len(),
            forall|k: int| 0 <= k < i ==> (#[trigger] overlays@[k])@ != path@,
        decreases overlays.len() - i,
    {
        if overlays[i].same(path) {
            assert(overlays@[i as int]@ == path@);
            return true;
        }
        i += 1;
    }
    false
}

/// The records of a manifest, found by path. The last record of a path counts.
#[derive(Debug)]
pub struct Manifest {
    records: Vec<ManifestRecord>,
    by_path: KeyIndex<DocPath>,
}

impl View for Manifest {
    type V = Seq<ManifestRecord>;

    closed spec fn view(&self) -> Seq<ManifestRecord> {
        self.records@
    }
}

spec fn record_paths(records: Seq<ManifestRecord>) -> Seq<Seq<Part>> {
    records.map_values(|record: ManifestRecord| record.path@)
}

impl Manifest {
    #[verifier::type_invariant]
    spec fn indexed(&self) -> bool {
        indexes_paths(self.by_path, record_paths(self.records@))
    }

    pub fn new(records: Vec<ManifestRecord>) -> (r: Manifest)
        ensures
            r@ == records@,
    {
        let mut keys: Vec<DocPath> = Vec::new();
        let mut i: usize = 0;
        while i < records.len()
            invariant
                i <= records@.len(),
                keys@.len() == i,
                forall|k: int| 0 <= k < i ==> (#[trigger] keys@[k])@ == records@[k].path@,
            decreases records.len() - i,
        {
            keys.push(records[i].path.clone());
            i += 1;
        }
        let by_path = KeyIndex::new(keys);
        Manifest { records, by_path }
    }

    pub fn records(&self) -> (r: &Vec<ManifestRecord>)
        ensures
            r@ == self@,
    {
        &self.records
    }

    /// The place of the record of a stored path.
    pub fn find(&self, path: &DocPath) -> (r: Option<usize>)
        ensures
            match r {
                Some(i) => i < self@.len() && record_place(self@, path@) == Some(i as int),
                None => record_place(self@, path@) is None,
            },
    {
        proof {
            use_type_invariant(self);
            lemma_places_where_same(
                self.records@.len() as int,
                |i: int| record_paths(self.records@)[i] == path@,
                is_record_of(self.records@, path@),
            );
        }
        find_path(&self.by_path, Ghost(record_paths(self.records@)), path)
    }
}

/// The record decision for one file. The record hash describes the content the
/// payload came from, so a concurrent edit cannot validate a stale payload.
pub fn manifest_record(
    root: &RootDir,
    overlays: &Vec<DocPath>,
    path: &DocPath,
    indexed: Option<Fingerprint>,
    previous: &Manifest,
) -> (r: Planned)
    ensures
        is_fate(
            r,
            *root,
            overlays@,
            *path,
            match indexed {
                Some(hash) => Some(hash@),
                None => None,
            },
            previous@,
        ),
{
    let stored = relative(root, path);
    if is_overlay(overlays, path) || !root.contains(path) {
        return Planned { stored, fate: Fate::Left };
    }
    let indexed: Fingerprint = match indexed {
        Some(indexed) => indexed,
        None => {
            return Planned { stored, fate: Fate::Unhashed };
        },
    };
    let hash: String = hex(indexed.bytes.as_slice());
    let place = previous.find(&stored);
    if let Some(old) = place {
        let record = &previous.records()[old];
        if same_text(record.content_hash.as_str(), hash.as_str()) && same_text(
            record.shard.as_str(),
            bucket_for(record.content_hash.as_str()).as_str(),
        ) {
            return Planned { stored, fate: Fate::Reused { previous: old } };
        }
    }
    let shard: String = bucket_for(hash.as_str());
    Planned { stored, fate: Fate::Written { hash, shard, replaces: place } }
}

/// Every extraction of a snapshot has its fate.
pub open spec fn is_plan(
    planned: Seq<Planned>,
    root: RootDir,
    overlays: Seq<DocPath>,
    a: Analysis,
    previous: Seq<ManifestRecord>,
) -> bool {
    &&& planned.len() == a.extractions@.len()
    &&& forall|i: int|
        0 <= i < planned.len() ==> is_fate(
            #[trigger] planned[i],
            root,
            overlays,
            a.extractions@[i].path,
            hash_of(a.content_hashes@, a.extractions@[i].path@),
            previous,
        )
}

/// Plan a save of a snapshot over an old manifest.
pub fn plan_save(
    root: &RootDir,
    snapshot: &IndexSnapshot,
    overlays: &Vec<DocPath>,
    previous: &Manifest,
) -> (r: Vec<Planned>)
    ensures
        is_plan(r@, *root, overlays@, snapshot@, previous@),
{
    let tables = snapshot.tables();
    let data = tables.findings();
    let mut planned: Vec<Planned> = Vec::new();
    let mut i: usize = 0;
    while i < data.extractions.len()
        invariant
            *data == snapshot@,
            tables@ == snapshot@,
            i <= data.extractions@.len(),
            planned@.len() == i,
            forall|k: int|
                0 <= k < i ==> is_fate(
                    #[trigger] planned@[k],
                    *root,
                    overlays@,
                    data.extractions@[k].path,
                    hash_of(data.content_hashes@, data.extractions@[k].path@),
                    previous@,
                ),
        decreases data.extractions.len() - i,
    {
        let path = &data.extractions[i].path;
        let indexed = tables.content_hash(path);
        let ghost hash = match indexed {
            Some(hash) => Some(hash@),
            None => None,
        };
        assert(hash == hash_of(data.content_hashes@, path@));
        planned.push(manifest_record(root, overlays, path, indexed, previous));
        i += 1;
    }
    planned
}

// ---------------------------------------------------------------------------
// Saving: which buckets are written

/// A list of names holds a text.
pub open spec fn lists(names: Seq<String>, name: Seq<char>) -> bool {
    exists|i: int| 0 <= i < names.len() && (#[trigger] names[i])@ == name
}

/// Whether a list of names holds a text.
pub fn has_name(names: &Vec<String>, name: &str) -> (r: bool)
    ensures
        r == lists(names@, name@),
{
    let mut i: usize = 0;
    while i < names.len()
        invariant
            i <= names@.len(),
            forall|k: int| 0 <= k < i ==> (#[trigger] names@[k])@ != name@,
        decreases names.len() - i,
    {
        if same_text(names[i].as_str(), name) {
            assert(names@[i as int]@ == name@);
            return true;
        }
        i += 1;
    }
    false
}

/// No name is listed twice.
pub open spec fn are_distinct(names: Seq<String>) -> bool {
    forall|i: int, j: int|
        0 <= i < j < names.len() ==> (#[trigger] names[i])@ != (#[trigger] names[j])@
}

fn add_name(names: &mut Vec<String>, name: &String)
    requires
        are_distinct(old(names)@),
    ensures
        are_distinct(final(names)@),
        forall|other: Seq<char>| #[trigger]
            lists(final(names)@, other) == (lists(old(names)@, other) || other == name@),
{
    if has_name(names, name.as_str()) {
        return;
    }
    let ghost before = names@;
    names.push(name.clone());
    proof {
        assert forall|other: Seq<char>| #[trigger] lists(names@, other) == (lists(before, other)
            || other == name@) by {
            if lists(before, other) {
                let i = choose|i: int| 0 <= i < before.len() && (#[trigger] before[i])@ == other;
                assert(names@[i]@ == other);
            }
            if other == name@ {
                assert(names@[before.len() as int]@ == other);
            }
            if lists(names@, other) {
                let i = choose|i: int| 0 <= i < names@.len() && (#[trigger] names@[i])@ == other;
                if i < before.len() {
                    assert(before[i]@ == other);
                }
            }
        }
    }
}

/// One planned file changes a bucket: it is written there, or its old record lies
/// there.
pub open spec fn changes_bucket(
    planned: Planned,
    previous: Seq<ManifestRecord>,
    shard: Seq<char>,
) -> bool {
    planned.fate matches Fate::Written { hash, shard: own, replaces: old } && (own@ == shard || (
    old matches Some(old) && previous[old as int].shard@ == shard))
}

/// One old record is lost: no file of the cache is stored under its path any more,
/// and it is the one that counts for that path.
pub open spec fn is_lost(planned: Seq<Planned>, previous: Seq<ManifestRecord>, p: int) -> bool {
    &&& record_place(previous, previous[p].path@) == Some(p)
    &&& forall|i: int|
        0 <= i < planned.len() && !((#[trigger] planned[i]).fate is Left) ==> planned[i].stored@
            != previous[p].path@
}

/// A bucket must be rewritten: a file changes it, or it loses a record.
pub open spec fn is_touched(
    planned: Seq<Planned>,
    previous: Seq<ManifestRecord>,
    shard: Seq<char>,
) -> bool {
    ||| exists|i: int|
        0 <= i < planned.len() && changes_bucket(#[trigger] planned[i], previous, shard)
    ||| exists|p: int|
        0 <= p < previous.len() && #[trigger] is_lost(planned, previous, p) && previous[p].shard@
            == shard
}

/// The buckets that must be rewritten.
pub fn touched_buckets(planned: &Vec<Planned>, previous: &Manifest) -> (r: Vec<String>)
    requires
        forall|i: int|
            0 <= i < planned@.len() ==> ((#[trigger] planned@[i]).fate matches Fate::Written {
                hash,
                shard,
                replaces: Some(old),
            } ==> old < previous@.len()),
    ensures
        forall|shard: Seq<char>|
            lists(r@, shard) == is_touched(planned@, previous@, shard),
        are_distinct(r@),
{
    let mut touched: Vec<String> = Vec::new();
    let mut i: usize = 0;
    while i < planned.len()
        invariant
            forall|i: int|
                0 <= i < planned@.len() ==> ((#[trigger] planned@[i]).fate matches Fate::Written {
                    hash,
                    shard,
                    replaces: Some(old),
                } ==> old < previous@.len()),
            i <= planned@.len(),
            are_distinct(touched@),
            forall|shard: Seq<char>| #[trigger]
                lists(touched@, shard) == (exists|k: int|
                    0 <= k < i && changes_bucket(#[trigger] planned@[k], previous@, shard)),
        decreases planned.len() - i,
    {
        let ghost before = touched@;
        match &planned[i].fate {
            Fate::Written { hash: _, shard, replaces: old } => {
                add_name(&mut touched, shard);
                if let Some(old) = old {
                    add_name(&mut touched, &previous.records()[*old].shard);
                }
            },
            _ => {},
        }
        i += 1;
        proof {
            assert forall|shard: Seq<char>| #[trigger] lists(touched@, shard) == (exists|k: int|
                0 <= k < i && changes_bucket(#[trigger] planned@[k], previous@, shard)) by {
                assert(lists(touched@, shard) == (lists(before, shard) || changes_bucket(
                    planned@[i - 1],
                    previous@,
                    shard,
                )));
                if lists(before, shard) {
                    let k = choose|k: int|
                        0 <= k < i - 1 && changes_bucket(#[trigger] planned@[k], previous@, shard);
                    assert(changes_bucket(planned@[k], previous@, shard));
                }
            }
        }
    }
    let ghost changed = touched@;
    let stored = index_stored(planned);
    let records = previous.records();
    let mut p: usize = 0;
    while p < records.len()
        invariant
            records@ == previous@,
            indexes_stored(stored, planned@),
            p <= previous@.len(),
            are_distinct(touched@),
            forall|shard: Seq<char>| #[trigger]
                lists(touched@, shard) == (lists(changed, shard) || exists|k: int|
                    0 <= k < p && #[trigger] is_lost(planned@, previous@, k) && previous@[k].shard@
                        == shard),
        decreases records.len() - p,
    {
        let record = &records[p];
        let counts: bool = match previous.find(&record.path) {
            Some(last) => last == p,
            None => false,
        };
        let ghost before = touched@;
        let lost: bool = counts && !is_stored(&stored, Ghost(planned@), &record.path);
        if lost {
            add_name(&mut touched, &record.shard);
        }
        p += 1;
        proof {
            assert(lost == is_lost(planned@, previous@, p - 1));
            assert forall|shard: Seq<char>| #[trigger] lists(touched@, shard) == (lists(
                changed,
                shard,
            ) || exists|k: int|
                0 <= k < p && #[trigger] is_lost(planned@, previous@, k) && previous@[k].shard@
                    == shard) by {
                assert(lists(touched@, shard) == (lists(before, shard) || (lost && shard
                    == record.shard@)));
                if lists(before, shard) && !lists(changed, shard) {
                    let k = choose|k: int|
                        0 <= k < p - 1 && #[trigger] is_lost(planned@, previous@, k)
                            && previous@[k].shard@ == shard;
                    assert(is_lost(planned@, previous@, k));
                }
            }
        }
    }
    touched
}

/// An index over the stored paths of the files of the cache.
spec fn indexes_stored(index: KeyIndex<Option<DocPath>>, planned: Seq<Planned>) -> bool {
    &&& index.wf()
    &&& index@.len() == planned.len()
    &&& forall|i: int|
        0 <= i < planned.len() ==> match (#[trigger] index@[i]) {
            Some(path) => !(planned[i].fate is Left) && path@ == planned[i].stored@,
            None => planned[i].fate is Left,
        }
}

fn index_stored(planned: &Vec<Planned>) -> (r: KeyIndex<Option<DocPath>>)
    ensures
        indexes_stored(r, planned@),
{
    let mut keys: Vec<Option<DocPath>> = Vec::new();
    let mut i: usize = 0;
    while i < planned.len()
        invariant
            i <= planned@.len(),
            keys@.len() == i,
            forall|k: int|
                0 <= k < i ==> match (#[trigger] keys@[k]) {
                    Some(path) => !(planned@[k].fate is Left) && path@ == planned@[k].stored@,
                    None => planned@[k].fate is Left,
                },
        decreases planned.len() - i,
    {
        match &planned[i].fate {
            Fate::Left => keys.push(None),
            _ => keys.push(Some(planned[i].stored.clone())),
        }
        i += 1;
    }
    KeyIndex::new(keys)
}

fn is_stored(index: &KeyIndex<Option<DocPath>>, Ghost(planned): Ghost<Seq<Planned>>, path: &DocPath) -> (r: bool)
    requires
        indexes_stored(*index, planned),
    ensures
        r == !(forall|i: int|
            0 <= i < planned.len() && !((#[trigger] planned[i]).fate is Left) ==> planned[i].stored@
                != path@),
{
    let key: Option<DocPath> = Some(path.clone());
    let r = index.find_last(&key).is_some();
    proof {
        let n = planned.len() as int;
        let p = |i: int| level(index@[i], key);
        lemma_last_where(n, p);
        lemma_places_where(n, p);
        assert forall|i: int| 0 <= i < n implies #[trigger] p(i) == (!(planned[i].fate is Left)
            && planned[i].stored@ == path@) by {
            if let Some(own) = index@[i] {
                lemma_path_level(own@, path@);
            }
        }
        if r {
            let i = last_where(n, p)->0;
            assert(p(i));
            assert(!(planned[i].fate is Left));
        } else {
            assert forall|i: int| 0 <= i < n && !((#[trigger] planned[i]).fate is Left) implies planned[i].stored@
                != path@ by {
                if planned[i].stored@ == path@ {
                    assert(p(i));
                    assert(places_where(n, p).contains(i));
                }
            }
        }
    }
    r
}

/// Size and time of a file that a new record needs.
#[derive(Clone, Copy, Debug, PartialEq, Eq, Structural)]
pub struct FileMeta {
    pub size: u64,
    pub mtime: u64,
}

/// The new manifest has a record of a planned file: an old one is reused as it is,
/// a new one needs the size and time of the file.
pub open spec fn has_record(planned: Planned, meta: Option<FileMeta>) -> bool {
    planned.fate is Reused || planned.fate is Written && meta is Some
}

/// The record of one planned file: the old one as it is, or a new one.
pub open spec fn record_of(
    planned: Planned,
    meta: Option<FileMeta>,
    previous: Seq<ManifestRecord>,
) -> RecordView {
    match planned.fate {
        Fate::Reused { previous: own } => previous[own as int]@,
        Fate::Written { hash, shard, .. } => RecordView {
            path: planned.stored@,
            spelling: planned.stored.spelling(),
            content_hash: hash@,
            shard: shard@,
            size: meta->0.size,
            mtime: meta->0.mtime,
        },
        _ => arbitrary(),
    }
}

/// The places of the planned files that have a record.
pub open spec fn is_recorded(planned: Seq<Planned>, metas: Seq<Option<FileMeta>>) -> spec_fn(
    int,
) -> bool {
    |i: int| has_record(planned[i], metas[i])
}

/// The records of the new manifest, in the order of the files.
pub open spec fn records_of(
    planned: Seq<Planned>,
    metas: Seq<Option<FileMeta>>,
    previous: Seq<ManifestRecord>,
    n: int,
) -> Seq<RecordView> {
    places_where(n, is_recorded(planned, metas)).map_values(
        |i: int| record_of(planned[i], metas[i], previous),
    )
}

/// Every old record that a plan reuses is there.
pub open spec fn reuses_within(planned: Seq<Planned>, previous: Seq<ManifestRecord>) -> bool {
    forall|i: int|
        0 <= i < planned.len() ==> ((#[trigger] planned[i]).fate matches Fate::Reused {
            previous: own,
        } ==> own < previous.len())
}

/// The records of the new manifest. A file whose size and time cannot be had gets
/// none.
pub fn new_manifest(
    planned: &Vec<Planned>,
    metas: &Vec<Option<FileMeta>>,
    previous: &Manifest,
) -> (r: Vec<ManifestRecord>)
    requires
        metas@.len() == planned@.len(),
        reuses_within(planned@, previous@),
    ensures
        record_views(r@) == records_of(planned@, metas@, previous@, planned@.len() as int),
{
    let ghost p = is_recorded(planned@, metas@);
    let mut records: Vec<ManifestRecord> = Vec::new();
    let mut i: usize = 0;
    assert(record_views(records@) =~= records_of(planned@, metas@, previous@, 0));
    while i < planned.len()
        invariant
            metas@.len() == planned@.len(),
            reuses_within(planned@, previous@),
            i <= planned@.len(),
            p == is_recorded(planned@, metas@),
            record_views(records@) == records_of(planned@, metas@, previous@, i as int),
        decreases planned.len() - i,
    {
        let ghost before = records@;
        match &planned[i].fate {
            Fate::Reused { previous: own } => {
                records.push(previous.records()[*own].clone());
            },
            Fate::Written { hash, shard, .. } => {
                if let Some(meta) = metas[i] {
                    records.push(
                        ManifestRecord {
                            path: planned[i].stored.clone(),
                            content_hash: hash.clone(),
                            shard: shard.clone(),
                            size: meta.size,
                            mtime: meta.mtime,
                        },
                    );
                }
            },
            _ => {},
        }
        i += 1;
        proof {
            if p(i - 1) {
                assert(places_where(i as int, p) == places_where(i - 1, p).push(i - 1));
                assert(records@.last()@ == record_of(planned@[i - 1], metas@[i - 1], previous@));
                assert(record_views(records@) =~= record_views(before).push(records@.last()@));
            }
            assert(record_views(records@) =~= records_of(planned@, metas@, previous@, i as int));
        }
    }
    records
}

/// The bucket that holds the payload of a planned file.
pub open spec fn shard_of(planned: Planned, previous: Seq<ManifestRecord>) -> Option<Seq<char>> {
    match planned.fate {
        Fate::Reused { previous: own } => Some(previous[own as int].shard@),
        Fate::Written { shard, .. } => Some(shard@),
        _ => None,
    }
}

/// The name of the bucket that holds the payload of a planned file.
pub fn shard_name(planned: &Planned, previous: &Manifest) -> (r: Option<String>)
    requires
        planned.fate matches Fate::Reused { previous: own } ==> own < previous@.len(),
    ensures
        match r {
            Some(shard) => shard_of(*planned, previous@) == Some(shard@),
            None => shard_of(*planned, previous@) is None,
        },
{
    match &planned.fate {
        Fate::Reused { previous: own } => Some(previous.records()[*own].shard.clone()),
        Fate::Written { shard, .. } => Some(shard.clone()),
        _ => None,
    }
}

/// The planned files whose records lie in a bucket.
pub open spec fn is_in_bucket(
    planned: Seq<Planned>,
    metas: Seq<Option<FileMeta>>,
    previous: Seq<ManifestRecord>,
    shard: Seq<char>,
) -> spec_fn(int) -> bool {
    |i: int| has_record(planned[i], metas[i]) && shard_of(planned[i], previous) == Some(shard)
}

/// The places of the planned files whose payloads a bucket holds, in their order.
pub open spec fn bucket_places(
    planned: Seq<Planned>,
    metas: Seq<Option<FileMeta>>,
    previous: Seq<ManifestRecord>,
    shard: Seq<char>,
) -> Seq<int> {
    places_where(planned.len() as int, is_in_bucket(planned, metas, previous, shard))
}

/// The planned files whose payloads a bucket holds, in their order.
pub fn bucket_files(
    planned: &Vec<Planned>,
    metas: &Vec<Option<FileMeta>>,
    previous: &Manifest,
    shard: &str,
) -> (r: Vec<usize>)
    requires
        metas@.len() == planned@.len(),
        reuses_within(planned@, previous@),
    ensures
        places(r@) == bucket_places(planned@, metas@, previous@, shard@),
{
    let ghost p = is_in_bucket(planned@, metas@, previous@, shard@);
    let mut files: Vec<usize> = Vec::new();
    let mut i: usize = 0;
    assert(places(files@) =~= places_where(0, p));
    while i < planned.len()
        invariant
            metas@.len() == planned@.len(),
            reuses_within(planned@, previous@),
            i <= planned@.len(),
            p == is_in_bucket(planned@, metas@, previous@, shard@),
            places(files@) == places_where(i as int, p),
        decreases planned.len() - i,
    {
        let ghost before = files@;
        let recorded: bool = match &planned[i].fate {
            Fate::Reused { .. } => true,
            Fate::Written { .. } => metas[i].is_some(),
            _ => false,
        };
        let inside: bool = recorded && match shard_name(&planned[i], previous) {
            Some(own) => same_text(own.as_str(), shard),
            None => false,
        };
        assert(inside == p(i as int));
        if inside {
            files.push(i);
            assert(places(files@) =~= places(before).push(i as int));
        }
        i += 1;
    }
    files
}

/// A manifest names a bucket.
pub open spec fn names_bucket(records: Seq<ManifestRecord>, shard: Seq<char>) -> bool {
    exists|i: int| 0 <= i < records.len() && (#[trigger] records[i]).shard@ == shard
}

/// The buckets that the records of a manifest lie in, each once.
pub fn referenced_buckets(records: &Vec<ManifestRecord>) -> (r: Vec<String>)
    ensures
        forall|shard: Seq<char>| lists(r@, shard) == names_bucket(records@, shard),
        are_distinct(r@),
{
    let mut referenced: Vec<String> = Vec::new();
    let mut i: usize = 0;
    while i < records.len()
        invariant
            i <= records@.len(),
            are_distinct(referenced@),
            forall|shard: Seq<char>| #[trigger]
                lists(referenced@, shard) == names_bucket(records@.take(i as int), shard),
        decreases records.len() - i,
    {
        let ghost before = referenced@;
        add_name(&mut referenced, &records[i].shard);
        i += 1;
        proof {
            let (less, more) = (records@.take(i - 1), records@.take(i as int));
            assert forall|shard: Seq<char>| #[trigger] lists(referenced@, shard) == names_bucket(
                more,
                shard,
            ) by {
                assert(lists(before, shard) == names_bucket(less, shard));
                if names_bucket(less, shard) {
                    let k = choose|k: int| 0 <= k < less.len() && (#[trigger] less[k]).shard@ == shard;
                    assert(more[k].shard@ == shard);
                }
                if shard == records@[i - 1].shard@ {
                    assert(more[i - 1].shard@ == shard);
                }
                if names_bucket(more, shard) {
                    let k = choose|k: int| 0 <= k < more.len() && (#[trigger] more[k]).shard@ == shard;
                    if k < i - 1 {
                        assert(less[k].shard@ == shard);
                    }
                }
            }
        }
    }
    assert(records@.take(i as int) =~= records@);
    referenced
}

/// The places of the names that another list holds too.
pub open spec fn is_listed(names: Seq<String>, others: Seq<String>) -> spec_fn(int) -> bool {
    |i: int| lists(others, names[i]@)
}

/// Texts of names.
pub open spec fn name_texts(names: Seq<String>) -> Seq<Seq<char>> {
    names.map_values(|name: String| name@)
}

/// The buckets that a save writes: those that records lie in and that must be
/// rewritten, in their order.
pub fn buckets_to_write(referenced: &Vec<String>, touched: &Vec<String>) -> (r: Vec<String>)
    ensures
        name_texts(r@) == gather(
            name_texts(referenced@),
            places_where(referenced@.len() as int, is_listed(referenced@, touched@)),
        ),
        forall|shard: Seq<char>| #[trigger]
            lists(r@, shard) == (lists(referenced@, shard) && lists(touched@, shard)),
{
    let ghost names = name_texts(referenced@);
    let ghost p = is_listed(referenced@, touched@);
    let mut r: Vec<String> = Vec::new();
    let mut i: usize = 0;
    assert(name_texts(r@) =~= gather(names, places_where(0, p)));
    while i < referenced.len()
        invariant
            i <= referenced@.len(),
            names == name_texts(referenced@),
            p == is_listed(referenced@, touched@),
            name_texts(r@) == gather(names, places_where(i as int, p)),
        decreases referenced.len() - i,
    {
        let ghost before = r@;
        if has_name(touched, referenced[i].as_str()) {
            assert(p(i as int));
            r.push(referenced[i].clone());
            assert(name_texts(r@) =~= name_texts(before).push(names[i as int]));
            assert(places_where(i + 1, p) == places_where(i as int, p).push(i as int));
        }
        i += 1;
        assert(name_texts(r@) =~= gather(names, places_where(i as int, p)));
    }
    proof {
        let found = places_where(referenced@.len() as int, p);
        lemma_places_where(referenced@.len() as int, p);
        assert(name_texts(r@).len() == found.len());
        assert forall|shard: Seq<char>| #[trigger] lists(r@, shard) == (lists(referenced@, shard)
            && lists(touched@, shard)) by {
            if lists(r@, shard) {
                let k = choose|k: int| 0 <= k < r@.len() && (#[trigger] r@[k])@ == shard;
                assert(name_texts(r@)[k] == shard);
                assert(p(found[k]));
                assert(referenced@[found[k]]@ == shard);
            }
            if lists(referenced@, shard) && lists(touched@, shard) {
                let k = choose|k: int|
                    0 <= k < referenced@.len() && (#[trigger] referenced@[k])@ == shard;
                assert(p(k));
                assert(found.contains(k));
                let m = choose|m: int| 0 <= m < found.len() && found[m] == k;
                assert(name_texts(r@)[m] == shard);
                assert(r@[m]@ == shard);
            }
        }
    }
    r
}

/// A file of the `shards` directory that no record lies in is to be removed.
pub fn is_orphan(name: &str, referenced: &Vec<String>) -> (r: bool)
    ensures
        r == !lists(referenced@, "shards/"@ + name@),
{
    !has_name(referenced, joined("shards/", name).as_str())
}

// ---------------------------------------------------------------------------
// Loading

/// Outcome of a cold-start cache seeding pass.
#[derive(Clone, Copy, Debug, PartialEq, Eq, Structural)]
pub struct LoadStats {
    /// Records whose hash matched and whose extraction entered the cache.
    pub loaded: usize,
    /// Records that were missing, stale, or unusable.
    pub skipped: usize,
}

impl Default for LoadStats {
    fn default() -> (r: Self)
        ensures
            r == (LoadStats { loaded: 0, skipped: 0 }),
    {
        LoadStats { loaded: 0, skipped: 0 }
    }
}

/// One refused record.
#[derive(Debug)]
pub struct ShardSkip {
    pub path: DocPath,
    pub reason: String,
}

/// Cold-start outcome: entries reused, records refused, which are re-extracted on
/// the next pass, or the reason the cache was rejected.
#[derive(Debug)]
pub struct CacheLoad {
    pub reused: usize,
    pub skipped: Vec<ShardSkip>,
    pub rejected: Option<String>,
}

impl Default for CacheLoad {
    fn default() -> (r: Self)
        ensures
            r.reused == 0,
            r.skipped@.len() == 0,
            r.rejected is None,
    {
        CacheLoad { reused: 0, skipped: Vec::new(), rejected: None }
    }
}

/// What reading the cache came to.
#[derive(Debug)]
pub enum CacheRead {
    /// No header: there is no cache.
    Missing,
    /// A hard error.
    Refused(String),
    /// Payloads seeded, and records refused.
    Loaded { seeded: usize, skips: Vec<ShardSkip> },
}

/// The outcome of a cold start: a missing cache is not a rejection, a hard error
/// leaves it empty.
pub fn load_outcome(read: CacheRead) -> (r: CacheLoad)
    ensures
        match read {
            CacheRead::Missing => r.reused == 0 && r.skipped@.len() == 0 && r.rejected is None,
            CacheRead::Refused(reason) => r.reused == 0 && r.skipped@.len() == 0 && r.rejected
                == Some(reason),
            CacheRead::Loaded { seeded, skips } => r.reused == seeded && r.skipped == skips
                && r.rejected is None,
        },
{
    match read {
        CacheRead::Missing => CacheLoad::default(),
        CacheRead::Refused(reason) => CacheLoad {
            reused: 0,
            skipped: Vec::new(),
            rejected: Some(reason),
        },
        CacheRead::Loaded { seeded, skips } => CacheLoad {
            reused: seeded,
            skipped: skips,
            rejected: None,
        },
    }
}

/// Calls `meta_ast::ShardManifestRecord::compute_hash`: the hexadecimal text of the
/// hash of the bytes.
#[verifier::external_body]
fn content_hash_text(bytes: &Vec<u8>) -> (r: String)
    ensures
        r@ == hex_text(content_fingerprint(bytes@)),
{
    meta_ast::ShardManifestRecord::compute_hash(bytes)
}

/// Whether bytes are the content a hash describes.
pub fn matches_hash(bytes: &Vec<u8>, hash: &str) -> (r: bool)
    ensures
        r == (hash@ == hex_text(content_fingerprint(bytes@))),
{
    same_text(content_hash_text(bytes).as_str(), hash)
}

/// No payload before the one at a place has its path.
pub open spec fn is_first_payload(paths: Seq<DocPath>, i: int) -> bool {
    forall|k: int| 0 <= k < i ==> (#[trigger] paths[k])@ != paths[i]@
}

/// What seeding takes of one payload.
pub open spec fn expected_hash(
    records: Seq<ManifestRecord>,
    paths: Seq<DocPath>,
    i: int,
) -> Option<Seq<char>> {
    match record_place(records, paths[i]@) {
        Some(place) => if is_first_payload(paths, i) {
            Some(records[place].content_hash@)
        } else {
            None
        },
        None => None,
    }
}

/// The hash that the content of each payload must have to be seeded: that of the
/// record of its path, which serves one payload.
pub fn expected_hashes(records: &Manifest, paths: &Vec<DocPath>) -> (r: Vec<Option<String>>)
    ensures
        r@.len() == paths@.len(),
        forall|i: int|
            0 <= i < r@.len() ==> match (#[trigger] r@[i]) {
                Some(hash) => expected_hash(records@, paths@, i) == Some(hash@),
                None => expected_hash(records@, paths@, i) is None,
            },
{
    let index = index_paths(paths);
    let ghost n = paths@.len() as int;
    let mut r: Vec<Option<String>> = Vec::new();
    let mut i: usize = 0;
    while i < paths.len()
        invariant
            i <= paths@.len(),
            n == paths@.len(),
            index.wf(),
            index@.len() == n,
            forall|k: int| 0 <= k < n ==> (#[trigger] index@[k])@ == paths@[k]@,
            r@.len() == i,
            forall|k: int|
                0 <= k < i ==> match (#[trigger] r@[k]) {
                    Some(hash) => expected_hash(records@, paths@, k) == Some(hash@),
                    None => expected_hash(records@, paths@, k) is None,
                },
        decreases paths.len() - i,
    {
        let path = &paths[i];
        let found = index.find_all(path);
        let ghost p = |k: int| level(index@[k], *path);
        let ghost all = places_where(n, p);
        proof {
            lemma_places_where(n, p);
            assert forall|k: int| 0 <= k < n implies #[trigger] p(k) == (paths@[k]@ == path@) by {
                lemma_path_level(index@[k]@, path@);
            }
            assert(p(i as int));
            assert(all.contains(i as int));
            assert(places(found@) == all);
            assert(places(found@)[0] == found@[0] as int);
        }
        let first: bool = found[0] == i;
        proof {
            let at = choose|at: int| 0 <= at < all.len() && all[at] == i;
            if first {
                assert forall|k: int| 0 <= k < i implies (#[trigger] paths@[k])@ != paths@[i as int]@ by {
                    if paths@[k]@ == paths@[i as int]@ {
                        assert(p(k));
                        assert(all.contains(k));
                        let m = choose|m: int| 0 <= m < all.len() && all[m] == k;
                        if m > 0 {
                            assert(all[0] < all[m]);
                        }
                    }
                }
            } else {
                assert(all[0] < all[at]);
                assert(p(all[0]));
                assert(paths@[all[0]]@ == paths@[i as int]@);
            }
            assert(first == is_first_payload(paths@, i as int));
        }
        let hash: Option<String> = if first {
            match records.find(path) {
                Some(place) => Some(records.records()[place].content_hash.clone()),
                None => None,
            }
        } else {
            None
        };
        r.push(hash);
        i += 1;
    }
    r
}

/// What becomes of one payload when the cache is seeded.
#[derive(Clone, Copy, Debug, PartialEq, Eq, Structural)]
pub enum Seeding {
    /// No record expects it.
    Unrecorded,
    /// Its file cannot be read.
    Unreadable,
    /// Its file has changed.
    Stale,
    /// It enters the cache.
    Seeded,
}

/// What becomes of one payload, given the hash its record expects and the bytes of
/// its file: the stored fingerprint must describe the bytes in hand.
pub fn seed_payload(expected: &Option<String>, bytes: Option<&Vec<u8>>) -> (r: Seeding)
    ensures
        match (*expected, bytes) {
            (None, _) => r == Seeding::Unrecorded,
            (Some(_), None) => r == Seeding::Unreadable,
            (Some(hash), Some(bytes)) => r == (if hash@ == hex_text(content_fingerprint(bytes@)) {
                Seeding::Seeded
            } else {
                Seeding::Stale
            }),
        },
{
    match expected {
        None => Seeding::Unrecorded,
        Some(hash) => match bytes {
            None => Seeding::Unreadable,
            Some(bytes) => if matches_hash(bytes, hash.as_str()) {
                Seeding::Seeded
            } else {
                Seeding::Stale
            },
        },
    }
}

/// The payloads that enter the cache, counted.
pub open spec fn seeded(outcomes: Seq<Seeding>) -> nat
    decreases outcomes.len(),
{
    if outcomes.len() == 0 {
        0
    } else {
        seeded(outcomes.drop_last()) + (if outcomes.last() == Seeding::Seeded {
            1nat
        } else {
            0
        })
    }
}

/// Count the payloads that enter the cache.
pub fn count_seeded(outcomes: &Vec<Seeding>) -> (r: usize)
    ensures
        r == seeded(outcomes@),
{
    let mut count: usize = 0;
    let mut i: usize = 0;
    while i < outcomes.len()
        invariant
            i <= outcomes@.len(),
            count <= i,
            count == seeded(outcomes@.take(i as int)),
        decreases outcomes.len() - i,
    {
        assert(outcomes@.take(i as int + 1).drop_last() =~= outcomes@.take(i as int));
        if outcomes[i] == Seeding::Seeded {
            count += 1;
        }
        i += 1;
    }
    assert(outcomes@.take(i as int) =~= outcomes@);
    count
}

/// A cache that another version of the engine wrote is refused.
pub fn check_tool_version(written: &str, engine: &str) -> (r: Result<(), String>)
    ensures
        match r {
            Ok(()) => written@ == engine@,
            Err(reason) => written@ != engine@ && reason@ == "index written by meta-ast "@ + written@,
        },
{
    if same_text(written, engine) {
        Ok(())
    } else {
        Err(joined("index written by meta-ast ", written))
    }
}

/// A payload of a bucket: the path it is stored under, and whether it loads.
#[derive(Debug)]
pub struct Payload {
    pub path: DocPath,
    pub loads: bool,
}

/// Why a record is not taken from the cache, or that it is.
#[derive(Debug)]
pub enum Admission {
    /// No payload is there for its path.
    NoPayload,
    /// Its path leads out of the root.
    OutsideRoot,
    /// Its file cannot be read.
    Unreadable,
    /// Its file has changed.
    Stale,
    /// Its payload does not load.
    Unloadable,
    /// Taken, under this path.
    Admitted(DocPath),
}

/// Whether a record is taken from the cache: its payload is there, its path stays
/// under the root, the bytes in hand are those its hash describes, and the payload
/// loads. `payload` is whether it loads, where it is there.
pub fn admit_record(
    root: &RootDir,
    record: &ManifestRecord,
    payload: Option<bool>,
    bytes: Option<&Vec<u8>>,
) -> (r: Admission)
    ensures
        is_admission(
            r,
            *root,
            *record,
            payload,
            match bytes {
                Some(bytes) => Some(bytes@),
                None => None,
            },
        ),
{
    let loads: bool = match payload {
        Some(loads) => loads,
        None => {
            return Admission::NoPayload;
        },
    };
    let absolute: DocPath = match absolute_under_root(root, &record.path) {
        Some(absolute) => absolute,
        None => {
            return Admission::OutsideRoot;
        },
    };
    match bytes {
        None => Admission::Unreadable,
        Some(bytes) => if !matches_hash(bytes, record.content_hash.as_str()) {
            Admission::Stale
        } else if !loads {
            Admission::Unloadable
        } else {
            Admission::Admitted(absolute)
        },
    }
}

/// The places of the payloads stored under a path.
pub open spec fn is_payload_of(payloads: Seq<Payload>, path: Seq<Part>) -> spec_fn(int) -> bool {
    |k: int| payloads[k].path@ == path
}

/// Whether the payload of a record loads, where there is one: the last one of its
/// path, unless a record before it took that.
pub open spec fn payload_of(
    records: Seq<ManifestRecord>,
    payloads: Seq<Payload>,
    i: int,
) -> Option<bool> {
    let path = records[i].path@;
    if exists|k: int| 0 <= k < i && (#[trigger] records[k]).path@ == path {
        None
    } else {
        match last_where(payloads.len() as int, is_payload_of(payloads, path)) {
            Some(k) => Some(payloads[k].loads),
            None => None,
        }
    }
}

/// What became of one record.
pub open spec fn is_admission(
    r: Admission,
    root: RootDir,
    record: ManifestRecord,
    payload: Option<bool>,
    bytes: Option<Seq<u8>>,
) -> bool {
    let absolute = absolute_parts(root.spelling(), record.path.spelling());
    let under = stays_under(absolute, root@);
    let fresh = bytes matches Some(bytes) && record.content_hash@ == hex_text(
        content_fingerprint(bytes),
    );
    &&& payload is Some ==> is_joined(absolute, root@, record.path@)
    &&& match r {
        Admission::NoPayload => payload is None,
        Admission::OutsideRoot => payload is Some && !under,
        Admission::Unreadable => payload is Some && under && bytes is None,
        Admission::Stale => payload is Some && under && bytes is Some && !fresh,
        Admission::Unloadable => payload == Some(false) && under && fresh,
        Admission::Admitted(path) => {
            &&& payload == Some(true) && under && fresh
            &&& path@ == absolute
            &&& path.spelling() == joined_path(root.spelling(), record.path.spelling())
        },
    }
}

fn index_paths(paths: &Vec<DocPath>) -> (r: KeyIndex<DocPath>)
    ensures
        r.wf(),
        r@.len() == paths@.len(),
        forall|k: int| 0 <= k < paths@.len() ==> (#[trigger] r@[k])@ == paths@[k]@,
{
    let mut keys: Vec<DocPath> = Vec::new();
    let mut i: usize = 0;
    while i < paths.len()
        invariant
            i <= paths@.len(),
            keys@.len() == i,
            forall|k: int| 0 <= k < i ==> (#[trigger] keys@[k])@ == paths@[k]@,
        decreases paths.len() - i,
    {
        keys.push(paths[i].clone());
        i += 1;
    }
    KeyIndex::new(keys)
}

/// What becomes of every record of a manifest, given the payloads and the bytes of
/// the file of each record. A payload serves one record.
pub fn admit_records(
    root: &RootDir,
    records: &Vec<ManifestRecord>,
    payloads: &Vec<Payload>,
    contents: &Vec<Option<Vec<u8>>>,
) -> (r: Vec<Admission>)
    requires
        contents@.len() == records@.len(),
    ensures
        r@.len() == records@.len(),
        forall|i: int|
            0 <= i < r@.len() ==> is_admission(
                #[trigger] r@[i],
                *root,
                records@[i],
                payload_of(records@, payloads@, i),
                optional_bytes(contents@[i]),
            ),
{
    let mut stored: Vec<DocPath> = Vec::new();
    let mut i: usize = 0;
    while i < payloads.len()
        invariant
            i <= payloads@.len(),
            stored@.len() == i,
            forall|k: int| 0 <= k < i ==> (#[trigger] stored@[k])@ == payloads@[k].path@,
        decreases payloads.len() - i,
    {
        stored.push(payloads[i].path.clone());
        i += 1;
    }
    let payload_index = index_paths(&stored);
    let mut paths: Vec<DocPath> = Vec::new();
    i = 0;
    while i < records.len()
        invariant
            i <= records@.len(),
            paths@.len() == i,
            forall|k: int| 0 <= k < i ==> (#[trigger] paths@[k])@ == records@[k].path@,
        decreases records.len() - i,
    {
        paths.push(records[i].path.clone());
        i += 1;
    }
    let record_index = index_paths(&paths);
    let ghost n = records@.len() as int;
    let ghost m = payloads@.len() as int;
    let mut r: Vec<Admission> = Vec::new();
    i = 0;
    while i < records.len()
        invariant
            i <= records@.len(),
            n == records@.len(),
            m == payloads@.len(),
            contents@.len() == n,
            payload_index.wf(),
            payload_index@.len() == m,
            forall|k: int| 0 <= k < m ==> (#[trigger] payload_index@[k])@ == payloads@[k].path@,
            record_index.wf(),
            record_index@.len() == n,
            forall|k: int| 0 <= k < n ==> (#[trigger] record_index@[k])@ == records@[k].path@,
            r@.len() == i,
            forall|k: int|
                0 <= k < i ==> is_admission(
                    #[trigger] r@[k],
                    *root,
                    records@[k],
                    payload_of(records@, payloads@, k),
                    optional_bytes(contents@[k]),
                ),
        decreases records.len() - i,
    {
        let record = &records[i];
        let path = &record.path;
        let found_payload = payload_index.find_last(path);
        let found = record_index.find_all(path);
        let ghost p = |k: int| level(payload_index@[k], *path);
        let ghost q = |k: int| level(record_index@[k], *path);
        let ghost all = places_where(n, q);
        proof {
            lemma_last_where(m, p);
            lemma_places_where(n, q);
            assert forall|k: int| 0 <= k < m implies #[trigger] p(k) == is_payload_of(
                payloads@,
                path@,
            )(k) by {
                lemma_path_level(payload_index@[k]@, path@);
            }
            lemma_places_where_same(m, p, is_payload_of(payloads@, path@));
            assert forall|k: int| 0 <= k < n implies #[trigger] q(k) == (records@[k].path@ == path@) by {
                lemma_path_level(record_index@[k]@, path@);
            }
            assert(q(i as int));
            assert(all.contains(i as int));
            assert(places(found@) == all);
            assert(places(found@)[0] == found@[0] as int);
        }
        let first: bool = found[0] == i;
        let payload: Option<bool> = match found_payload {
            Some(place) => if first {
                Some(payloads[place].loads)
            } else {
                None
            },
            None => None,
        };
        proof {
            let at = choose|at: int| 0 <= at < all.len() && all[at] == i;
            if first {
                assert forall|k: int| 0 <= k < i implies (#[trigger] records@[k]).path@
                    != records@[i as int].path@ by {
                    if records@[k].path@ == path@ {
                        assert(q(k));
                        assert(all.contains(k));
                        let j = choose|j: int| 0 <= j < all.len() && all[j] == k;
                        if j > 0 {
                            assert(all[0] < all[j]);
                        }
                    }
                }
            } else {
                assert(all[0] < all[at]);
                assert(q(all[0]));
                assert(records@[all[0]].path@ == path@);
            }
            assert(payload == payload_of(records@, payloads@, i as int));
        }
        let admission: Admission = match &contents[i] {
            Some(bytes) => admit_record(root, record, payload, Some(bytes)),
            None => admit_record(root, record, payload, None),
        };
        r.push(admission);
        i += 1;
    }
    r
}

/// The records taken from the cache, counted.
pub open spec fn admitted(outcomes: Seq<Admission>) -> nat
    decreases outcomes.len(),
{
    if outcomes.len() == 0 {
        0
    } else {
        admitted(outcomes.drop_last()) + (if outcomes.last() is Admitted {
            1nat
        } else {
            0
        })
    }
}

/// Count what was loaded and what was skipped.
pub fn load_stats(outcomes: &Vec<Admission>) -> (r: LoadStats)
    ensures
        r.loaded == admitted(outcomes@),
        r.loaded + r.skipped == outcomes@.len(),
{
    let mut stats: LoadStats = LoadStats::default();
    let mut i: usize = 0;
    while i < outcomes.len()
        invariant
            i <= outcomes@.len(),
            stats.loaded == admitted(outcomes@.take(i as int)),
            stats.loaded + stats.skipped == i,
        decreases outcomes.len() - i,
    {
        assert(outcomes@.take(i as int + 1).drop_last() =~= outcomes@.take(i as int));
        match &outcomes[i] {
            Admission::Admitted(_) => {
                stats.loaded += 1;
            },
            _ => {
                stats.skipped += 1;
            },
        }
        i += 1;
    }
    assert(outcomes@.take(i as int) =~= outcomes@);
    stats
}

/// The buckets that a manifest names, without those whose names leave `shards/`.
pub fn shards_to_read(records: &Vec<ManifestRecord>) -> (r: Vec<String>)
    ensures
        forall|shard: Seq<char>|
            lists(r@, shard) == (stays_in_shards(path_parts(shard)) && exists|i: int|
                0 <= i < records@.len() && (#[trigger] records@[i]).shard@ == shard),
        are_distinct(r@),
{
    let mut names: Vec<String> = Vec::new();
    let mut i: usize = 0;
    while i < records.len()
        invariant
            i <= records@.len(),
            are_distinct(names@),
            forall|shard: Seq<char>| #[trigger]
                lists(names@, shard) == (stays_in_shards(path_parts(shard)) && exists|k: int|
                    0 <= k < i && (#[trigger] records@[k]).shard@ == shard),
        decreases records.len() - i,
    {
        let ghost before = names@;
        let shard = &records[i].shard;
        let safe: bool = is_safe_shard_name(shard.as_str());
        if safe {
            add_name(&mut names, shard);
        }
        i += 1;
        proof {
            assert forall|other: Seq<char>| #[trigger] lists(names@, other) == (stays_in_shards(
                path_parts(other),
            ) && exists|k: int| 0 <= k < i && (#[trigger] records@[k]).shard@ == other) by {
                assert(lists(names@, other) == (lists(before, other) || safe && other == shard@));
                if lists(before, other) {
                    let k = choose|k: int| 0 <= k < i - 1 && (#[trigger] records@[k]).shard@ == other;
                    assert(records@[k].shard@ == other);
                }
                if other == shard@ {
                    assert(records@[i - 1].shard@ == other);
                }
            }
        }
    }
    names
}

// ---------------------------------------------------------------------------
// Laws

/// Open buffers are never persisted: no planned overlay has a record.
pub proof fn overlays_are_never_persisted(
    planned: Seq<Planned>,
    metas: Seq<Option<FileMeta>>,
    root: RootDir,
    overlays: Seq<DocPath>,
    a: Analysis,
    previous: Seq<ManifestRecord>,
    i: int,
    k: int,
)
    requires
        is_plan(planned, root, overlays, a, previous),
        0 <= i < planned.len(),
        0 <= k < overlays.len(),
        a.extractions@[i].path@ == overlays[k]@,
    ensures
        !has_record(planned[i], metas[i]),
{
    assert(is_fate(
        planned[i],
        root,
        overlays,
        a.extractions@[i].path,
        hash_of(a.content_hashes@, a.extractions@[i].path@),
        previous,
    ));
}

/// A record describes the content that the snapshot was made from, whatever is on
/// disk by now.
pub proof fn records_describe_the_indexed_content(
    planned: Planned,
    root: RootDir,
    overlays: Seq<DocPath>,
    path: DocPath,
    hash: Option<Seq<u8>>,
    previous: Seq<ManifestRecord>,
)
    requires
        is_fate(planned, root, overlays, path, hash, previous),
    ensures
        planned.fate matches Fate::Reused { previous: own } ==> hash is Some
            && previous[own as int].content_hash@ == hex_text(hash->0),
        planned.fate matches Fate::Written { hash: text, .. } ==> hash is Some && text@ == hex_text(
            hash->0,
        ),
{
}

/// Saving an unchanged workspace writes no bucket: where every file's old record is
/// reused and no old record is lost, nothing is touched.
pub proof fn an_unchanged_save_writes_no_bucket(
    planned: Seq<Planned>,
    previous: Seq<ManifestRecord>,
    shard: Seq<char>,
)
    requires
        forall|i: int|
            0 <= i < planned.len() ==> (#[trigger] planned[i]).fate is Left || planned[i].fate is Reused
                || planned[i].fate is Unhashed,
        forall|p: int| 0 <= p < previous.len() ==> !#[trigger] is_lost(planned, previous, p),
    ensures
        !is_touched(planned, previous, shard),
{
    assert forall|i: int| 0 <= i < planned.len() implies !changes_bucket(
        #[trigger] planned[i],
        previous,
        shard,
    ) by {
        assert(planned[i].fate is Left || planned[i].fate is Reused || planned[i].fate is Unhashed);
    }
}

/// Every planned payload lies in a bucket right inside `shards/`.
pub proof fn payloads_stay_in_shards(
    planned: Planned,
    root: RootDir,
    overlays: Seq<DocPath>,
    path: DocPath,
    hash: Option<Seq<u8>>,
    previous: Seq<ManifestRecord>,
)
    requires
        is_fate(planned, root, overlays, path, hash, previous),
    ensures
        shard_of(planned, previous) matches Some(shard) ==> stays_in_shards(path_parts(shard)),
{
    if let Some(hash) = hash {
        let index = leading_byte(hex_text(hash));
        bucket_names_stay_in_shards(index);
    }
}

/// A manifest is the one that a save of a plan wrote.
pub open spec fn is_saved(
    manifest: Seq<ManifestRecord>,
    planned: Seq<Planned>,
    metas: Seq<Option<FileMeta>>,
    previous: Seq<ManifestRecord>,
) -> bool {
    &&& metas.len() == planned.len()
    &&& record_views(manifest) == records_of(planned, metas, previous, planned.len() as int)
}

/// The sizes and times that a save needs are those that the disk gives for the paths.
pub open spec fn are_measured(
    metas: Seq<Option<FileMeta>>,
    planned: Seq<Planned>,
    a: Analysis,
    disk: spec_fn(Seq<Part>) -> Option<FileMeta>,
) -> bool {
    &&& metas.len() == planned.len()
    &&& forall|i: int|
        0 <= i < planned.len() && (#[trigger] planned[i]).fate is Written ==> metas[i] == disk(
            a.extractions@[i].path@,
        )
}

/// Two files of the cache that are stored under one path are one file, and new
/// records spell it alike.
pub open spec fn stored_alike(planned: Seq<Planned>, a: Analysis) -> bool {
    forall|i: int, j: int|
        0 <= i < planned.len() && 0 <= j < planned.len() && !((#[trigger] planned[i]).fate is Left)
            && !((#[trigger] planned[j]).fate is Left) && planned[i].stored@ == planned[j].stored@
            ==> {
            &&& a.extractions@[i].path@ == a.extractions@[j].path@
            &&& planned[i].fate is Written && planned[j].fate is Written
                ==> planned[i].stored.spelling() == planned[j].stored.spelling()
        }
}

/// The fate that a plan gives the file at a place.
spec fn has_fate(
    planned: Seq<Planned>,
    root: RootDir,
    overlays: Seq<DocPath>,
    a: Analysis,
    previous: Seq<ManifestRecord>,
    i: int,
) -> bool {
    is_fate(
        planned[i],
        root,
        overlays,
        a.extractions@[i].path,
        hash_of(a.content_hashes@, a.extractions@[i].path@),
        previous,
    )
}

/// A record lies under the stored path of its file, and describes its content.
proof fn lemma_record_describes(
    planned: Seq<Planned>,
    metas: Seq<Option<FileMeta>>,
    root: RootDir,
    overlays: Seq<DocPath>,
    a: Analysis,
    previous: Seq<ManifestRecord>,
    i: int,
)
    requires
        is_plan(planned, root, overlays, a, previous),
        0 <= i < planned.len(),
        has_record(planned[i], metas[i]),
    ensures
        record_of(planned[i], metas[i], previous).path == planned[i].stored@,
        shard_of(planned[i], previous) == Some(record_of(planned[i], metas[i], previous).shard),
        hash_of(a.content_hashes@, a.extractions@[i].path@) matches Some(hash) && record_of(
            planned[i],
            metas[i],
            previous,
        ).content_hash == hex_text(hash) && record_of(planned[i], metas[i], previous).shard
            == bucket_of(hash),
{
    assert(has_fate(planned, root, overlays, a, previous, i));
    lemma_last_where(previous.len() as int, is_record_of(previous, planned[i].stored@));
}

/// Files stored under one path have one record, or none.
proof fn lemma_alike(
    planned: Seq<Planned>,
    metas: Seq<Option<FileMeta>>,
    root: RootDir,
    overlays: Seq<DocPath>,
    a: Analysis,
    previous: Seq<ManifestRecord>,
    disk: spec_fn(Seq<Part>) -> Option<FileMeta>,
    i: int,
    j: int,
)
    requires
        is_plan(planned, root, overlays, a, previous),
        are_measured(metas, planned, a, disk),
        stored_alike(planned, a),
        0 <= i < planned.len(),
        0 <= j < planned.len(),
        !(planned[i].fate is Left),
        !(planned[j].fate is Left),
        planned[i].stored@ == planned[j].stored@,
    ensures
        has_record(planned[i], metas[i]) == has_record(planned[j], metas[j]),
        has_record(planned[i], metas[i]) ==> record_of(planned[i], metas[i], previous) == record_of(
            planned[j],
            metas[j],
            previous,
        ),
{
    assert(has_fate(planned, root, overlays, a, previous, i));
    assert(has_fate(planned, root, overlays, a, previous, j));
}

/// Every record of a saved manifest is that of a file.
proof fn lemma_saved_record(
    manifest: Seq<ManifestRecord>,
    planned: Seq<Planned>,
    metas: Seq<Option<FileMeta>>,
    previous: Seq<ManifestRecord>,
    p: int,
) -> (i: int)
    requires
        is_saved(manifest, planned, metas, previous),
        0 <= p < manifest.len(),
    ensures
        0 <= i < planned.len(),
        has_record(planned[i], metas[i]),
        manifest[p]@ == record_of(planned[i], metas[i], previous),
{
    let n = planned.len() as int;
    let recorded = is_recorded(planned, metas);
    let found = places_where(n, recorded);
    lemma_places_where(n, recorded);
    assert(record_views(manifest)[p] == manifest[p]@);
    assert(record_views(manifest).len() == found.len());
    assert(recorded(found[p]));
    found[p]
}

/// Every file with a record has it in the saved manifest.
proof fn lemma_record_saved(
    manifest: Seq<ManifestRecord>,
    planned: Seq<Planned>,
    metas: Seq<Option<FileMeta>>,
    previous: Seq<ManifestRecord>,
    i: int,
) -> (p: int)
    requires
        is_saved(manifest, planned, metas, previous),
        0 <= i < planned.len(),
        has_record(planned[i], metas[i]),
    ensures
        0 <= p < manifest.len(),
        manifest[p]@ == record_of(planned[i], metas[i], previous),
{
    let n = planned.len() as int;
    let recorded = is_recorded(planned, metas);
    let found = places_where(n, recorded);
    lemma_places_where(n, recorded);
    assert(recorded(i));
    assert(found.contains(i));
    let p = choose|p: int| 0 <= p < found.len() && found[p] == i;
    assert(record_views(manifest).len() == found.len());
    assert(record_views(manifest)[p] == manifest[p]@);
    p
}

/// What two saves make of one file: it has a record after both or after neither,
/// and the same one.
proof fn lemma_saved_twice(
    first: Seq<Planned>,
    first_metas: Seq<Option<FileMeta>>,
    second: Seq<Planned>,
    second_metas: Seq<Option<FileMeta>>,
    root: RootDir,
    overlays: Seq<DocPath>,
    a: Analysis,
    previous: Seq<ManifestRecord>,
    manifest: Seq<ManifestRecord>,
    disk: spec_fn(Seq<Part>) -> Option<FileMeta>,
    i: int,
)
    requires
        is_plan(first, root, overlays, a, previous),
        are_measured(first_metas, first, a, disk),
        stored_alike(first, a),
        is_saved(manifest, first, first_metas, previous),
        is_plan(second, root, overlays, a, manifest),
        are_measured(second_metas, second, a, disk),
        0 <= i < first.len(),
    ensures
        first[i].stored@ == second[i].stored@,
        first[i].fate is Left == second[i].fate is Left,
        has_record(first[i], first_metas[i]) == has_record(second[i], second_metas[i]),
        has_record(first[i], first_metas[i]) ==> second[i].fate is Reused && record_of(
            first[i],
            first_metas[i],
            previous,
        ) == record_of(second[i], second_metas[i], manifest),
        second[i].fate is Written ==> first[i].fate is Written && first_metas[i] is None
            && shard_of(second[i], manifest) == shard_of(first[i], previous) && record_place(
            manifest,
            second[i].stored@,
        ) is None,
{
    assert(has_fate(first, root, overlays, a, previous, i));
    assert(has_fate(second, root, overlays, a, manifest, i));
    let stored = first[i].stored@;
    let n = manifest.len() as int;
    let own = is_record_of(manifest, stored);
    lemma_last_where(n, own);
    lemma_places_where(n, own);
    if has_record(first[i], first_metas[i]) {
        let p = lemma_record_saved(manifest, first, first_metas, previous, i);
        lemma_record_describes(first, first_metas, root, overlays, a, previous, i);
        assert(manifest[p]@.path == stored);
        assert(own(p));
        assert(places_where(n, own).contains(p));
    }
    if !(first[i].fate is Left) {
        if let Some(place) = record_place(manifest, stored) {
            // The record that counts is that of some file stored under the path.
            let j = lemma_saved_record(manifest, first, first_metas, previous, place);
            lemma_record_describes(first, first_metas, root, overlays, a, previous, j);
            assert(manifest[place]@.path == stored);
            lemma_alike(first, first_metas, root, overlays, a, previous, disk, i, j);
            lemma_record_describes(first, first_metas, root, overlays, a, previous, i);
            assert(manifest[place]@ == record_of(first[i], first_metas[i], previous));
            assert(still_describes(
                manifest[place],
                hash_of(a.content_hashes@, a.extractions@[i].path@)->0,
            ));
            assert(second[i].fate == (Fate::Reused { previous: place as usize }));
        }
    }
}

/// A second save without changes is idempotent. Planned over the manifest that the
/// first one wrote, with the disk as it was, it writes the same manifest; every bucket
/// holds the same files; a bucket is written only if the first save wrote it too, and
/// none is if every file with a content hash got its record. Two spellings of one new
/// file are left out: the second save would write the last one for both.
pub proof fn a_second_save_is_idempotent(
    first: Seq<Planned>,
    first_metas: Seq<Option<FileMeta>>,
    second: Seq<Planned>,
    second_metas: Seq<Option<FileMeta>>,
    root: RootDir,
    overlays: Seq<DocPath>,
    a: Analysis,
    previous: Seq<ManifestRecord>,
    manifest: Seq<ManifestRecord>,
    again: Seq<ManifestRecord>,
    disk: spec_fn(Seq<Part>) -> Option<FileMeta>,
)
    requires
        is_plan(first, root, overlays, a, previous),
        is_saved(manifest, first, first_metas, previous),
        is_plan(second, root, overlays, a, manifest),
        is_saved(again, second, second_metas, manifest),
        are_measured(first_metas, first, a, disk),
        are_measured(second_metas, second, a, disk),
        stored_alike(first, a),
    ensures
        record_views(again) == record_views(manifest),
        forall|shard: Seq<char>| #[trigger]
            bucket_places(second, second_metas, manifest, shard) == bucket_places(
                first,
                first_metas,
                previous,
                shard,
            ),
        forall|shard: Seq<char>| #[trigger]
            is_touched(second, manifest, shard) ==> is_touched(first, previous, shard),
        (forall|i: int|
            0 <= i < first.len() && (#[trigger] first[i]).fate is Written ==> first_metas[i] is Some)
            ==> forall|shard: Seq<char>| !#[trigger] is_touched(second, manifest, shard),
{
    let n = first.len() as int;
    assert forall|i: int| 0 <= i < n implies ({
        &&& (#[trigger] first[i]).stored@ == second[i].stored@
        &&& first[i].fate is Left == second[i].fate is Left
        &&& has_record(first[i], first_metas[i]) == has_record(second[i], second_metas[i])
        &&& has_record(first[i], first_metas[i]) ==> record_of(first[i], first_metas[i], previous)
            == record_of(second[i], second_metas[i], manifest) && shard_of(first[i], previous)
            == shard_of(second[i], manifest)
        &&& second[i].fate is Written ==> first[i].fate is Written && first_metas[i] is None
            && shard_of(second[i], manifest) == shard_of(first[i], previous) && record_place(
            manifest,
            second[i].stored@,
        ) is None
    }) by {
        lemma_saved_twice(
            first,
            first_metas,
            second,
            second_metas,
            root,
            overlays,
            a,
            previous,
            manifest,
            disk,
            i,
        );
        if has_record(first[i], first_metas[i]) {
            lemma_record_describes(first, first_metas, root, overlays, a, previous, i);
            lemma_record_describes(second, second_metas, root, overlays, a, manifest, i);
        }
    }
    // The manifest.
    let (p, q) = (is_recorded(first, first_metas), is_recorded(second, second_metas));
    assert forall|i: int| 0 <= i < n implies #[trigger] p(i) == q(i) by {
        assert(first[i].stored@ == second[i].stored@);
    }
    lemma_places_where_same(n, p, q);
    lemma_places_where(n, p);
    assert(records_of(second, second_metas, manifest, n) =~= records_of(
        first,
        first_metas,
        previous,
        n,
    )) by {
        let found = places_where(n, p);
        assert forall|k: int| 0 <= k < found.len() implies record_of(
            second[found[k]],
            second_metas[found[k]],
            manifest,
        ) == record_of(#[trigger] first[found[k]], first_metas[found[k]], previous) by {
            assert(p(found[k]));
        }
    }
    // The files of each bucket.
    assert forall|shard: Seq<char>| #[trigger]
        bucket_places(second, second_metas, manifest, shard) == bucket_places(
            first,
            first_metas,
            previous,
            shard,
        ) by {
        let (p, q) = (
            is_in_bucket(first, first_metas, previous, shard),
            is_in_bucket(second, second_metas, manifest, shard),
        );
        assert forall|i: int| 0 <= i < n implies #[trigger] p(i) == q(i) by {
            assert(first[i].stored@ == second[i].stored@);
        }
        lemma_places_where_same(n, p, q);
    }
    // No record is lost.
    assert forall|k: int| 0 <= k < manifest.len() implies !#[trigger] is_lost(second, manifest, k) by {
        let i = lemma_saved_record(manifest, first, first_metas, previous, k);
        lemma_record_describes(first, first_metas, root, overlays, a, previous, i);
        assert(manifest[k]@.path == first[i].stored@);
        assert(first[i].stored@ == second[i].stored@);
        assert(!(second[i].fate is Left));
    }
    // What is written again was written before.
    assert forall|shard: Seq<char>| #[trigger] is_touched(second, manifest, shard) implies is_touched(
        first,
        previous,
        shard,
    ) && exists|i: int|
        0 <= i < n && (#[trigger] first[i]).fate is Written && first_metas[i] is None by {
        let i = choose|i: int|
            0 <= i < second.len() && changes_bucket(#[trigger] second[i], manifest, shard);
        assert(first[i].stored@ == second[i].stored@);
        assert(has_fate(second, root, overlays, a, manifest, i));
        assert(changes_bucket(first[i], previous, shard));
    }
}

/// Every file that a save leaves in the `shards` directory is named by a record of
/// the manifest: what is no orphan has one.
pub proof fn kept_buckets_are_named(
    records: Seq<ManifestRecord>,
    referenced: Seq<String>,
    name: Seq<char>,
)
    requires
        forall|shard: Seq<char>| lists(referenced, shard) == names_bucket(records, shard),
    ensures
        lists(referenced, "shards/"@ + name) ==> exists|i: int|
            0 <= i < records.len() && (#[trigger] records[i]).shard@ == "shards/"@ + name,
        forall|i: int|
            0 <= i < records.len() && (#[trigger] records[i]).shard@ == "shards/"@ + name ==> lists(
                referenced,
                "shards/"@ + name,
            ),
{
    let shard = "shards/"@ + name;
    assert(lists(referenced, shard) == names_bucket(records, shard));
    assert forall|i: int| 0 <= i < records.len() && (#[trigger] records[i]).shard@ == shard implies lists(
        referenced,
        shard,
    ) by {
        assert(names_bucket(records, shard));
    }
}

/// A saved record is taken back: while the file has the bytes that were indexed and
/// the payload loads, a cold start admits the record under the path of the file.
/// Prefixes of a platform other than a drive's are left out, and so is a file whose
/// own path climbs above the root.
pub proof fn a_saved_record_is_admitted(
    planned: Planned,
    meta: Option<FileMeta>,
    root: RootDir,
    overlays: Seq<DocPath>,
    path: DocPath,
    previous: Seq<ManifestRecord>,
    record: ManifestRecord,
    bytes: Seq<u8>,
    r: Admission,
)
    requires
        is_fate(planned, root, overlays, path, Some(content_fingerprint(bytes)), previous),
        has_record(planned, meta),
        record@ == record_of(planned, meta, previous),
        is_admission(r, root, record, Some(true), Some(bytes)),
        root@.len() > lead(path@),
        is_ordinary(path@),
        is_unprefixed(record.path@),
        lead(absolute_parts(root.spelling(), record.path.spelling())) == lead(path@),
        stays_below(path@.skip(root@.len() as int)),
    ensures
        r matches Admission::Admitted(at) && at@ == path@,
{
    lemma_last_where(previous.len() as int, is_record_of(previous, planned.stored@));
    assert(is_under(path@, root@));
    assert(record@.path == planned.stored@);
    assert(root@[0] == path@[0]) by {
        assert(path@.take(root@.len() as int)[0] == path@[0]);
    }
    assert(root@ + path@.skip(root@.len() as int) =~= path@);
    assert(absolute_parts(root.spelling(), record.path.spelling()) == path@);
}

/// A bucket that is not rewritten still holds what the new manifest says: every record
/// that names it is an old one, unchanged. Where the content hash of every file of the
/// cache is known, every old record that counts and names it is there again, too.
pub proof fn an_untouched_bucket_keeps_its_records(
    planned: Seq<Planned>,
    metas: Seq<Option<FileMeta>>,
    root: RootDir,
    overlays: Seq<DocPath>,
    a: Analysis,
    previous: Seq<ManifestRecord>,
    manifest: Seq<ManifestRecord>,
    shard: Seq<char>,
)
    requires
        is_plan(planned, root, overlays, a, previous),
        is_saved(manifest, planned, metas, previous),
        !is_touched(planned, previous, shard),
    ensures
        forall|k: int|
            0 <= k < manifest.len() && (#[trigger] manifest[k]).shard@ == shard ==> exists|p: int|
                0 <= p < previous.len() && (#[trigger] previous[p])@ == manifest[k]@ && record_place(
                    previous,
                    previous[p].path@,
                ) == Some(p),
        (forall|i: int| 0 <= i < planned.len() ==> !((#[trigger] planned[i]).fate is Unhashed))
            ==> forall|p: int|
            0 <= p < previous.len() && (#[trigger] previous[p]).shard@ == shard && record_place(
                previous,
                previous[p].path@,
            ) == Some(p) ==> exists|k: int|
                0 <= k < manifest.len() && (#[trigger] manifest[k])@ == previous[p]@,
{
    assert forall|k: int| 0 <= k < manifest.len() && (#[trigger] manifest[k]).shard@ == shard implies exists|
        p: int,
    |
        0 <= p < previous.len() && (#[trigger] previous[p])@ == manifest[k]@ && record_place(
            previous,
            previous[p].path@,
        ) == Some(p) by {
        let i = lemma_saved_record(manifest, planned, metas, previous, k);
        assert(has_fate(planned, root, overlays, a, previous, i));
        assert(!changes_bucket(planned[i], previous, shard));
        lemma_last_where(previous.len() as int, is_record_of(previous, planned[i].stored@));
        let own = planned[i].fate->Reused_previous as int;
        assert(previous[own]@ == manifest[k]@);
    }
    if forall|i: int| 0 <= i < planned.len() ==> !((#[trigger] planned[i]).fate is Unhashed) {
        assert forall|p: int|
            0 <= p < previous.len() && (#[trigger] previous[p]).shard@ == shard && record_place(
                previous,
                previous[p].path@,
            ) == Some(p) implies exists|k: int|
            0 <= k < manifest.len() && (#[trigger] manifest[k])@ == previous[p]@ by {
            assert(!is_lost(planned, previous, p));
            let i = choose|i: int|
                0 <= i < planned.len() && !((#[trigger] planned[i]).fate is Left)
                    && planned[i].stored@ == previous[p].path@;
            assert(has_fate(planned, root, overlays, a, previous, i));
            assert(!changes_bucket(planned[i], previous, shard));
            let k = lemma_record_saved(manifest, planned, metas, previous, i);
            assert(manifest[k]@ == previous[p]@);
        }
    }
}

/// Stored paths tell the files of the cache apart: two under one stored path have one
/// path. Prefixes of a platform other than a drive's are left out.
pub proof fn stored_paths_tell_files_apart(
    planned: Seq<Planned>,
    root: RootDir,
    overlays: Seq<DocPath>,
    a: Analysis,
    previous: Seq<ManifestRecord>,
    i: int,
    j: int,
)
    requires
        is_plan(planned, root, overlays, a, previous),
        0 <= i < planned.len(),
        0 <= j < planned.len(),
        !(planned[i].fate is Left),
        !(planned[j].fate is Left),
        is_ordinary(a.extractions@[i].path@),
        is_ordinary(a.extractions@[j].path@),
        is_unprefixed(planned[i].stored@),
        planned[i].stored@ == planned[j].stored@,
    ensures
        a.extractions@[i].path@ == a.extractions@[j].path@,
{
    assert(has_fate(planned, root, overlays, a, previous, i));
    assert(has_fate(planned, root, overlays, a, previous, j));
    let (x, y) = (a.extractions@[i].path@, a.extractions@[j].path@);
    let n = root@.len() as int;
    assert(x =~= x.take(n) + x.skip(n));
    assert(y =~= y.take(n) + y.skip(n));
}

} // verus!
