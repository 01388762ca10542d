//! The shard cache: what a save keeps and what a cold start takes back.

use vstd::prelude::*;
use vstd::string::*;

use crate::index::snapshot::IndexSnapshot;
use crate::index::hash_of;
use crate::lookup::{lemma_places_where, places_where};
use crate::order::places;
use crate::model::content_fingerprint;
use crate::path::{is_under, Part, DocPath};
use crate::shards::io::{hex_text, padded_text};
use crate::shards::{
    absolute_parts, admit_record, admitted, bucket_files, bucket_of, changes_bucket, descent,
    expected_hash, expected_hashes, is_first_payload, is_in_bucket, is_lost, is_orphan,
    is_record_of, is_recorded, is_touched, joined_path, lists, load_stats, new_manifest, plan_save,
    record_of, record_place, records_of, stays_below, stored_spelling, touched_buckets, Admission,
    Fate, FileMeta, LoadStats, Manifest, ManifestRecord, Planned,
};
use crate::text::decimal_text;
use crate::types::RootDir;

verus! {

// ---------------------------------------------------------------------------
// Hashes and buckets

/// A byte is written as its two hexadecimal digits, the higher one first, in the order
/// of the bytes.
pub proof fn hex_writes_each_byte(bytes: Seq<u8>, i: int)
    requires
        0 <= i < bytes.len(),
    ensures
        hex_text(bytes).len() == 2 * bytes.len(),
        hex_text(bytes)[2 * i] == "0123456789abcdef"@[bytes[i] as int / 16],
        hex_text(bytes)[2 * i + 1] == "0123456789abcdef"@[bytes[i] as int % 16],
    decreases bytes.len(),
{
    let rest = bytes.drop_last();
    crate::shards::io::hex_has_two_digits_a_byte(rest);
    crate::shards::io::hex_has_two_digits_a_byte(bytes);
    if i < rest.len() {
        hex_writes_each_byte(rest, i);
        assert(hex_text(bytes)[2 * i] == hex_text(rest)[2 * i]);
        assert(hex_text(bytes)[2 * i + 1] == hex_text(rest)[2 * i + 1]);
    }
}

/// There are sixteen buckets: that of a content goes by the first byte of its hash, and
/// is named by three digits in `shards/`.
pub proof fn a_content_has_its_bucket(hash: Seq<u8>)
    requires
        hash.len() > 0,
    ensures
        ({
            let k = hash[0] as int % 16;
            bucket_of(hash) == "shards/"@ + seq!['0', "0123456789"@[k / 10], "0123456789"@[k % 10]]
                + ".jsonl"@
        }),
{
    let k = hash[0] as int % 16;
    crate::shards::io::bucket_follows_the_first_byte(hash);
    reveal_strlit("0123456789");
    reveal_with_fuel(decimal_text, 3);
    let text = padded_text(k as nat, 3);
    assert(text =~= seq!['0', "0123456789"@[k / 10], "0123456789"@[k % 10]]);
}

// ---------------------------------------------------------------------------
// Saving

/// A record of a path counts: none of the path stands behind it.
pub open spec fn counts(records: Seq<ManifestRecord>, path: Seq<Part>, p: int) -> bool {
    &&& 0 <= p < records.len()
    &&& records[p].path@ == path
    &&& forall|k: int| p < k < records.len() ==> (#[trigger] records[k]).path@ != path
}

proof fn lemma_counts(records: Seq<ManifestRecord>, path: Seq<Part>)
    ensures
        forall|p: int| #[trigger] counts(records, path, p) <==> record_place(records, path) == Some(p),
{
    let own = is_record_of(records, path);
    let n = records.len() as int;
    super::findings::the_last_place_is_the_last(n, own);
    assert forall|p: int| #[trigger] counts(records, path, p) <==> record_place(records, path) == Some(
        p,
    ) by {
        match record_place(records, path) {
            Some(q) => {
                assert(own(q));
                assert forall|k: int| q < k < n implies (#[trigger] records[k]).path@ != path by {
                    assert(!own(k));
                }
                if counts(records, path, p) && p < q {
                    assert(records[q].path@ != path);
                }
                if counts(records, path, p) && q < p {
                    assert(!own(p));
                }
            },
            None => {
                if counts(records, path, p) {
                    assert(!own(p));
                }
            },
        }
    }
}

/// A file belongs in the cache: it lies under the root, and no open buffer stands for it.
pub open spec fn is_kept(root: Seq<Part>, overlays: Seq<DocPath>, path: Seq<Part>) -> bool {
    is_under(path, root) && !exists|k: int|
        0 <= k < overlays.len() && (#[trigger] overlays[k])@ == path
}

/// An old record still describes a content: the one that counts for its path, with its
/// hash and in its bucket.
pub open spec fn still_holds(
    previous: Seq<ManifestRecord>,
    stored: Seq<Part>,
    hash: Seq<u8>,
    p: int,
) -> bool {
    &&& counts(previous, stored, p)
    &&& previous[p].content_hash@ == hex_text(hash)
    &&& previous[p].shard@ == bucket_of(hash)
}

/// The decision for one file of a save: outside the root or overlaid it is left, without
/// a hash it gets no record, an old record that still describes it is reused, and
/// otherwise one is written with its hash in the bucket of that.
pub open spec fn is_decided(
    planned: Planned,
    root: Seq<Part>,
    overlays: Seq<DocPath>,
    path: Seq<Part>,
    hash: Option<Seq<u8>>,
    previous: Seq<ManifestRecord>,
) -> bool {
    let stored = planned.stored@;
    &&& planned.fate is Left <==> !is_kept(root, overlays, path)
    &&& planned.fate is Unhashed <==> is_kept(root, overlays, path) && hash is None
    &&& forall|p: int|
        is_kept(root, overlays, path) && hash is Some && #[trigger] still_holds(
            previous,
            stored,
            hash->0,
            p,
        ) ==> (planned.fate matches Fate::Reused { previous: own } && own == p)
    &&& planned.fate matches Fate::Reused { previous: own } ==> hash is Some && still_holds(
        previous,
        stored,
        hash->0,
        own as int,
    )
    &&& planned.fate matches Fate::Written { hash: text, shard, replaces } ==> hash is Some && text@
        == hex_text(hash->0) && shard@ == bucket_of(hash->0) && (match replaces {
        Some(old) => counts(previous, stored, old as int),
        None => forall|p: int| !#[trigger] counts(previous, stored, p),
    })
}

proof fn lemma_decided(
    planned: Planned,
    root: RootDir,
    overlays: Seq<DocPath>,
    path: DocPath,
    hash: Option<Seq<u8>>,
    previous: Seq<ManifestRecord>,
)
    requires
        crate::shards::is_fate(planned, root, overlays, path, hash, previous),
    ensures
        is_decided(planned, root@, overlays, path@, hash, previous),
{
    lemma_counts(previous, planned.stored@);
    if is_kept(root@, overlays, path@) {
        assert forall|i: int| 0 <= i < overlays.len() implies (#[trigger] overlays[i])@ != path@ by {}
    }
    if let Fate::Written { hash: text, shard, replaces } = planned.fate {
        match replaces {
            Some(old) => {
                assert(counts(previous, planned.stored@, old as int));
            },
            None => {},
        }
    }
    if let Fate::Reused { previous: own } = planned.fate {
        assert(counts(previous, planned.stored@, own as int));
    }
    assert forall|p: int|
        is_kept(root@, overlays, path@) && hash is Some && #[trigger] still_holds(
            previous,
            planned.stored@,
            hash->0,
            p,
        ) implies (planned.fate matches Fate::Reused { previous: own } && own == p) by {
        assert(counts(previous, planned.stored@, p));
        assert(record_place(previous, planned.stored@) == Some(p));
    }
}

/// A save decides for every file of the snapshot, in the order of the files, by the last
/// content hash that the snapshot recorded for it.
pub proof fn a_save_decides_for_every_file(
    root: RootDir,
    snapshot: IndexSnapshot,
    overlays: Vec<DocPath>,
    previous: Manifest,
    r: Vec<Planned>,
)
    requires
        call_ensures(plan_save, (&root, &snapshot, &overlays, &previous), r),
    ensures
        r@.len() == snapshot@.extractions@.len(),
        forall|i: int|
            0 <= i < r@.len() ==> is_decided(
                #[trigger] r@[i],
                root@,
                overlays@,
                snapshot@.extractions@[i].path@,
                hash_of(snapshot@.content_hashes@, snapshot@.extractions@[i].path@),
                previous@,
            ),
        forall|i: int|
            0 <= i < r@.len() ==> (#[trigger] r@[i]).stored.spelling() == stored_spelling(
                root.spelling(),
                snapshot@.extractions@[i].path.spelling(),
            ),
{
    assert forall|i: int| 0 <= i < r@.len() implies is_decided(
        #[trigger] r@[i],
        root@,
        overlays@,
        snapshot@.extractions@[i].path@,
        hash_of(snapshot@.content_hashes@, snapshot@.extractions@[i].path@),
        previous@,
    ) by {
        lemma_decided(
            r@[i],
            root,
            overlays@,
            snapshot@.extractions@[i].path,
            hash_of(snapshot@.content_hashes@, snapshot@.extractions@[i].path@),
            previous@,
        );
    }
}

/// A bucket is rewritten if and only if a file is written to it, a file written elsewhere
/// had its record there, or a record that counts there has no file of the cache any more.
pub proof fn a_bucket_is_rewritten_when_it_changes(
    planned: Vec<Planned>,
    previous: Manifest,
    r: Vec<String>,
    shard: Seq<char>,
)
    requires
        call_ensures(touched_buckets, (&planned, &previous), r),
    ensures
        (exists|m: int| 0 <= m < r@.len() && (#[trigger] r@[m])@ == shard) <==> {
            ||| exists|i: int| #[trigger] is_written_to(planned@, i, shard)
            ||| exists|i: int| #[trigger] is_replaced_in(planned@, previous@, i, shard)
            ||| exists|p: int| #[trigger] is_gone_from(planned@, previous@, p, shard)
        },
        forall|i: int, j: int| 0 <= i < j < r@.len() ==> (#[trigger] r@[i])@ != (#[trigger] r@[j])@,
{
    assert(lists(r@, shard) == is_touched(planned@, previous@, shard));
    if exists|i: int| #[trigger] is_written_to(planned@, i, shard) {
        let i = choose|i: int| #[trigger] is_written_to(planned@, i, shard);
        assert(changes_bucket(planned@[i], previous@, shard));
    }
    if exists|i: int| #[trigger] is_replaced_in(planned@, previous@, i, shard) {
        let i = choose|i: int| #[trigger] is_replaced_in(planned@, previous@, i, shard);
        assert(changes_bucket(planned@[i], previous@, shard));
    }
    if exists|p: int| #[trigger] is_gone_from(planned@, previous@, p, shard) {
        let p = choose|p: int| #[trigger] is_gone_from(planned@, previous@, p, shard);
        lemma_counts(previous@, previous@[p].path@);
        assert(counts(previous@, previous@[p].path@, p));
        assert(is_lost(planned@, previous@, p));
    }
    if is_touched(planned@, previous@, shard) {
        if exists|i: int| 0 <= i < planned@.len() && changes_bucket(#[trigger] planned@[i], previous@, shard) {
            let i = choose|i: int|
                0 <= i < planned@.len() && changes_bucket(#[trigger] planned@[i], previous@, shard);
            assert(is_written_to(planned@, i, shard) || is_replaced_in(planned@, previous@, i, shard));
        } else {
            let p = choose|p: int|
                0 <= p < previous@.len() && #[trigger] is_lost(planned@, previous@, p)
                    && previous@[p].shard@ == shard;
            lemma_counts(previous@, previous@[p].path@);
            assert(counts(previous@, previous@[p].path@, p));
            assert(is_gone_from(planned@, previous@, p, shard));
        }
    }
}

/// A file is written to a bucket.
pub open spec fn is_written_to(planned: Seq<Planned>, i: int, shard: Seq<char>) -> bool {
    0 <= i < planned.len() && (planned[i].fate matches Fate::Written { shard: own, .. } && own@ == shard)
}

/// A file that is written had its record in a bucket.
pub open spec fn is_replaced_in(
    planned: Seq<Planned>,
    previous: Seq<ManifestRecord>,
    i: int,
    shard: Seq<char>,
) -> bool {
    0 <= i < planned.len() && (planned[i].fate matches Fate::Written { replaces: Some(old), .. }
        && previous[old as int].shard@ == shard)
}

/// A record that counts lies in a bucket, and no file of the cache has its path.
pub open spec fn is_gone_from(
    planned: Seq<Planned>,
    previous: Seq<ManifestRecord>,
    p: int,
    shard: Seq<char>,
) -> bool {
    &&& 0 <= p < previous.len()
    &&& counts(previous, previous[p].path@, p)
    &&& previous[p].shard@ == shard
    &&& forall|i: int|
        0 <= i < planned.len() && !((#[trigger] planned[i]).fate is Left) ==> planned[i].stored@
            != previous[p].path@
}

/// A planned file gets a record: an old one is reused as it is, a new one needs the size
/// and time of the file.
pub open spec fn gets_record(planned: Seq<Planned>, metas: Seq<Option<FileMeta>>, i: int) -> bool {
    planned[i].fate is Reused || planned[i].fate is Written && metas[i] is Some
}

/// A new manifest has the records of exactly the files that get one, in their order: the
/// old record as it was, or the path, hash, bucket, size and time of the file.
pub proof fn a_manifest_records_every_file(
    planned: Vec<Planned>,
    metas: Vec<Option<FileMeta>>,
    previous: Manifest,
    r: Vec<ManifestRecord>,
) -> (from: Seq<int>)
    requires
        call_ensures(new_manifest, (&planned, &metas, &previous), r),
    ensures
        r@.len() == from.len(),
        forall|k: int| 0 <= k < from.len() ==> 0 <= #[trigger] from[k] < planned@.len(),
        forall|j: int, k: int| 0 <= j < k < from.len() ==> #[trigger] from[j] < #[trigger] from[k],
        forall|i: int|
            0 <= i < planned@.len() ==> (#[trigger] from.contains(i) <==> gets_record(
                planned@,
                metas@,
                i,
            )),
        forall|k: int|
            0 <= k < r@.len() ==> {
                let (record, own) = (#[trigger] r@[k], planned@[from[k]]);
                match own.fate {
                    Fate::Reused { previous: old } => record@ == previous@[old as int]@,
                    Fate::Written { hash, shard, .. } => {
                        &&& record.path.spelling() == own.stored.spelling()
                        &&& record.path@ == own.stored@
                        &&& record.content_hash@ == hash@
                        &&& record.shard@ == shard@
                        &&& record.size == metas@[from[k]]->0.size
                        &&& record.mtime == metas@[from[k]]->0.mtime
                    },
                    _ => false,
                }
            },
{
    let n = planned@.len() as int;
    let p = is_recorded(planned@, metas@);
    let from = places_where(n, p);
    lemma_places_where(n, p);
    let views = crate::shards::record_views(r@);
    assert(views == records_of(planned@, metas@, previous@, n));
    assert(views.len() == r@.len());
    assert forall|i: int| 0 <= i < planned@.len() implies (#[trigger] from.contains(i) <==> gets_record(
        planned@,
        metas@,
        i,
    )) by {
        assert(p(i) == gets_record(planned@, metas@, i));
        if from.contains(i) {
            let k = choose|k: int| 0 <= k < from.len() && from[k] == i;
            assert(p(from[k]));
        }
    }
    assert forall|k: int| 0 <= k < r@.len() implies {
        let (record, own) = (#[trigger] r@[k], planned@[from[k]]);
        match own.fate {
            Fate::Reused { previous: old } => record@ == previous@[old as int]@,
            Fate::Written { hash, shard, .. } => {
                &&& record.path.spelling() == own.stored.spelling()
                &&& record.path@ == own.stored@
                &&& record.content_hash@ == hash@
                &&& record.shard@ == shard@
                &&& record.size == metas@[from[k]]->0.size
                &&& record.mtime == metas@[from[k]]->0.mtime
            },
            _ => false,
        }
    } by {
        assert(p(from[k]));
        assert(views[k] == r@[k]@);
        assert(views[k] == record_of(planned@[from[k]], metas@[from[k]], previous@));
    }
    from
}

/// A bucket holds the payloads of exactly the files that get a record in it, in their
/// order: where the reused record lies, or where the new one is written.
pub proof fn a_bucket_holds_its_files(
    planned: Vec<Planned>,
    metas: Vec<Option<FileMeta>>,
    previous: Manifest,
    shard: &str,
    r: Vec<usize>,
)
    requires
        call_ensures(bucket_files, (&planned, &metas, &previous, shard), r),
    ensures
        forall|j: int, k: int| 0 <= j < k < r@.len() ==> #[trigger] r@[j] < #[trigger] r@[k],
        forall|k: int| 0 <= k < r@.len() ==> (#[trigger] r@[k]) < planned@.len(),
        forall|i: usize|
            i < planned@.len() ==> (#[trigger] r@.contains(i) <==> gets_record(
                planned@,
                metas@,
                i as int,
            ) && (match planned@[i as int].fate {
                Fate::Reused { previous: old } => previous@[old as int].shard@ == shard@,
                Fate::Written { shard: own, .. } => own@ == shard@,
                _ => false,
            })),
{
    let n = planned@.len() as int;
    let p = is_in_bucket(planned@, metas@, previous@, shard@);
    let found = places_where(n, p);
    lemma_places_where(n, p);
    assert(places(r@) == found);
    assert forall|k: int| 0 <= k < r@.len() implies #[trigger] r@[k] as int == found[k] by {
        assert(places(r@)[k] == r@[k] as int);
    }
    assert forall|i: usize| i < planned@.len() implies (#[trigger] r@.contains(i) <==> gets_record(
        planned@,
        metas@,
        i as int,
    ) && (match planned@[i as int].fate {
        Fate::Reused { previous: old } => previous@[old as int].shard@ == shard@,
        Fate::Written { shard: own, .. } => own@ == shard@,
        _ => false,
    })) by {
        assert(p(i as int) == (gets_record(planned@, metas@, i as int) && (match planned@[i as int].fate {
            Fate::Reused { previous: old } => previous@[old as int].shard@ == shard@,
            Fate::Written { shard: own, .. } => own@ == shard@,
            _ => false,
        })));
        if r@.contains(i) {
            let k = choose|k: int| 0 <= k < r@.len() && r@[k] == i;
            assert(p(found[k]));
        }
        if p(i as int) {
            assert(found.contains(i as int));
            let k = choose|k: int| 0 <= k < found.len() && found[k] == i as int;
            assert(r@[k] == i);
        }
    }
}

/// A file left in the `shards` directory is removed if and only if no bucket that records
/// lie in has its name.
pub proof fn only_unnamed_files_are_removed(name: &str, referenced: Vec<String>, r: bool)
    requires
        call_ensures(is_orphan, (name, &referenced), r),
    ensures
        r <==> forall|k: int|
            0 <= k < referenced@.len() ==> (#[trigger] referenced@[k])@ != "shards/"@ + name@,
{
}

// ---------------------------------------------------------------------------
// Loading

/// A payload must have the hash that the record which counts for its path has; a record
/// serves the first payload of its path.
pub proof fn a_payload_must_have_its_recorded_hash(
    records: Manifest,
    paths: Vec<DocPath>,
    r: Vec<Option<String>>,
    i: int,
)
    requires
        call_ensures(expected_hashes, (&records, &paths), r),
        0 <= i < paths@.len(),
    ensures
        r@.len() == paths@.len(),
        forall|p: int| #[trigger]
            counts(records@, paths@[i]@, p) && (forall|k: int|
                0 <= k < i ==> (#[trigger] paths@[k])@ != paths@[i]@) ==> (r@[i] matches Some(hash)
                && hash@ == records@[p].content_hash@),
        r@[i] is Some ==> (exists|p: int| #[trigger] counts(records@, paths@[i]@, p)) && forall|k: int|
            0 <= k < i ==> (#[trigger] paths@[k])@ != paths@[i]@,
{
    lemma_counts(records@, paths@[i]@);
    assert(match r@[i] {
        Some(hash) => expected_hash(records@, paths@, i) == Some(hash@),
        None => expected_hash(records@, paths@, i) is None,
    });
    if r@[i] is Some {
        let p = record_place(records@, paths@[i]@)->0;
        assert(counts(records@, paths@[i]@, p));
        assert(is_first_payload(paths@, i));
    }
    assert forall|p: int| #[trigger]
        counts(records@, paths@[i]@, p) && (forall|k: int|
            0 <= k < i ==> (#[trigger] paths@[k])@ != paths@[i]@) implies (r@[i] matches Some(hash)
        && hash@ == records@[p].content_hash@) by {
        assert(is_first_payload(paths@, i));
    }
}

/// Number of components of one sort in a path.
pub open spec fn ups(parts: Seq<Part>) -> int
    decreases parts.len(),
{
    if parts.len() == 0 {
        0
    } else {
        ups(parts.drop_last()) + (if parts.last() == Part::Parent {
            1int
        } else {
            0
        })
    }
}

/// Number of names in a path.
pub open spec fn downs(parts: Seq<Part>) -> int
    decreases parts.len(),
{
    if parts.len() == 0 {
        0
    } else {
        downs(parts.drop_last()) + (if parts.last() is Name {
            1int
        } else {
            0
        })
    }
}

/// A path lies in the root for good: it begins there, and nowhere behind it have more
/// steps led up than down.
pub open spec fn stays_inside(path: Seq<Part>, root: Seq<Part>) -> bool {
    &&& root.len() <= path.len()
    &&& forall|k: int| 0 <= k < root.len() ==> #[trigger] path[k] == root[k]
    &&& forall|n: int|
        root.len() <= n <= path.len() ==> ups(#[trigger] path.subrange(root.len() as int, n))
            <= downs(path.subrange(root.len() as int, n))
}

proof fn lemma_descent(parts: Seq<Part>)
    ensures
        descent(parts) == downs(parts) - ups(parts),
    decreases parts.len(),
{
    if parts.len() > 0 {
        lemma_descent(parts.drop_last());
    }
}

proof fn lemma_stays_inside(path: Seq<Part>, root: Seq<Part>)
    ensures
        crate::shards::stays_under(path, root) <==> stays_inside(path, root),
{
    if root.len() <= path.len() {
        let rest = path.skip(root.len() as int);
        if is_under(path, root) {
            assert forall|k: int| 0 <= k < root.len() implies #[trigger] path[k] == root[k] by {
                assert(path.take(root.len() as int)[k] == path[k]);
            }
        }
        if forall|k: int| 0 <= k < root.len() ==> #[trigger] path[k] == root[k] {
            assert(path.take(root.len() as int) =~= root);
        }
        assert forall|n: int| root.len() <= n <= path.len() implies #[trigger] path.subrange(
            root.len() as int,
            n,
        ) == rest.take(n - root.len()) by {
            assert(path.subrange(root.len() as int, n) =~= rest.take(n - root.len()));
        }
        if stays_below(rest) {
            assert forall|n: int| root.len() <= n <= path.len() implies ups(
                #[trigger] path.subrange(root.len() as int, n),
            ) <= downs(path.subrange(root.len() as int, n)) by {
                lemma_descent(rest.take(n - root.len()));
                assert(descent(rest.take(n - root.len())) >= 0);
            }
        }
        if stays_inside(path, root) {
            assert forall|n: int| 0 <= n <= rest.len() implies descent(#[trigger] rest.take(n)) >= 0 by {
                lemma_descent(rest.take(n));
                assert(path.subrange(root.len() as int, n + root.len()) == rest.take(n));
            }
        }
    }
}

/// A record is taken from the cache if and only if its payload is there and loads, its
/// path put behind the root stays in it, and the file's bytes have its hash; then under
/// that path.
pub proof fn a_record_is_taken_for_its_bytes_only(
    root: RootDir,
    record: ManifestRecord,
    payload: Option<bool>,
    bytes: Option<&Vec<u8>>,
    r: Admission,
)
    requires
        call_ensures(admit_record, (&root, &record, payload, bytes), r),
    ensures
        r is Admitted <==> {
            &&& payload == Some(true)
            &&& stays_inside(absolute_parts(root.spelling(), record.path.spelling()), root@)
            &&& bytes matches Some(bytes) && record.content_hash@ == hex_text(
                content_fingerprint(bytes@),
            )
        },
        r matches Admission::Admitted(path) ==> path@ == absolute_parts(
            root.spelling(),
            record.path.spelling(),
        ) && path.spelling() == joined_path(root.spelling(), record.path.spelling()),
        payload is None <==> r is NoPayload,
        r is OutsideRoot <==> payload is Some && !stays_inside(
            absolute_parts(root.spelling(), record.path.spelling()),
            root@,
        ),
{
    lemma_stays_inside(absolute_parts(root.spelling(), record.path.spelling()), root@);
}

/// What was loaded and what was skipped add up to the records: loaded are exactly those
/// admitted.
pub proof fn admitted_records_are_loaded(outcomes: Vec<Admission>, r: LoadStats) -> (from: Seq<int>)
    requires
        call_ensures(load_stats, (&outcomes,), r),
    ensures
        r.loaded == from.len(),
        r.loaded + r.skipped == outcomes@.len(),
        forall|m: int| 0 <= m < from.len() ==> 0 <= #[trigger] from[m] < outcomes@.len(),
        forall|m: int, k: int| 0 <= m < k < from.len() ==> #[trigger] from[m] < #[trigger] from[k],
        forall|i: int|
            0 <= i < outcomes@.len() ==> (#[trigger] from.contains(i) <==> outcomes@[i] is Admitted),
{
    let n = outcomes@.len() as int;
    let p = is_admitted(outcomes@);
    let from = places_where(n, p);
    lemma_places_where(n, p);
    lemma_admitted(outcomes@, n);
    assert(outcomes@.take(n) =~= outcomes@);
    assert forall|i: int| 0 <= i < outcomes@.len() implies (#[trigger] from.contains(i)
        <==> outcomes@[i] is Admitted) by {
        assert(p(i) == outcomes@[i] is Admitted);
        if from.contains(i) {
            let m = choose|m: int| 0 <= m < from.len() && from[m] == i;
            assert(p(from[m]));
        }
    }
    from
}

spec fn is_admitted(outcomes: Seq<Admission>) -> spec_fn(int) -> bool {
    |i: int| outcomes[i] is Admitted
}

proof fn lemma_admitted(outcomes: Seq<Admission>, n: int)
    requires
        0 <= n <= outcomes.len(),
    ensures
        admitted(outcomes.take(n)) == places_where(n, is_admitted(outcomes)).len(),
    decreases n,
{
    if n > 0 {
        lemma_admitted(outcomes, n - 1);
        assert(outcomes.take(n).drop_last() =~= outcomes.take(n - 1));
        assert(outcomes.take(n).last() == outcomes[n - 1]);
    }
}

} // verus!
