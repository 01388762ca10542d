//! How the engine's findings are read.

use vstd::prelude::*;

use crate::index::query::{
    innermost_call, innermost_reference, innermost_symbol, mentions, call_site_keys,
    reference_keys, symbol_keys,
};
use crate::index::{
    calls_at, edges_in, edges_out, file_place, first_of_each, hash_of, is_call_at, is_file_at,
    is_hash_at, is_named, is_node_at, is_record_at, is_version_at, lemma_target_place, node_id, recorded, scope_of, symbol_in, symbol_slots, symbol_with, target_place, version_of,
    Analysis, ContentHash, PathVersion,
};
use crate::lookup::{last_where, lemma_places_where, places_where};
use crate::model::{
    CallSiteVariant, FileExtraction, FileScope, ReferenceEdge, SourceRange, Symbol, Target,
};
use crate::order::{first_least_is_least, SortKey};
use crate::path::Part;

verus! {

// ---------------------------------------------------------------------------
// Entries by key

/// The last place of `0..n` at which a condition holds is the last: it holds there and
/// nowhere behind, and where it holds nowhere there is none.
pub proof fn the_last_place_is_the_last(n: int, p: spec_fn(int) -> bool)
    ensures
        match last_where(n, p) {
            Some(i) => 0 <= i < n && p(i) && forall|k: int| i < k < n ==> !#[trigger] p(k),
            None => forall|k: int| 0 <= k < n ==> !#[trigger] p(k),
        },
    decreases n,
{
    if n > 0 {
        the_last_place_is_the_last(n - 1, p);
    }
}

/// The extraction of a path is the last one of that path.
pub proof fn a_path_finds_its_extraction(a: Analysis, path: Seq<Part>)
    ensures
        match file_place(a, path) {
            Some(i) => 0 <= i < a.extractions@.len() && a.extractions@[i].path@ == path && forall|
                k: int,
            |
                i < k < a.extractions@.len() ==> (#[trigger] a.extractions@[k]).path@ != path,
            None => forall|k: int|
                0 <= k < a.extractions@.len() ==> (#[trigger] a.extractions@[k]).path@ != path,
        },
{
    let p = is_file_at(a.extractions@, path);
    let n = a.extractions@.len() as int;
    the_last_place_is_the_last(n, p);
    assert forall|k: int| 0 <= k < n && !p(k) implies (#[trigger] a.extractions@[k]).path@ != path by {}
}

/// A file of the graph has a path, and none behind it has.
pub open spec fn is_node_of(a: Analysis, path: Seq<Part>, i: int) -> bool {
    &&& 0 <= i < a.files@.len()
    &&& a.files@[i].path@ == path
    &&& forall|k: int| i < k < a.files@.len() ==> (#[trigger] a.files@[k]).path@ != path
}

/// The graph id of a path is that of the last file of the path.
pub proof fn a_path_finds_its_graph_id(a: Analysis, path: Seq<Part>)
    ensures
        match node_id(a, path) {
            Some(id) => exists|i: int| #[trigger] is_node_of(a, path, i) && a.files@[i].id == id,
            None => forall|k: int|
                0 <= k < a.files@.len() ==> (#[trigger] a.files@[k]).path@ != path,
        },
        forall|i: int| #[trigger] is_node_of(a, path, i) ==> node_id(a, path) == Some(a.files@[i].id),
{
    let p = is_node_at(a.files@, path);
    let n = a.files@.len() as int;
    the_last_place_is_the_last(n, p);
    match last_where(n, p) {
        Some(i) => {
            assert forall|k: int| i < k < n implies (#[trigger] a.files@[k]).path@ != path by {
                assert(!p(k));
            }
            assert(is_node_of(a, path, i));
            assert forall|j: int| #[trigger] is_node_of(a, path, j) implies j == i by {
                if j < i {
                    assert(a.files@[i].path@ != path);
                }
            }
        },
        None => {
            assert forall|k: int| 0 <= k < n implies (#[trigger] a.files@[k]).path@ != path by {
                assert(!p(k));
            }
        },
    }
}

/// A scope is that of a file, and none behind it is.
pub open spec fn is_scope_of(a: Analysis, file_id: u32, s: int) -> bool {
    &&& 0 <= s < a.scope@.len()
    &&& a.scope@[s].file_id == file_id
    &&& forall|k: int| s < k < a.scope@.len() ==> (#[trigger] a.scope@[k]).file_id != file_id
}

/// An entry of a scope is that of a name, and none behind it is.
pub open spec fn is_entry_of(scope: FileScope, name: Seq<char>, k: int) -> bool {
    &&& 0 <= k < scope.names@.len()
    &&& scope.names@[k].name@ == name
    &&& forall|m: int| k < m < scope.names@.len() ==> (#[trigger] scope.names@[m]).name@ != name
}

/// A name means a target in a file: the entry of the name in the scope of the file
/// lists it.
pub open spec fn means(a: Analysis, path: Seq<Part>, name: Seq<char>, id: u32) -> bool {
    exists|i: int, s: int, k: int|
        #![trigger is_node_of(a, path, i), is_scope_of(a, a.files@[i].id, s), is_entry_of(a.scope@[s], name, k)]
        is_node_of(a, path, i) && is_scope_of(a, a.files@[i].id, s) && is_entry_of(
            a.scope@[s],
            name,
            k,
        ) && mentions(a.scope@[s].names@[k].targets@, id)
}

/// The scope of a file is the last one with its graph id.
pub proof fn a_file_finds_its_scope(a: Analysis, file_id: u32)
    ensures
        match crate::index::scope_place(a, file_id) {
            Some(s) => is_scope_of(a, file_id, s),
            None => forall|k: int|
                0 <= k < a.scope@.len() ==> (#[trigger] a.scope@[k]).file_id != file_id,
        },
        forall|s: int| #[trigger]
            is_scope_of(a, file_id, s) ==> crate::index::scope_place(a, file_id) == Some(s),
{
    let p = |i: int| a.scope@[i].file_id == file_id;
    let n = a.scope@.len() as int;
    the_last_place_is_the_last(n, p);
    match last_where(n, p) {
        Some(i) => {
            assert forall|k: int| i < k < n implies (#[trigger] a.scope@[k]).file_id != file_id by {
                assert(!p(k));
            }
            assert forall|j: int| #[trigger] is_scope_of(a, file_id, j) implies j == i by {
                if j < i {
                    assert(a.scope@[i].file_id != file_id);
                }
            }
        },
        None => {
            assert forall|k: int| 0 <= k < n implies (#[trigger] a.scope@[k]).file_id != file_id by {
                assert(!p(k));
            }
        },
    }
}

/// The entry of a name is the last one with it.
pub proof fn a_name_finds_its_entry(scope: FileScope, name: Seq<char>)
    ensures
        match crate::index::name_place(scope, name) {
            Some(k) => is_entry_of(scope, name, k),
            None => forall|m: int|
                0 <= m < scope.names@.len() ==> (#[trigger] scope.names@[m]).name@ != name,
        },
        forall|k: int| #[trigger]
            is_entry_of(scope, name, k) ==> crate::index::name_place(scope, name) == Some(k),
{
    let p = is_named(scope.names@, name);
    let n = scope.names@.len() as int;
    the_last_place_is_the_last(n, p);
    match last_where(n, p) {
        Some(i) => {
            assert forall|k: int| i < k < n implies (#[trigger] scope.names@[k]).name@ != name by {
                assert(!p(k));
            }
            assert forall|j: int| #[trigger] is_entry_of(scope, name, j) implies j == i by {
                if j < i {
                    assert(scope.names@[i].name@ != name);
                }
            }
        },
        None => {
            assert forall|k: int| 0 <= k < n implies (#[trigger] scope.names@[k]).name@ != name by {
                assert(!p(k));
            }
        },
    }
}

/// What a name means in a file is what its entry in the scope of the file lists.
pub proof fn a_name_means_what_its_scope_lists(a: Analysis, path: Seq<Part>, name: Seq<char>, id: u32)
    ensures
        means(a, path, name, id) <==> (node_id(a, path) matches Some(file_id) && (scope_of(
            a,
            file_id,
            name,
        ) matches Some(targets) && mentions(targets, id))),
{
    a_path_finds_its_graph_id(a, path);
    if let Some(file_id) = node_id(a, path) {
        a_file_finds_its_scope(a, file_id);
        if let Some(s) = crate::index::scope_place(a, file_id) {
            a_name_finds_its_entry(a.scope@[s], name);
            if let Some(k) = crate::index::name_place(a.scope@[s], name) {
                let i = choose|i: int| #[trigger] is_node_of(a, path, i) && a.files@[i].id == file_id;
                assert(is_node_of(a, path, i) && is_scope_of(a, a.files@[i].id, s) && is_entry_of(
                    a.scope@[s],
                    name,
                    k,
                ));
            }
        }
    }
    if means(a, path, name, id) {
        let (i, s, k) = choose|i: int, s: int, k: int|
            #![trigger is_node_of(a, path, i), is_scope_of(a, a.files@[i].id, s), is_entry_of(a.scope@[s], name, k)]
            is_node_of(a, path, i) && is_scope_of(a, a.files@[i].id, s) && is_entry_of(
                a.scope@[s],
                name,
                k,
            ) && mentions(a.scope@[s].names@[k].targets@, id);
        assert(node_id(a, path) == Some(a.files@[i].id));
        a_file_finds_its_scope(a, a.files@[i].id);
        a_name_finds_its_entry(a.scope@[s], name);
    }
}

/// The hash of a path is the last one recorded for it.
pub proof fn a_path_finds_its_hash(hashes: Seq<ContentHash>, path: Seq<Part>)
    ensures
        match hash_of(hashes, path) {
            Some(hash) => exists|i: int|
                0 <= i < hashes.len() && (#[trigger] hashes[i]).path@ == path && hashes[i].hash@ == hash
                    && forall|k: int| i < k < hashes.len() ==> (#[trigger] hashes[k]).path@ != path,
            None => forall|k: int| 0 <= k < hashes.len() ==> (#[trigger] hashes[k]).path@ != path,
        },
{
    let p = is_hash_at(hashes, path);
    let n = hashes.len() as int;
    the_last_place_is_the_last(n, p);
    match last_where(n, p) {
        Some(i) => {
            assert(hashes[i].path@ == path && hashes[i].hash@ == hash_of(hashes, path)->0);
            assert forall|k: int| i < k < n implies (#[trigger] hashes[k]).path@ != path by {
                assert(!p(k));
            }
        },
        None => {
            assert forall|k: int| 0 <= k < n implies (#[trigger] hashes[k]).path@ != path by {
                assert(!p(k));
            }
        },
    }
}

/// The version of a path is the last one recorded for it.
pub proof fn a_path_finds_its_version(versions: Seq<PathVersion>, path: Seq<Part>)
    ensures
        match version_of(versions, path) {
            Some(version) => exists|i: int|
                0 <= i < versions.len() && (#[trigger] versions[i]).path@ == path
                    && versions[i].version == version && forall|k: int|
                    i < k < versions.len() ==> (#[trigger] versions[k]).path@ != path,
            None => forall|k: int| 0 <= k < versions.len() ==> (#[trigger] versions[k]).path@ != path,
        },
{
    let p = is_version_at(versions, path);
    let n = versions.len() as int;
    the_last_place_is_the_last(n, p);
    match last_where(n, p) {
        Some(i) => {
            assert(versions[i].path@ == path && versions[i].version == version_of(versions, path)->0);
            assert forall|k: int| i < k < n implies (#[trigger] versions[k]).path@ != path by {
                assert(!p(k));
            }
        },
        None => {
            assert forall|k: int| 0 <= k < n implies (#[trigger] versions[k]).path@ != path by {
                assert(!p(k));
            }
        },
    }
}

// ---------------------------------------------------------------------------
// Symbols

/// A symbol stands at a place of a file.
pub open spec fn declares(a: Analysis, file: int, at: int) -> bool {
    0 <= file < a.extractions@.len() && 0 <= at < a.extractions@[file].symbols@.len()
}

/// Some file holds a symbol.
pub open spec fn is_declared(a: Analysis, symbol: Symbol) -> bool {
    exists|file: int, at: int| #[trigger]
        declares(a, file, at) && a.extractions@[file].symbols@[at] == symbol
}

/// One place of a symbol comes behind another: in a later file, or later in its file.
pub open spec fn is_behind(file: int, at: int, other_file: int, other: int) -> bool {
    other_file < file || other_file == file && other < at
}

proof fn lemma_slots(files: Seq<FileExtraction>)
    ensures
        forall|k: int|
            0 <= k < symbol_slots(files).len() ==> {
                let slot = #[trigger] symbol_slots(files)[k];
                0 <= slot.0 < files.len() && 0 <= slot.1 < files[slot.0].symbols@.len()
            },
        forall|f: int, j: int|
            0 <= f < files.len() && 0 <= j < files[f].symbols@.len() ==> #[trigger] symbol_slots(
                files,
            ).contains((f, j)),
        forall|k: int, m: int|
            0 <= k < m < symbol_slots(files).len() ==> {
                let (x, y) = (#[trigger] symbol_slots(files)[k], #[trigger] symbol_slots(files)[m]);
                is_behind(y.0, y.1, x.0, x.1)
            },
    decreases files.len(),
{
    if files.len() > 0 {
        let rest = files.drop_last();
        lemma_slots(rest);
        let before = symbol_slots(rest);
        let all = symbol_slots(files);
        assert forall|k: int| 0 <= k < all.len() implies {
            let slot = #[trigger] all[k];
            0 <= slot.0 < files.len() && 0 <= slot.1 < files[slot.0].symbols@.len()
        } by {
            if k < before.len() {
                assert(all[k] == before[k]);
            }
        }
        assert forall|f: int, j: int|
            0 <= f < files.len() && 0 <= j < files[f].symbols@.len() implies #[trigger] all.contains(
            (f, j),
        ) by {
            if f < rest.len() {
                assert(rest[f] == files[f]);
                assert(before.contains((f, j)));
                let k = choose|k: int| 0 <= k < before.len() && before[k] == (f, j);
                assert(all[k] == (f, j));
            } else {
                assert(all[before.len() + j] == (f, j));
            }
        }
        assert forall|k: int, m: int| 0 <= k < m < all.len() implies {
            let (x, y) = (#[trigger] all[k], #[trigger] all[m]);
            is_behind(y.0, y.1, x.0, x.1)
        } by {
            if m < before.len() {
                assert(all[k] == before[k] && all[m] == before[m]);
            } else if k < before.len() {
                assert(all[k] == before[k]);
                assert(before[k].0 < rest.len());
            }
        }
    }
}

/// The places of the symbols are those of every file, each once, in the order of the
/// files and of the symbols in each.
pub proof fn symbol_places_are_ordered(a: Analysis)
    ensures
        forall|k: int|
            0 <= k < symbol_slots(a.extractions@).len() ==> {
                let slot = #[trigger] symbol_slots(a.extractions@)[k];
                declares(a, slot.0, slot.1)
            },
        forall|file: int, at: int|
            declares(a, file, at) ==> #[trigger] symbol_slots(a.extractions@).contains((file, at)),
        forall|k: int, m: int|
            0 <= k < m < symbol_slots(a.extractions@).len() ==> {
                let (x, y) = (
                    #[trigger] symbol_slots(a.extractions@)[k],
                    #[trigger] symbol_slots(a.extractions@)[m],
                );
                is_behind(y.0, y.1, x.0, x.1)
            },
{
    lemma_slots(a.extractions@);
}

/// The symbol with an id is the last one with that id, whatever file it is in.
pub proof fn an_id_finds_its_symbol(a: Analysis, id: u32)
    ensures
        match symbol_with(a, id) {
            Some(symbol) => symbol.id == id && exists|file: int, at: int|
                #[trigger] declares(a, file, at) && a.extractions@[file].symbols@[at] == symbol
                    && forall|f: int, j: int|
                    #[trigger] declares(a, f, j) && is_behind(f, j, file, at)
                        ==> a.extractions@[f].symbols@[j].id != id,
            None => forall|f: int, j: int| #[trigger]
                declares(a, f, j) ==> a.extractions@[f].symbols@[j].id != id,
        },
{
    let slots = symbol_slots(a.extractions@);
    lemma_slots(a.extractions@);
    let p = |k: int| symbol_in(a, slots[k]).id == id;
    let n = slots.len() as int;
    the_last_place_is_the_last(n, p);
    match last_where(n, p) {
        Some(i) => {
            let (file, at) = slots[i];
            assert(declares(a, file, at));
            assert forall|f: int, j: int| #[trigger]
                declares(a, f, j) && is_behind(f, j, file, at) implies a.extractions@[f].symbols@[j].id
                != id by {
                assert(slots.contains((f, j)));
                let k = choose|k: int| 0 <= k < n && slots[k] == (f, j);
                if k < i {
                    assert(is_behind(slots[i].0, slots[i].1, slots[k].0, slots[k].1));
                }
                assert(k > i);
                assert(!p(k));
            }
        },
        None => {
            assert forall|f: int, j: int| #[trigger]
                declares(a, f, j) implies a.extractions@[f].symbols@[j].id != id by {
                assert(slots.contains((f, j)));
                let k = choose|k: int| 0 <= k < n && slots[k] == (f, j);
                assert(!p(k));
            }
        },
    }
}

/// The symbols of a workspace are those of its files, every one, in the order of the
/// files and of the symbols in each.
pub proof fn all_symbols_are_listed(a: Analysis)
    ensures
        forall|file: int, at: int| #[trigger]
            declares(a, file, at) ==> crate::index::all_symbols(a).contains(
                a.extractions@[file].symbols@[at],
            ),
        forall|k: int|
            0 <= k < crate::index::all_symbols(a).len() ==> is_declared(
                a,
                #[trigger] crate::index::all_symbols(a)[k],
            ),
{
    let slots = symbol_slots(a.extractions@);
    let all = crate::index::all_symbols(a);
    lemma_slots(a.extractions@);
    assert forall|file: int, at: int| #[trigger] declares(a, file, at) implies all.contains(
        a.extractions@[file].symbols@[at],
    ) by {
        assert(slots.contains((file, at)));
        let k = choose|k: int| 0 <= k < slots.len() && slots[k] == (file, at);
        assert(all[k] == a.extractions@[file].symbols@[at]);
    }
    assert forall|k: int| 0 <= k < all.len() implies is_declared(a, #[trigger] all[k]) by {
        let (file, at) = slots[k];
        assert(declares(a, file, at));
    }
}

// ---------------------------------------------------------------------------
// Records and edges

/// The engine recorded a target for the reference at a byte of a file.
pub open spec fn is_recorded(a: Analysis, path: Seq<Part>, byte: usize, id: u32) -> bool {
    exists|i: int|
        0 <= i < a.references@.len() && (#[trigger] a.references@[i]).file_path@ == path
            && a.references@[i].range.byte_start == byte && a.references@[i].target.id == id
}

/// The engine recorded something for the reference at a byte of a file.
pub open spec fn has_records(a: Analysis, path: Seq<Part>, byte: usize) -> bool {
    exists|i: int|
        0 <= i < a.references@.len() && (#[trigger] a.references@[i]).file_path@ == path
            && a.references@[i].range.byte_start == byte
}

/// The engine resolved the client call over a range of a file to a target.
pub open spec fn is_called(a: Analysis, path: Seq<Part>, range: SourceRange, id: u32) -> bool {
    exists|i: int|
        0 <= i < a.client_calls@.len() && (#[trigger] a.client_calls@[i]).source_file@ == path
            && a.client_calls@[i].source_range == Some(range) && a.client_calls@[i].target.id == id
}

/// The graph has an edge from one symbol to another.
pub open spec fn has_edge(a: Analysis, source: u32, target: Target) -> bool {
    exists|i: int|
        0 <= i < a.edges@.len() && (#[trigger] a.edges@[i]).source == source && a.edges@[i].target
            == target
}

proof fn lemma_first_of_each(targets: Seq<Target>)
    ensures
        forall|id: u32| #[trigger] mentions(first_of_each(targets), id) == mentions(targets, id),
        first_of_each(targets).len() == 0 <==> targets.len() == 0,
    decreases targets.len(),
{
    if targets.len() > 0 {
        let rest = targets.drop_last();
        lemma_first_of_each(rest);
        let kept = first_of_each(rest);
        let now = first_of_each(targets);
        let next = targets.last();
        lemma_target_place(kept, next.id);
        assert forall|id: u32| #[trigger] mentions(now, id) == mentions(targets, id) by {
            assert(mentions(kept, id) == mentions(rest, id));
            if mentions(now, id) {
                let i = choose|i: int| 0 <= i < now.len() && (#[trigger] now[i]).id == id;
                if i < kept.len() {
                    assert(kept[i].id == id);
                    let k = choose|k: int| 0 <= k < rest.len() && (#[trigger] rest[k]).id == id;
                    assert(targets[k].id == id);
                } else {
                    assert(targets[targets.len() - 1].id == id);
                }
            }
            if mentions(targets, id) {
                let k = choose|k: int| 0 <= k < targets.len() && (#[trigger] targets[k]).id == id;
                if k < rest.len() {
                    assert(rest[k].id == id);
                    let i = choose|i: int| 0 <= i < kept.len() && (#[trigger] kept[i]).id == id;
                    assert(now[i].id == id);
                } else {
                    match target_place(kept, next.id) {
                        Some(i) => {
                            assert(now[i].id == id);
                        },
                        None => {
                            assert(now[kept.len() as int].id == id);
                        },
                    }
                }
            }
        }
        if kept.len() == 0 {
            assert(target_place(kept, next.id) is None);
        }
    }
}

/// The records of a reference are all those the engine made for its file and byte.
pub proof fn records_are_read_in_full(a: Analysis, path: Seq<Part>, byte: usize, id: u32)
    ensures
        mentions(recorded(a, path, byte), id) <==> is_recorded(a, path, byte, id),
        recorded(a, path, byte).len() > 0 <==> has_records(a, path, byte),
{
    let p = is_record_at(a.references@, path, byte);
    let n = a.references@.len() as int;
    let found = places_where(n, p);
    let all = found.map_values(|i: int| a.references@[i].target);
    lemma_places_where(n, p);
    lemma_first_of_each(all);
    assert(recorded(a, path, byte) == first_of_each(all));
    if mentions(all, id) {
        let m = choose|m: int| 0 <= m < all.len() && (#[trigger] all[m]).id == id;
        assert(p(found[m]));
        assert(a.references@[found[m]].target.id == id);
    }
    if is_recorded(a, path, byte, id) {
        let i = choose|i: int|
            0 <= i < n && (#[trigger] a.references@[i]).file_path@ == path
                && a.references@[i].range.byte_start == byte && a.references@[i].target.id == id;
        assert(p(i));
        assert(found.contains(i));
        let m = choose|m: int| 0 <= m < found.len() && found[m] == i;
        assert(all[m].id == id);
    }
    if all.len() > 0 {
        assert(p(found[0]));
        assert(a.references@[found[0]].file_path@ == path);
    }
    if has_records(a, path, byte) {
        let i = choose|i: int|
            0 <= i < n && (#[trigger] a.references@[i]).file_path@ == path
                && a.references@[i].range.byte_start == byte;
        assert(p(i));
        assert(found.contains(i));
    }
}

/// The records of a call site are all those the engine made for its file and range.
pub proof fn calls_are_read_in_full(a: Analysis, path: Seq<Part>, range: SourceRange, id: u32)
    ensures
        mentions(calls_at(a, path, range), id) <==> is_called(a, path, range, id),
        calls_at(a, path, range).len() > 0 <==> exists|other: u32| is_called(a, path, range, other),
{
    let p = is_call_at(a.client_calls@, path, range);
    let n = a.client_calls@.len() as int;
    let found = places_where(n, p);
    let all = calls_at(a, path, range);
    lemma_places_where(n, p);
    assert forall|other: u32| #[trigger] mentions(all, other) == is_called(a, path, range, other) by {
        if mentions(all, other) {
            let m = choose|m: int| 0 <= m < all.len() && (#[trigger] all[m]).id == other;
            assert(p(found[m]));
            assert(a.client_calls@[found[m]].target.id == other);
        }
        if is_called(a, path, range, other) {
            let i = choose|i: int|
                0 <= i < n && (#[trigger] a.client_calls@[i]).source_file@ == path
                    && a.client_calls@[i].source_range == Some(range)
                    && a.client_calls@[i].target.id == other;
            assert(p(i));
            assert(found.contains(i));
            let m = choose|m: int| 0 <= m < found.len() && found[m] == i;
            assert(all[m].id == other);
        }
    }
    assert(mentions(all, id) == is_called(a, path, range, id));
    if all.len() > 0 {
        assert(mentions(all, all[0].id));
        assert(is_called(a, path, range, all[0].id));
    }
    if exists|other: u32| is_called(a, path, range, other) {
        let other = choose|other: u32| is_called(a, path, range, other);
        assert(mentions(all, other));
    }
}

/// The places of the edges that start at a symbol.
pub open spec fn starts_at(edges: Seq<ReferenceEdge>, id: u32) -> spec_fn(int) -> bool {
    |i: int| edges[i].source == id
}

/// The edges that start at a symbol come in the order of the graph.
pub proof fn edges_stand_in_order(a: Analysis, id: u32)
    ensures
        ({
            let found = places_where(a.edges@.len() as int, starts_at(a.edges@, id));
            &&& edges_out(a, id).len() == found.len()
            &&& forall|k: int|
                0 <= k < found.len() ==> #[trigger] edges_out(a, id)[k] == a.edges@[found[k]].target
        }),
{
    let n = a.edges@.len() as int;
    let p = |i: int| a.edges@[i].source == id;
    crate::lookup::lemma_places_where_same(n, p, starts_at(a.edges@, id));
}

/// What a symbol references is every edge that starts at it, and what references it
/// every edge that ends there.
pub proof fn edges_are_read_in_full(a: Analysis, id: u32, target: Target)
    ensures
        edges_out(a, id).contains(target) <==> has_edge(a, id, target),
        edges_in(a, id).contains(target) <==> has_edge(
            a,
            target.id,
            Target { id, confidence: target.confidence },
        ),
{
    let n = a.edges@.len() as int;
    let p = |i: int| a.edges@[i].source == id;
    let q = |i: int| a.edges@[i].target.id == id;
    let (starts, ends) = (places_where(n, p), places_where(n, q));
    let (out, inward) = (edges_out(a, id), edges_in(a, id));
    lemma_places_where(n, p);
    lemma_places_where(n, q);
    let back = Target { id, confidence: target.confidence };
    if out.contains(target) {
        let m = choose|m: int| 0 <= m < out.len() && out[m] == target;
        assert(p(starts[m]));
        assert(a.edges@[starts[m]].source == id);
    }
    if has_edge(a, id, target) {
        let i = choose|i: int|
            0 <= i < n && (#[trigger] a.edges@[i]).source == id && a.edges@[i].target == target;
        assert(p(i));
        assert(starts.contains(i));
        let m = choose|m: int| 0 <= m < starts.len() && starts[m] == i;
        assert(out[m] == target);
    }
    if inward.contains(target) {
        let m = choose|m: int| 0 <= m < inward.len() && inward[m] == target;
        assert(q(ends[m]));
        assert(a.edges@[ends[m]].source == target.id && a.edges@[ends[m]].target == back);
    }
    if has_edge(a, target.id, back) {
        let i = choose|i: int|
            0 <= i < n && (#[trigger] a.edges@[i]).source == target.id && a.edges@[i].target == back;
        assert(q(i));
        assert(ends.contains(i));
        let m = choose|m: int| 0 <= m < ends.len() && ends[m] == i;
        assert(inward[m] == target);
    }
}

// ---------------------------------------------------------------------------
// What stands at a byte

/// A byte lies in a range; an empty range holds the byte it stands at.
pub open spec fn lies_in(byte: usize, range: SourceRange) -> bool {
    range.byte_start <= byte < range.byte_end || byte == range.byte_start && range.byte_end
        <= range.byte_start
}

/// Number of bytes of a range; one that ends before it starts has none.
pub open spec fn span(range: SourceRange) -> int {
    if range.byte_end <= range.byte_start {
        0
    } else {
        range.byte_end - range.byte_start
    }
}

/// One range is further inside than another: it is shorter, or as long and earlier.
pub open spec fn is_inside(x: SourceRange, y: SourceRange) -> bool {
    span(x) < span(y) || span(x) == span(y) && (x.byte_start < y.byte_start || x.byte_start
        == y.byte_start && x.byte_end < y.byte_end)
}

/// The symbol at a byte holds the byte, and none that does is further inside; of two
/// with one range the smaller id counts.
pub proof fn the_innermost_symbol_holds_the_byte(file: FileExtraction, byte: usize)
    ensures
        match innermost_symbol(file, byte) {
            Some(symbol) => {
                &&& file.symbols@.contains(symbol)
                &&& lies_in(byte, symbol.source_range)
                &&& forall|k: int|
                    0 <= k < file.symbols@.len() && lies_in(
                        byte,
                        (#[trigger] file.symbols@[k]).source_range,
                    ) ==> !is_inside(file.symbols@[k].source_range, symbol.source_range) && (is_inside(
                        symbol.source_range,
                        file.symbols@[k].source_range,
                    ) || symbol.id <= file.symbols@[k].id)
            },
            None => forall|k: int|
                0 <= k < file.symbols@.len() ==> !lies_in(
                    byte,
                    (#[trigger] file.symbols@[k]).source_range,
                ),
        },
{
    let keys = symbol_keys(file, byte);
    first_least_is_least(keys);
    assert forall|k: int| 0 <= k < file.symbols@.len() implies (keys[k] is Some <==> lies_in(
        byte,
        (#[trigger] file.symbols@[k]).source_range,
    )) by {}
    if let Some(symbol) = innermost_symbol(file, byte) {
        let i = crate::order::first_least(keys)->0;
        assert(file.symbols@[i] == symbol);
        assert forall|k: int| 0 <= k < file.symbols@.len() && lies_in(
            byte,
            (#[trigger] file.symbols@[k]).source_range,
        ) implies !is_inside(file.symbols@[k].source_range, symbol.source_range) && (is_inside(
            symbol.source_range,
            file.symbols@[k].source_range,
        ) || symbol.id <= file.symbols@[k].id) by {
            assert(keys[k] is Some);
            assert(!keys[k]->0.precedes(&keys[i]->0));
        }
    }
}

/// The reference at a byte holds the byte, and none that does is further inside.
pub proof fn the_innermost_reference_holds_the_byte(file: FileExtraction, byte: usize)
    ensures
        match innermost_reference(file, byte) {
            Some(i) => {
                &&& 0 <= i < file.references@.len()
                &&& lies_in(byte, file.references@[i].range)
                &&& forall|k: int|
                    0 <= k < file.references@.len() && lies_in(
                        byte,
                        (#[trigger] file.references@[k]).range,
                    ) ==> !is_inside(file.references@[k].range, file.references@[i].range)
            },
            None => forall|k: int|
                0 <= k < file.references@.len() ==> !lies_in(
                    byte,
                    (#[trigger] file.references@[k]).range,
                ),
        },
{
    let keys = reference_keys(file, byte);
    first_least_is_least(keys);
    assert forall|k: int| 0 <= k < file.references@.len() implies (keys[k] is Some <==> lies_in(
        byte,
        (#[trigger] file.references@[k]).range,
    )) by {}
    if let Some(i) = innermost_reference(file, byte) {
        assert forall|k: int| 0 <= k < file.references@.len() && lies_in(
            byte,
            (#[trigger] file.references@[k]).range,
        ) implies !is_inside(file.references@[k].range, file.references@[i].range) by {
            assert(keys[k] is Some);
            assert(!keys[k]->0.precedes(&keys[i]->0));
        }
    }
}

/// A call site is a client call over a range that holds a byte.
pub open spec fn calls_over(file: FileExtraction, byte: usize, k: int, range: SourceRange) -> bool {
    &&& 0 <= k < file.call_sites@.len()
    &&& file.call_sites@[k].variant == CallSiteVariant::ClientCall
    &&& file.call_sites@[k].source_range == Some(range)
    &&& lies_in(byte, range)
}

/// The client call at a byte holds the byte, and none that does is further inside.
pub proof fn the_innermost_call_holds_the_byte(file: FileExtraction, byte: usize)
    ensures
        match innermost_call(file, byte) {
            Some(range) => {
                &&& exists|i: int| #[trigger] calls_over(file, byte, i, range)
                &&& forall|k: int, other: SourceRange| #[trigger]
                    calls_over(file, byte, k, other) ==> !is_inside(other, range)
            },
            None => forall|k: int, other: SourceRange| !#[trigger] calls_over(file, byte, k, other),
        },
{
    let keys = call_site_keys(file, byte);
    first_least_is_least(keys);
    assert forall|k: int, other: SourceRange| #[trigger]
        calls_over(file, byte, k, other) implies keys[k] is Some by {}
    match crate::order::first_least(keys) {
        Some(i) => {
            assert(keys[i] is Some);
            let range = file.call_sites@[i].source_range->0;
            assert(calls_over(file, byte, i, range));
            assert forall|k: int, other: SourceRange| #[trigger]
                calls_over(file, byte, k, other) implies !is_inside(other, range) by {
                assert(!keys[k]->0.precedes(&keys[i]->0));
            }
        },
        None => {},
    }
}

} // verus!
