//! Snapshot type plus read queries.
//!
//! A snapshot holds what one analysis pass of the engine found, and indexes over
//! it. What the queries return is stated over the findings alone.

use vstd::prelude::*;
use vstd::string::*;

use crate::lookup::{
    last_where, lemma_last_where, lemma_level_pair, lemma_places_where, lemma_places_where_same,
    level, places_where, KeyIndex,
};
use crate::model::{
    Diagnostic, FileExtraction, FileNode, Fingerprint, ReferenceEdge, ResolvedClientCall,
    ResolvedReference, FileScope, ScopeName, SourceRange, Symbol, Target,
};
use crate::order::{lemma_text_asymmetric, lemma_text_level, places};
use crate::path::{lemma_path_level, DocPath, Part};
use crate::protocol::optional_text;
use crate::types::DocVersion;

pub mod snapshot;
pub mod query;

pub use query::{resolve_targets, symbol_at};
pub use snapshot::{collect_inputs, IndexSnapshot, Persistence, Reindexer};

verus! {

/// One use site: the place of its file among the extractions, and its range.
#[derive(Clone, Copy, Debug, PartialEq, Eq, Structural)]
pub struct Occurrence {
    pub file: usize,
    pub range: SourceRange,
}

/// The content hash of one file.
#[derive(Debug)]
pub struct ContentHash {
    pub path: DocPath,
    pub hash: Fingerprint,
}

/// The buffer version of one open document.
#[derive(Debug)]
pub struct PathVersion {
    pub path: DocPath,
    pub version: DocVersion,
}

/// What one analysis pass found. `references` holds one record per resolved use
/// site; `client_calls` one per resolved foreign call.
#[derive(Debug)]
pub struct Analysis {
    pub extractions: Vec<FileExtraction>,
    pub references: Vec<ResolvedReference>,
    pub client_calls: Vec<ResolvedClientCall>,
    pub edges: Vec<ReferenceEdge>,
    pub files: Vec<FileNode>,
    pub scope: Vec<FileScope>,
    pub diagnostics: Vec<Diagnostic>,
    pub content_hashes: Vec<ContentHash>,
    pub versions: Vec<PathVersion>,
    pub generation: u32,
}

// ---------------------------------------------------------------------------
// Model

/// The places of the extractions of a path.
pub open spec fn is_file_at(files: Seq<FileExtraction>, path: Seq<Part>) -> spec_fn(int) -> bool {
    |i: int| files[i].path@ == path
}

/// The place of the extraction of a path.
pub open spec fn file_place(a: Analysis, path: Seq<Part>) -> Option<int> {
    last_where(a.extractions@.len() as int, is_file_at(a.extractions@, path))
}

/// The places of every symbol: of its file, and of itself in that file.
pub open spec fn symbol_slots(files: Seq<FileExtraction>) -> Seq<(int, int)>
    decreases files.len(),
{
    if files.len() == 0 {
        Seq::empty()
    } else {
        symbol_slots(files.drop_last()) + Seq::new(
            files.last().symbols@.len(),
            |j: int| (files.len() - 1, j),
        )
    }
}

/// The symbol in a slot.
pub open spec fn symbol_in(a: Analysis, slot: (int, int)) -> Symbol {
    a.extractions@[slot.0].symbols@[slot.1]
}

/// Every symbol in the order of the files and of the symbols in each.
pub open spec fn all_symbols(a: Analysis) -> Seq<Symbol> {
    symbol_slots(a.extractions@).map_values(|slot: (int, int)| symbol_in(a, slot))
}

/// The slot of the symbol with an id.
pub open spec fn symbol_slot(a: Analysis, id: u32) -> Option<(int, int)> {
    let slots = symbol_slots(a.extractions@);
    match last_where(slots.len() as int, |k: int| symbol_in(a, slots[k]).id == id) {
        Some(k) => Some(slots[k]),
        None => None,
    }
}

/// The symbol with an id.
pub open spec fn symbol_with(a: Analysis, id: u32) -> Option<Symbol> {
    match symbol_slot(a, id) {
        Some(slot) => Some(symbol_in(a, slot)),
        None => None,
    }
}

/// What the symbol with an id references, in the order of the edges.
pub open spec fn edges_out(a: Analysis, id: u32) -> Seq<Target> {
    places_where(a.edges@.len() as int, |i: int| a.edges@[i].source == id).map_values(
        |i: int| a.edges@[i].target,
    )
}

/// The symbols that reference the one with an id, in the order of the edges.
pub open spec fn edges_in(a: Analysis, id: u32) -> Seq<Target> {
    places_where(a.edges@.len() as int, |i: int| a.edges@[i].target.id == id).map_values(
        |i: int| Target { id: a.edges@[i].source, confidence: a.edges@[i].target.confidence },
    )
}

/// The place in a list of the target with an id.
pub open spec fn target_place(targets: Seq<Target>, id: u32) -> Option<int> {
    last_where(targets.len() as int, |i: int| targets[i].id == id)
}

/// The first target of each id.
pub open spec fn first_of_each(targets: Seq<Target>) -> Seq<Target>
    decreases targets.len(),
{
    if targets.len() == 0 {
        targets
    } else {
        let kept = first_of_each(targets.drop_last());
        if target_place(kept, targets.last().id) is Some {
            kept
        } else {
            kept.push(targets.last())
        }
    }
}

/// The places of the records for the reference at one byte of one file.
pub open spec fn is_record_at(
    references: Seq<ResolvedReference>,
    path: Seq<Part>,
    byte: usize,
) -> spec_fn(int) -> bool {
    |i: int| references[i].file_path@ == path && references[i].range.byte_start == byte
}

/// The records of the engine for the reference at one byte of one file, one for
/// each target.
pub open spec fn recorded(a: Analysis, path: Seq<Part>, byte: usize) -> Seq<Target> {
    first_of_each(
        places_where(
            a.references@.len() as int,
            is_record_at(a.references@, path, byte),
        ).map_values(|i: int| a.references@[i].target),
    )
}

/// The places of the records for one call site.
pub open spec fn is_call_at(
    calls: Seq<ResolvedClientCall>,
    path: Seq<Part>,
    range: SourceRange,
) -> spec_fn(int) -> bool {
    |i: int| calls[i].source_file@ == path && calls[i].source_range == Some(range)
}

/// The records of the engine for one call site.
pub open spec fn calls_at(a: Analysis, path: Seq<Part>, range: SourceRange) -> Seq<Target> {
    places_where(
        a.client_calls@.len() as int,
        is_call_at(a.client_calls@, path, range),
    ).map_values(|i: int| a.client_calls@[i].target)
}

/// The places of the graph's files of a path.
pub open spec fn is_node_at(files: Seq<FileNode>, path: Seq<Part>) -> spec_fn(int) -> bool {
    |i: int| files[i].path@ == path
}

/// The graph id of a path.
pub open spec fn node_id(a: Analysis, path: Seq<Part>) -> Option<u32> {
    match last_where(a.files@.len() as int, is_node_at(a.files@, path)) {
        Some(i) => Some(a.files@[i].id),
        None => None,
    }
}

/// The place of the scope of a file.
pub open spec fn scope_place(a: Analysis, file_id: u32) -> Option<int> {
    last_where(a.scope@.len() as int, |i: int| a.scope@[i].file_id == file_id)
}

/// The places of the entries of a name.
pub open spec fn is_named(names: Seq<ScopeName>, name: Seq<char>) -> spec_fn(int) -> bool {
    |i: int| names[i].name@ == name
}

/// The place of a name in a scope.
pub open spec fn name_place(scope: FileScope, name: Seq<char>) -> Option<int> {
    last_where(scope.names@.len() as int, is_named(scope.names@, name))
}

/// What a name means in a file.
pub open spec fn scope_of(a: Analysis, file_id: u32, name: Seq<char>) -> Option<Seq<Target>> {
    match scope_place(a, file_id) {
        Some(i) => match name_place(a.scope@[i], name) {
            Some(k) => Some(a.scope@[i].names@[k].targets@),
            None => None,
        },
        None => None,
    }
}

/// The places of the hashes of a path.
pub open spec fn is_hash_at(hashes: Seq<ContentHash>, path: Seq<Part>) -> spec_fn(int) -> bool {
    |i: int| hashes[i].path@ == path
}

/// The content hash recorded for a path.
pub open spec fn hash_of(hashes: Seq<ContentHash>, path: Seq<Part>) -> Option<Seq<u8>> {
    match last_where(hashes.len() as int, is_hash_at(hashes, path)) {
        Some(i) => Some(hashes[i].hash@),
        None => None,
    }
}

/// The places of the versions of a path.
pub open spec fn is_version_at(versions: Seq<PathVersion>, path: Seq<Part>) -> spec_fn(int) -> bool {
    |i: int| versions[i].path@ == path
}

/// The buffer version recorded for a path.
pub open spec fn version_of(versions: Seq<PathVersion>, path: Seq<Part>) -> Option<DocVersion> {
    match last_where(versions.len() as int, is_version_at(versions, path)) {
        Some(i) => Some(versions[i].version),
        None => None,
    }
}

/// Every symbol slot is in range, and every symbol has one.
pub proof fn lemma_symbol_slots(files: Seq<FileExtraction>)
    ensures
        forall|k: int|
            0 <= k < symbol_slots(files).len() ==> {
                let slot = #[trigger] symbol_slots(files)[k];
                0 <= slot.0 < files.len() && 0 <= slot.1 < files[slot.0].symbols@.len()
            },
    decreases files.len(),
{
    if files.len() > 0 {
        let rest = files.drop_last();
        lemma_symbol_slots(rest);
        assert forall|k: int| 0 <= k < symbol_slots(files).len() implies {
            let slot = #[trigger] symbol_slots(files)[k];
            0 <= slot.0 < files.len() && 0 <= slot.1 < files[slot.0].symbols@.len()
        } by {
            if k < symbol_slots(rest).len() {
                assert(symbol_slots(files)[k] == symbol_slots(rest)[k]);
            }
        }
    }
}

pub proof fn lemma_target_place(targets: Seq<Target>, id: u32)
    ensures
        match target_place(targets, id) {
            Some(i) => 0 <= i < targets.len() && targets[i].id == id,
            None => forall|i: int| 0 <= i < targets.len() ==> (#[trigger] targets[i]).id != id,
        },
{
    let p = |i: int| targets[i].id == id;
    let n = targets.len() as int;
    lemma_last_where(n, p);
    lemma_places_where(n, p);
    if target_place(targets, id) is None {
        assert forall|i: int| 0 <= i < targets.len() implies (#[trigger] targets[i]).id != id by {
            if targets[i].id == id {
                assert(p(i));
            }
        }
    }
}

// ---------------------------------------------------------------------------
// Indexes

/// An index over the paths of a list.
pub open spec fn indexes_paths(index: KeyIndex<DocPath>, paths: Seq<Seq<Part>>) -> bool {
    &&& index.wf()
    &&& index@.len() == paths.len()
    &&& forall|i: int| 0 <= i < paths.len() ==> (#[trigger] index@[i])@ == paths[i]
}

pub open spec fn file_paths(files: Seq<FileExtraction>) -> Seq<Seq<Part>> {
    files.map_values(|file: FileExtraction| file.path@)
}

pub open spec fn node_paths(nodes: Seq<FileNode>) -> Seq<Seq<Part>> {
    nodes.map_values(|node: FileNode| node.path@)
}

pub open spec fn hash_paths(hashes: Seq<ContentHash>) -> Seq<Seq<Part>> {
    hashes.map_values(|hash: ContentHash| hash.path@)
}

pub open spec fn version_paths(versions: Seq<PathVersion>) -> Seq<Seq<Part>> {
    versions.map_values(|version: PathVersion| version.path@)
}

/// Find the last place of a path.
pub(crate) fn find_path(index: &KeyIndex<DocPath>, Ghost(paths): Ghost<Seq<Seq<Part>>>, path: &DocPath) -> (r: Option<usize>)
    requires
        indexes_paths(*index, paths),
    ensures
        match r {
            Some(i) => i < paths.len() && last_where(
                paths.len() as int,
                |i: int| paths[i] == path@,
            ) == Some(i as int),
            None => last_where(paths.len() as int, |i: int| paths[i] == path@) is None,
        },
{
    let r = index.find_last(path);
    proof {
        let p = |i: int| level(index@[i], *path);
        let q = |i: int| paths[i] == path@;
        assert forall|i: int| 0 <= i < paths.len() implies #[trigger] p(i) == q(i) by {
            lemma_path_level(index@[i]@, path@);
        }
        lemma_places_where_same(paths.len() as int, p, q);
    }
    r
}

/// An index over the names of a scope.
pub open spec fn indexes_names(index: KeyIndex<String>, scope: FileScope) -> bool {
    &&& index.wf()
    &&& index@ == scope.names@.map_values(|name: ScopeName| name.name)
}

fn index_names(scope: &FileScope) -> (r: KeyIndex<String>)
    ensures
        indexes_names(r, *scope),
{
    let mut keys: Vec<String> = Vec::new();
    let mut i: usize = 0;
    while i < scope.names.len()
        invariant
            i <= scope.names@.len(),
            keys@.len() == i,
            forall|k: int| 0 <= k < i ==> #[trigger] keys@[k] == scope.names@[k].name,
        decreases scope.names.len() - i,
    {
        keys.push(scope.names[i].name.clone());
        i += 1;
    }
    assert(keys@ =~= scope.names@.map_values(|name: ScopeName| name.name));
    KeyIndex::new(keys)
}

/// Lists name every symbol slot and the id of the symbol in it.
pub open spec fn list_slots(
    a: Analysis,
    slots: Seq<(int, int)>,
    listed: Seq<(usize, usize)>,
    ids: Seq<u32>,
) -> bool {
    &&& listed.len() == slots.len()
    &&& ids.len() == slots.len()
    &&& forall|k: int|
        0 <= k < slots.len() ==> {
            &&& (#[trigger] listed[k]).0 == slots[k].0
            &&& listed[k].1 == slots[k].1
            &&& ids[k] == symbol_in(a, slots[k]).id
        }
}

fn list_file_symbols(
    data: &Analysis,
    fi: usize,
    slots: &mut Vec<(usize, usize)>,
    ids: &mut Vec<u32>,
)
    requires
        fi < data.extractions@.len(),
        list_slots(
            *data,
            symbol_slots(data.extractions@.take(fi as int)),
            old(slots)@,
            old(ids)@,
        ),
    ensures
        list_slots(
            *data,
            symbol_slots(data.extractions@.take(fi as int + 1)),
            final(slots)@,
            final(ids)@,
        ),
{
    let file = &data.extractions[fi];
    let ghost before = symbol_slots(data.extractions@.take(fi as int));
    let ghost now = symbol_slots(data.extractions@.take(fi as int + 1));
    proof {
        assert(data.extractions@.take(fi as int + 1).drop_last() =~= data.extractions@.take(
            fi as int,
        ));
        assert(data.extractions@.take(fi as int + 1).last() == *file);
        assert(now.take(before.len() as int) =~= before);
        assert forall|k: int| before.len() <= k < now.len() implies #[trigger] now[k] == (
            fi as int,
            k - before.len(),
        ) by {}
    }
    let mut si: usize = 0;
    while si < file.symbols.len()
        invariant
            fi < data.extractions@.len(),
            *file == data.extractions@[fi as int],
            si <= file.symbols@.len(),
            now.len() == before.len() + file.symbols@.len(),
            forall|k: int|
                before.len() <= k < now.len() ==> #[trigger] now[k] == (
                    fi as int,
                    k - before.len(),
                ),
            list_slots(*data, now.take(before.len() + si), slots@, ids@),
        decreases file.symbols.len() - si,
    {
        assert(now[before.len() + si] == (fi as int, si as int));
        slots.push((fi, si));
        ids.push(file.symbols[si].id);
        si += 1;
        assert(now.take(before.len() + si) =~= now.take(before.len() + si - 1).push(
            now[before.len() + si - 1],
        ));
    }
    assert(now.take(before.len() + si) =~= now);
}

fn list_symbols(data: &Analysis) -> (r: (Vec<(usize, usize)>, Vec<u32>))
    ensures
        list_slots(*data, symbol_slots(data.extractions@), r.0@, r.1@),
{
    let mut slots: Vec<(usize, usize)> = Vec::new();
    let mut ids: Vec<u32> = Vec::new();
    let mut fi: usize = 0;
    assert(data.extractions@.take(0) =~= Seq::empty());
    while fi < data.extractions.len()
        invariant
            fi <= data.extractions@.len(),
            list_slots(*data, symbol_slots(data.extractions@.take(fi as int)), slots@, ids@),
        decreases data.extractions.len() - fi,
    {
        list_file_symbols(data, fi, &mut slots, &mut ids);
        fi += 1;
    }
    assert(data.extractions@.take(fi as int) =~= data.extractions@);
    (slots, ids)
}

/// The findings of one pass with the indexes that the queries need.
#[derive(Debug)]
pub struct Tables {
    data: Analysis,
    by_path: KeyIndex<DocPath>,
    file_ids: KeyIndex<DocPath>,
    slots: Vec<(usize, usize)>,
    symbols: KeyIndex<u32>,
    refs_out: KeyIndex<u32>,
    refs_in: KeyIndex<u32>,
    /// Records by path and reference byte.
    records: KeyIndex<(DocPath, usize)>,
    scopes: KeyIndex<u32>,
    /// Names by scope.
    names: Vec<KeyIndex<String>>,
    content_hashes: KeyIndex<DocPath>,
    versions: KeyIndex<DocPath>,
}

impl View for Tables {
    type V = Analysis;

    /// The findings.
    closed spec fn view(&self) -> Analysis {
        self.data
    }
}

impl Tables {
    #[verifier::type_invariant]
    spec fn indexed(&self) -> bool {
        let a = self.data;
        let slots = symbol_slots(a.extractions@);
        &&& indexes_paths(self.by_path, file_paths(a.extractions@))
        &&& indexes_paths(self.file_ids, node_paths(a.files@))
        &&& indexes_paths(self.content_hashes, hash_paths(a.content_hashes@))
        &&& indexes_paths(self.versions, version_paths(a.versions@))
        &&& self.slots@.len() == slots.len()
        &&& forall|k: int|
            0 <= k < slots.len() ==> (#[trigger] self.slots@[k]).0 == slots[k].0
                && self.slots@[k].1 == slots[k].1
        &&& self.symbols.wf()
        &&& self.symbols@.len() == slots.len()
        &&& forall|k: int|
            0 <= k < slots.len() ==> #[trigger] self.symbols@[k] == symbol_in(a, slots[k]).id
        &&& self.refs_out.wf()
        &&& self.refs_out@ == a.edges@.map_values(|edge: ReferenceEdge| edge.source)
        &&& self.refs_in.wf()
        &&& self.refs_in@ == a.edges@.map_values(|edge: ReferenceEdge| edge.target.id)
        &&& self.records.wf()
        &&& self.records@.len() == a.references@.len()
        &&& forall|i: int|
            0 <= i < a.references@.len() ==> (#[trigger] self.records@[i]).0@
                == a.references@[i].file_path@ && self.records@[i].1
                == a.references@[i].range.byte_start
        &&& self.scopes.wf()
        &&& self.scopes@ == a.scope@.map_values(|scope: FileScope| scope.file_id)
        &&& self.names@.len() == a.scope@.len()
        &&& forall|i: int|
            0 <= i < a.scope@.len() ==> indexes_names(#[trigger] self.names@[i], a.scope@[i])
    }

    /// Index the findings of one pass.
    pub fn new(data: Analysis) -> (r: Tables)
        ensures
            r@ == data,
    {
        let mut paths: Vec<DocPath> = Vec::new();
        let mut i: usize = 0;
        while i < data.extractions.len()
            invariant
                i <= data.extractions@.len(),
                paths@.len() == i,
                forall|k: int| 0 <= k < i ==> (#[trigger] paths@[k])@ == data.extractions@[k].path@,
            decreases data.extractions.len() - i,
        {
            paths.push(data.extractions[i].path.clone());
            i += 1;
        }
        let (slots, ids) = list_symbols(&data);
        let by_path = KeyIndex::new(paths);
        let symbols = KeyIndex::new(ids);

        let mut sources: Vec<u32> = Vec::new();
        let mut targets: Vec<u32> = Vec::new();
        i = 0;
        while i < data.edges.len()
            invariant
                i <= data.edges@.len(),
                sources@.len() == i,
                targets@.len() == i,
                forall|k: int| 0 <= k < i ==> #[trigger] sources@[k] == data.edges@[k].source,
                forall|k: int| 0 <= k < i ==> #[trigger] targets@[k] == data.edges@[k].target.id,
            decreases data.edges.len() - i,
        {
            sources.push(data.edges[i].source);
            targets.push(data.edges[i].target.id);
            i += 1;
        }
        assert(sources@ =~= data.edges@.map_values(|edge: ReferenceEdge| edge.source));
        assert(targets@ =~= data.edges@.map_values(|edge: ReferenceEdge| edge.target.id));
        let refs_out = KeyIndex::new(sources);
        let refs_in = KeyIndex::new(targets);

        let mut record_keys: Vec<(DocPath, usize)> = Vec::new();
        i = 0;
        while i < data.references.len()
            invariant
                i <= data.references@.len(),
                record_keys@.len() == i,
                forall|k: int|
                    0 <= k < i ==> (#[trigger] record_keys@[k]).0@ == data.references@[k].file_path@
                        && record_keys@[k].1 == data.references@[k].range.byte_start,
            decreases data.references.len() - i,
        {
            let record = &data.references[i];
            record_keys.push((record.file_path.clone(), record.range.byte_start));
            i += 1;
        }
        let records = KeyIndex::new(record_keys);

        let mut node_keys: Vec<DocPath> = Vec::new();
        i = 0;
        while i < data.files.len()
            invariant
                i <= data.files@.len(),
                node_keys@.len() == i,
                forall|k: int| 0 <= k < i ==> (#[trigger] node_keys@[k])@ == data.files@[k].path@,
            decreases data.files.len() - i,
        {
            node_keys.push(data.files[i].path.clone());
            i += 1;
        }
        let file_ids = KeyIndex::new(node_keys);

        let mut scope_keys: Vec<u32> = Vec::new();
        let mut names: Vec<KeyIndex<String>> = Vec::new();
        i = 0;
        while i < data.scope.len()
            invariant
                i <= data.scope@.len(),
                scope_keys@.len() == i,
                names@.len() == i,
                forall|k: int| 0 <= k < i ==> #[trigger] scope_keys@[k] == data.scope@[k].file_id,
                forall|k: int| 0 <= k < i ==> indexes_names(#[trigger] names@[k], data.scope@[k]),
            decreases data.scope.len() - i,
        {
            scope_keys.push(data.scope[i].file_id);
            names.push(index_names(&data.scope[i]));
            i += 1;
        }
        assert(scope_keys@ =~= data.scope@.map_values(|scope: FileScope| scope.file_id));
        let scopes = KeyIndex::new(scope_keys);

        let mut hash_keys: Vec<DocPath> = Vec::new();
        i = 0;
        while i < data.content_hashes.len()
            invariant
                i <= data.content_hashes@.len(),
                hash_keys@.len() == i,
                forall|k: int|
                    0 <= k < i ==> (#[trigger] hash_keys@[k])@ == data.content_hashes@[k].path@,
            decreases data.content_hashes.len() - i,
        {
            hash_keys.push(data.content_hashes[i].path.clone());
            i += 1;
        }
        let content_hashes = KeyIndex::new(hash_keys);

        let mut version_keys: Vec<DocPath> = Vec::new();
        i = 0;
        while i < data.versions.len()
            invariant
                i <= data.versions@.len(),
                version_keys@.len() == i,
                forall|k: int|
                    0 <= k < i ==> (#[trigger] version_keys@[k])@ == data.versions@[k].path@,
            decreases data.versions.len() - i,
        {
            version_keys.push(data.versions[i].path.clone());
            i += 1;
        }
        let versions = KeyIndex::new(version_keys);

        proof {
            let all = symbol_slots(data.extractions@);
            assert forall|k: int| 0 <= k < all.len() implies #[trigger] symbols@[k] == symbol_in(
                data,
                all[k],
            ).id by {
                assert(slots@[k].0 == all[k].0);
            }
        }
        Tables {
            data,
            by_path,
            file_ids,
            slots,
            symbols,
            refs_out,
            refs_in,
            records,
            scopes,
            names,
            content_hashes,
            versions,
        }
    }

    /// The findings.
    pub fn findings(&self) -> (r: &Analysis)
        ensures
            *r == self@,
    {
        &self.data
    }

    /// The place of the extraction of a path.
    pub fn file_index(&self, path: &DocPath) -> (r: Option<usize>)
        ensures
            match r {
                Some(i) => i < self@.extractions@.len() && file_place(self@, path@) == Some(i as int),
                None => file_place(self@, path@) is None,
            },
    {
        proof {
            use_type_invariant(self);
        }
        let r = find_path(&self.by_path, Ghost(file_paths(self.data.extractions@)), path);
        proof {
            let n = self.data.extractions@.len() as int;
            lemma_places_where_same(
                n,
                |i: int| file_paths(self.data.extractions@)[i] == path@,
                |i: int| self.data.extractions@[i].path@ == path@,
            );
        }
        r
    }

    /// The path of the extraction at a place.
    pub fn path_of(&self, file: usize) -> (r: Option<&DocPath>)
        ensures
            match r {
                Some(path) => file < self@.extractions@.len() && *path
                    == self@.extractions@[file as int].path,
                None => file >= self@.extractions@.len(),
            },
    {
        if file < self.data.extractions.len() {
            Some(&self.data.extractions[file].path)
        } else {
            None
        }
    }

    /// The graph id of a path.
    pub fn file_id(&self, path: &DocPath) -> (r: Option<u32>)
        ensures
            r == node_id(self@, path@),
    {
        proof {
            use_type_invariant(self);
            let n = self.data.files@.len() as int;
            lemma_places_where_same(
                n,
                |i: int| node_paths(self.data.files@)[i] == path@,
                |i: int| self.data.files@[i].path@ == path@,
            );
        }
        match find_path(&self.file_ids, Ghost(node_paths(self.data.files@)), path) {
            Some(i) => Some(self.data.files[i].id),
            None => None,
        }
    }

    /// The symbol with an id.
    pub fn symbol_by_id(&self, id: u32) -> (r: Option<&Symbol>)
        ensures
            match r {
                Some(symbol) => symbol_with(self@, id) == Some(*symbol),
                None => symbol_with(self@, id) is None,
            },
    {
        let ghost slots = symbol_slots(self.data.extractions@);
        proof {
            use_type_invariant(self);
            lemma_symbol_slots(self.data.extractions@);
            let p = |k: int| level(self.symbols@[k], id);
            let q = |k: int| symbol_in(self.data, slots[k]).id == id;
            assert forall|k: int| 0 <= k < slots.len() implies #[trigger] p(k) == q(k) by {
                assert(self.symbols@[k] == symbol_in(self.data, slots[k]).id);
            }
            lemma_places_where_same(slots.len() as int, p, q);
        }
        match self.symbols.find_last(&id) {
            Some(k) => {
                let slot = self.slots[k];
                assert(slots[k as int] == (slot.0 as int, slot.1 as int));
                Some(&self.data.extractions[slot.0].symbols[slot.1])
            },
            None => None,
        }
    }

    /// Every symbol in the order of the files and of the symbols in each.
    pub fn symbols(&self) -> (r: Vec<&Symbol>)
        ensures
            r@.len() == all_symbols(self@).len(),
            forall|k: int| 0 <= k < r@.len() ==> *(#[trigger] r@[k]) == all_symbols(self@)[k],
    {
        let ghost slots = symbol_slots(self.data.extractions@);
        proof {
            use_type_invariant(self);
            lemma_symbol_slots(self.data.extractions@);
        }
        let mut r: Vec<&Symbol> = Vec::new();
        let mut k: usize = 0;
        while k < self.slots.len()
            invariant
                k <= self.slots@.len(),
                self.slots@.len() == slots.len(),
                slots == symbol_slots(self.data.extractions@),
                forall|k: int|
                    0 <= k < slots.len() ==> (#[trigger] self.slots@[k]).0 == slots[k].0
                        && self.slots@[k].1 == slots[k].1,
                forall|k: int|
                    0 <= k < slots.len() ==> {
                        let slot = #[trigger] slots[k];
                        0 <= slot.0 < self.data.extractions@.len() && 0 <= slot.1
                            < self.data.extractions@[slot.0].symbols@.len()
                    },
                r@.len() == k,
                forall|j: int| 0 <= j < k ==> *(#[trigger] r@[j]) == symbol_in(self.data, slots[j]),
            decreases self.slots.len() - k,
        {
            let slot = self.slots[k];
            assert(slots[k as int] == (slot.0 as int, slot.1 as int));
            r.push(&self.data.extractions[slot.0].symbols[slot.1]);
            k += 1;
        }
        r
    }

    /// What the symbol with an id references, with confidence.
    pub fn references_out(&self, id: u32) -> (r: Vec<Target>)
        ensures
            r@ == edges_out(self@, id),
    {
        let ghost n = self.data.edges@.len() as int;
        proof {
            use_type_invariant(self);
            lemma_places_where_same(
                n,
                |i: int| level(self.refs_out@[i], id),
                |i: int| self.data.edges@[i].source == id,
            );
        }
        let found = self.refs_out.find_all(&id);
        let ghost wanted = edges_out(self@, id);
        assert(places(found@).len() == wanted.len());
        let mut r: Vec<Target> = Vec::new();
        let mut k: usize = 0;
        while k < found.len()
            invariant
                k <= found@.len(),
                found@.len() == wanted.len(),
                forall|i: int| 0 <= i < found@.len() ==> #[trigger] found@[i] < self.data.edges@.len(),
                places(found@) == places_where(
                    self.data.edges@.len() as int,
                    |i: int| self.data.edges@[i].source == id,
                ),
                wanted == edges_out(self.data, id),
                r@ == wanted.take(k as int),
            decreases found.len() - k,
        {
            assert(places(found@)[k as int] == found@[k as int] as int);
            r.push(self.data.edges[found[k]].target);
            k += 1;
            assert(r@ =~= wanted.take(k as int));
        }
        assert(wanted.take(k as int) =~= wanted);
        r
    }

    /// The symbols that reference the one with an id, with confidence.
    pub fn references_in(&self, id: u32) -> (r: Vec<Target>)
        ensures
            r@ == edges_in(self@, id),
    {
        let ghost n = self.data.edges@.len() as int;
        proof {
            use_type_invariant(self);
            lemma_places_where_same(
                n,
                |i: int| level(self.refs_in@[i], id),
                |i: int| self.data.edges@[i].target.id == id,
            );
        }
        let found = self.refs_in.find_all(&id);
        let ghost wanted = edges_in(self@, id);
        assert(places(found@).len() == wanted.len());
        let mut r: Vec<Target> = Vec::new();
        let mut k: usize = 0;
        while k < found.len()
            invariant
                k <= found@.len(),
                found@.len() == wanted.len(),
                forall|i: int| 0 <= i < found@.len() ==> #[trigger] found@[i] < self.data.edges@.len(),
                places(found@) == places_where(
                    self.data.edges@.len() as int,
                    |i: int| self.data.edges@[i].target.id == id,
                ),
                wanted == edges_in(self.data, id),
                r@ == wanted.take(k as int),
            decreases found.len() - k,
        {
            assert(places(found@)[k as int] == found@[k as int] as int);
            let edge: ReferenceEdge = self.data.edges[found[k]];
            r.push(Target { id: edge.source, confidence: edge.target.confidence });
            k += 1;
            assert(r@ =~= wanted.take(k as int));
        }
        assert(wanted.take(k as int) =~= wanted);
        r
    }

    /// Engine records for one reference byte; empty when it sits outside every
    /// symbol, callers then use the scope.
    pub fn recorded_targets(&self, file: usize, byte: usize) -> (r: Vec<Target>)
        requires
            file < self@.extractions@.len(),
        ensures
            r@ == recorded(self@, self@.extractions@[file as int].path@, byte),
    {
        let path = &self.data.extractions[file].path;
        let key = (path.clone(), byte);
        let ghost n = self.data.references@.len() as int;
        let ghost q = |i: int|
            self.data.references@[i].file_path@ == path@ && self.data.references@[i].range.byte_start
                == byte;
        proof {
            use_type_invariant(self);
            let p = |i: int| level(self.records@[i], key);
            assert forall|i: int| 0 <= i < n implies #[trigger] p(i) == q(i) by {
                lemma_level_pair(self.records@[i], key);
                lemma_path_level(self.records@[i].0@, key.0@);
            }
            lemma_places_where_same(n, p, q);
        }
        let found = self.records.find_all(&key);
        let ghost all = places_where(n, q).map_values(|i: int| self.data.references@[i].target);
        let mut r: Vec<Target> = Vec::new();
        let mut k: usize = 0;
        while k < found.len()
            invariant
                k <= found@.len(),
                n == self.data.references@.len(),
                forall|i: int|
                    0 <= i < found@.len() ==> #[trigger] found@[i] < self.data.references@.len(),
                places(found@) == places_where(n, q),
                all == places_where(n, q).map_values(|i: int| self.data.references@[i].target),
                r@ == first_of_each(all.take(k as int)),
            decreases found.len() - k,
        {
            assert(places(found@)[k as int] == found@[k as int] as int);
            let target: Target = self.data.references[found[k]].target;
            assert(all[k as int] == target);
            assert(all.take(k as int + 1).drop_last() =~= all.take(k as int));
            if find_target(&r, target.id).is_none() {
                r.push(target);
            }
            k += 1;
        }
        assert(all.take(k as int) =~= all);
        r
    }

    /// Records of the engine for one call site.
    pub fn client_calls_at(&self, path: &DocPath, range: &SourceRange) -> (r: Vec<Target>)
        ensures
            r@ == calls_at(self@, path@, *range),
    {
        let ghost q = is_call_at(self.data.client_calls@, path@, *range);
        let mut r: Vec<Target> = Vec::new();
        let mut k: usize = 0;
        while k < self.data.client_calls.len()
            invariant
                k <= self.data.client_calls@.len(),
                q == is_call_at(self.data.client_calls@, path@, *range),
                r@ == places_where(k as int, q).map_values(
                    |i: int| self.data.client_calls@[i].target,
                ),
            decreases self.data.client_calls.len() - k,
        {
            let call = &self.data.client_calls[k];
            let here: bool = match call.source_range {
                Some(own) => own == *range && call.source_file.same(path),
                None => false,
            };
            if here {
                r.push(call.target);
            }
            k += 1;
            assert(q(k - 1) == here);
            assert(r@ =~= places_where(k as int, q).map_values(
                |i: int| self.data.client_calls@[i].target,
            ));
        }
        r
    }

    /// The scope of a file.
    pub fn scope(&self, file_id: u32) -> (r: Option<usize>)
        ensures
            match r {
                Some(i) => i < self@.scope@.len() && scope_place(self@, file_id) == Some(i as int),
                None => scope_place(self@, file_id) is None,
            },
    {
        proof {
            use_type_invariant(self);
            lemma_places_where_same(
                self.data.scope@.len() as int,
                |i: int| level(self.scopes@[i], file_id),
                |i: int| self.data.scope@[i].file_id == file_id,
            );
        }
        self.scopes.find_last(&file_id)
    }

    /// What a name means in a file.
    pub fn scope_targets(&self, file_id: u32, name: &str) -> (r: Option<&Vec<Target>>)
        ensures
            match r {
                Some(targets) => scope_of(self@, file_id, name@) == Some(targets@),
                None => scope_of(self@, file_id, name@) is None,
            },
    {
        let i: usize = match self.scope(file_id) {
            Some(i) => i,
            None => {
                return None;
            },
        };
        let key: String = name.to_owned();
        let ghost scope = self.data.scope@[i as int];
        proof {
            use_type_invariant(self);
            let index = self.names@[i as int];
            let p = |k: int| level(index@[k], key);
            let q = |k: int| scope.names@[k].name@ == name@;
            assert forall|k: int| 0 <= k < scope.names@.len() implies #[trigger] p(k) == q(k) by {
                lemma_text_level(index@[k]@, key@);
                lemma_text_asymmetric(name@, name@);
            }
            lemma_places_where_same(scope.names@.len() as int, p, q);
        }
        match self.names[i].find_last(&key) {
            Some(k) => Some(&self.data.scope[i].names[k].targets),
            None => None,
        }
    }

    /// Buffer version of the content the index holds; only open documents carry
    /// one.
    pub fn document_version(&self, path: &DocPath) -> (r: Option<DocVersion>)
        ensures
            r == version_of(self@.versions@, path@),
    {
        proof {
            use_type_invariant(self);
            lemma_places_where_same(
                self.data.versions@.len() as int,
                |i: int| version_paths(self.data.versions@)[i] == path@,
                |i: int| self.data.versions@[i].path@ == path@,
            );
        }
        match find_path(&self.versions, Ghost(version_paths(self.data.versions@)), path) {
            Some(i) => Some(self.data.versions[i].version),
            None => None,
        }
    }

    /// Content hash of a path.
    pub fn content_hash(&self, path: &DocPath) -> (r: Option<Fingerprint>)
        ensures
            match r {
                Some(hash) => hash_of(self@.content_hashes@, path@) == Some(hash@),
                None => hash_of(self@.content_hashes@, path@) is None,
            },
    {
        proof {
            use_type_invariant(self);
            lemma_places_where_same(
                self.data.content_hashes@.len() as int,
                |i: int| hash_paths(self.data.content_hashes@)[i] == path@,
                |i: int| self.data.content_hashes@[i].path@ == path@,
            );
        }
        match find_path(&self.content_hashes, Ghost(hash_paths(self.data.content_hashes@)), path) {
            Some(i) => Some(self.data.content_hashes[i].hash),
            None => None,
        }
    }
}

/// The place in a list of the target with an id.
pub fn find_target(targets: &Vec<Target>, id: u32) -> (r: Option<usize>)
    ensures
        match r {
            Some(i) => i < targets@.len() && target_place(targets@, id) == Some(i as int),
            None => target_place(targets@, id) is None,
        },
{
    let ghost p = |i: int| targets@[i].id == id;
    let mut n: usize = targets.len();
    while n > 0
        invariant
            n <= targets@.len(),
            p == (|i: int| targets@[i].id == id),
            last_where(targets@.len() as int, p) == last_where(n as int, p),
        decreases n,
    {
        if targets[n - 1].id == id {
            return Some(n - 1);
        }
        n -= 1;
    }
    None
}

/// Source text lookup for range conversion.
pub trait SourceText {
    fn source(&self, path: &DocPath) -> Option<String>;
}

/// The lookup of a path may give this text, or none.
pub open spec fn gives<S: SourceText>(
    sources: S,
    path: Seq<Part>,
    text: Option<Seq<char>>,
) -> bool {
    exists|at: DocPath, out: Option<String>|
        at@ == path && optional_text(out) == text && #[trigger] call_ensures(
            S::source,
            (&sources, &at),
            out,
        )
}

fn call_lookup<S: SourceText, F: Fn(&S, &DocPath) -> Option<String>>(
    lookup: F,
    sources: &S,
    path: &DocPath,
) -> (r: Option<String>)
    requires
        lookup.requires((sources, path)),
    ensures
        lookup.ensures((sources, path), r),
{
    lookup(sources, path)
}

/// A source of texts, with a log of what was asked of it. There is no other way to
/// the source than through the log.
pub struct Reader<'a, S: SourceText> {
    sources: &'a S,
    asked: Ghost<Seq<Seq<Part>>>,
}

impl<'a, S: SourceText> Reader<'a, S> {
    /// The source asked.
    pub closed spec fn origin(&self) -> S {
        *self.sources
    }

    /// The paths asked for, one for each call of the source.
    pub closed spec fn asked(&self) -> Seq<Seq<Part>> {
        self.asked@
    }

    pub fn new(sources: &'a S) -> (r: Self)
        ensures
            r.origin() == *sources,
            r.asked() == Seq::<Seq<Part>>::empty(),
    {
        Reader { sources, asked: Ghost(Seq::empty()) }
    }

    /// Ask the source for a path, once.
    pub fn look_up(&mut self, path: &DocPath) -> (r: Option<String>)
        ensures
            final(self).origin() == old(self).origin(),
            final(self).asked() == old(self).asked().push(path@),
            gives(final(self).origin(), path@, optional_text(r)),
    {
        self.asked = Ghost(self.asked@.push(path@));
        call_lookup(S::source, self.sources, path)
    }
}

} // verus!
