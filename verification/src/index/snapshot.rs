//! Snapshot build from the findings of one analysis pass.

use std::sync::Arc;

use vstd::prelude::*;
use vstd::string::*;

use super::query::{
    client_call_targets, innermost_call, innermost_reference, mentions,
    ordered_targets_are_the_mentioned_ids, reference_keys, reference_targets, resolution_in,
    targets_of_call, targets_of_reference,
};
use super::{
    all_symbols, calls_at, edges_in, edges_out, file_place, find_path, hash_of, indexes_paths,
    is_call_at, node_id, symbol_with, version_of, version_paths, Analysis, Occurrence, PathVersion,
    Tables,
};
use crate::buffers::{documents, lemma_documents, BufferStore, DocView, OpenEntry};
use crate::lookup::{
    last_where, lemma_last_where, lemma_level_pair, lemma_places_where, lemma_places_where_same,
    level, places_where, KeyIndex,
};
use crate::model::{
    Diagnostic, FileExtraction, Fingerprint, Overlay, ResolvedClientCall, Symbol, Target,
};
use crate::order::{
    first_least_is_least, gather, lemma_same_order, lemma_stable_prefix, places, sort_by_keys,
    stable_order, SortKey,
};
use crate::path::{is_under, lemma_path_level, DocPath, Part};
use crate::types::{uri_parts, uri_path, DocVersion, RootDir};

verus! {

// ---------------------------------------------------------------------------
// Use sites

/// One use of each target.
pub open spec fn uses_of(targets: Seq<Target>, site: Occurrence) -> Seq<(u32, Occurrence)> {
    targets.map_values(|target: Target| (target.id, site))
}

/// The uses that the first `n` references of a file make.
pub open spec fn reference_sites_in(a: Analysis, file: int, n: int) -> Seq<(u32, Occurrence)>
    decreases n,
{
    if n <= 0 {
        Seq::empty()
    } else {
        let reference = a.extractions@[file].references@[n - 1];
        reference_sites_in(a, file, n - 1) + uses_of(
            targets_of_reference(a, a.extractions@[file].path@, reference),
            Occurrence { file: file as usize, range: reference.range },
        )
    }
}

/// The uses that the references of the first `n` files make.
pub open spec fn reference_sites(a: Analysis, n: int) -> Seq<(u32, Occurrence)>
    decreases n,
{
    if n <= 0 {
        Seq::empty()
    } else {
        reference_sites(a, n - 1) + reference_sites_in(
            a,
            n - 1,
            a.extractions@[n - 1].references@.len() as int,
        )
    }
}

/// Two calls stand at one byte of one file.
pub open spec fn at_one_byte(x: ResolvedClientCall, y: ResolvedClientCall) -> bool {
    x.source_range matches Some(a) && y.source_range matches Some(b) && a.byte_start == b.byte_start
        && x.source_file@ == y.source_file@
}

/// The call at a place is the first of those at its byte.
pub open spec fn is_first_call(calls: Seq<ResolvedClientCall>, i: int) -> bool {
    forall|m: int| 0 <= m < i ==> !at_one_byte(#[trigger] calls[m], calls[i])
}

/// The uses that one call makes: those of all records of its site, once for each
/// site.
pub open spec fn sites_of_call(a: Analysis, i: int) -> Seq<(u32, Occurrence)> {
    let call = a.client_calls@[i];
    match (call.source_range, file_place(a, call.source_file@)) {
        (Some(range), Some(file)) => if is_first_call(a.client_calls@, i) {
            uses_of(
                targets_of_call(a, call.source_file@, range),
                Occurrence { file: file as usize, range },
            )
        } else {
            Seq::empty()
        },
        _ => Seq::empty(),
    }
}

/// The uses that the first `n` calls make.
pub open spec fn call_sites(a: Analysis, n: int) -> Seq<(u32, Occurrence)>
    decreases n,
{
    if n <= 0 {
        Seq::empty()
    } else {
        call_sites(a, n - 1) + sites_of_call(a, n - 1)
    }
}

/// Every resolved use site with its target: those of the references, then those
/// of the calls.
pub open spec fn use_sites(a: Analysis) -> Seq<(u32, Occurrence)> {
    reference_sites(a, a.extractions@.len() as int) + call_sites(a, a.client_calls@.len() as int)
}

/// The places among the use sites that use one target.
pub open spec fn uses_target(sites: Seq<(u32, Occurrence)>, id: u32) -> spec_fn(int) -> bool {
    |i: int| sites[i].0 == id
}

/// The use sites at some places.
pub open spec fn sites_at(sites: Seq<(u32, Occurrence)>, found: Seq<int>) -> Seq<Occurrence> {
    found.map_values(|i: int| sites[i].1)
}

/// The use sites of one target.
pub open spec fn occurrences(a: Analysis, id: u32) -> Seq<Occurrence> {
    let sites = use_sites(a);
    sites_at(sites, places_where(sites.len() as int, uses_target(sites, id)))
}

fn push_uses(sites: &mut Vec<(u32, Occurrence)>, targets: &Vec<Target>, site: Occurrence)
    ensures
        final(sites)@ == old(sites)@ + uses_of(targets@, site),
{
    let ghost before = sites@;
    let mut i: usize = 0;
    while i < targets.len()
        invariant
            i <= targets@.len(),
            sites@ == before + uses_of(targets@, site).take(i as int),
        decreases targets.len() - i,
    {
        sites.push((targets[i].id, site));
        i += 1;
        assert(sites@ =~= before + uses_of(targets@, site).take(i as int));
    }
    assert(uses_of(targets@, site).take(i as int) =~= uses_of(targets@, site));
}

fn collect_reference_sites(tables: &Tables) -> (r: Vec<(u32, Occurrence)>)
    ensures
        r@ == reference_sites(tables@, tables@.extractions@.len() as int),
{
    let data = tables.findings();
    let mut sites: Vec<(u32, Occurrence)> = Vec::new();
    let mut fi: usize = 0;
    while fi < data.extractions.len()
        invariant
            *data == tables@,
            fi <= data.extractions@.len(),
            sites@ == reference_sites(tables@, fi as int),
        decreases data.extractions.len() - fi,
    {
        let file = &data.extractions[fi];
        let ghost before = sites@;
        let mut ri: usize = 0;
        assert(before + reference_sites_in(tables@, fi as int, 0) =~= before);
        while ri < file.references.len()
            invariant
                *data == tables@,
                fi < data.extractions@.len(),
                *file == data.extractions@[fi as int],
                ri <= file.references@.len(),
                sites@ == before + reference_sites_in(tables@, fi as int, ri as int),
            decreases file.references.len() - ri,
        {
            let reference = &file.references[ri];
            let targets = reference_targets(tables, fi, reference);
            push_uses(&mut sites, &targets, Occurrence { file: fi, range: reference.range });
            ri += 1;
            assert(sites@ =~= before + reference_sites_in(tables@, fi as int, ri as int));
        }
        fi += 1;
    }
    sites
}

fn collect_call_sites(tables: &Tables, first: Vec<(u32, Occurrence)>) -> (r: Vec<(u32, Occurrence)>)
    ensures
        r@ == first@ + call_sites(tables@, tables@.client_calls@.len() as int),
{
    let data = tables.findings();
    let mut sites: Vec<(u32, Occurrence)> = first;
    let mut keys: Vec<Option<(DocPath, usize)>> = Vec::new();
    let mut i: usize = 0;
    while i < data.client_calls.len()
        invariant
            i <= data.client_calls@.len(),
            keys@.len() == i,
            forall|k: int|
                0 <= k < i ==> match (#[trigger] keys@[k], data.client_calls@[k].source_range) {
                    (Some(key), Some(range)) => key.0@ == data.client_calls@[k].source_file@
                        && key.1 == range.byte_start,
                    (None, None) => true,
                    _ => false,
                },
        decreases data.client_calls.len() - i,
    {
        let call = &data.client_calls[i];
        match call.source_range {
            Some(range) => keys.push(Some((call.source_file.clone(), range.byte_start))),
            None => keys.push(None),
        }
        i += 1;
    }
    let index = KeyIndex::new(keys);
    i = 0;
    assert(first@ + call_sites(tables@, 0) =~= first@);
    while i < data.client_calls.len()
        invariant
            *data == tables@,
            i <= data.client_calls@.len(),
            index.wf(),
            index@.len() == data.client_calls@.len(),
            forall|k: int|
                0 <= k < data.client_calls@.len() ==> match (
                    #[trigger] index@[k],
                    data.client_calls@[k].source_range,
                ) {
                    (Some(key), Some(range)) => key.0@ == data.client_calls@[k].source_file@
                        && key.1 == range.byte_start,
                    (None, None) => true,
                    _ => false,
                },
            sites@ == first@ + call_sites(tables@, i as int),
        decreases data.client_calls.len() - i,
    {
        let call = &data.client_calls[i];
        let ghost before = sites@;
        if let Some(range) = call.source_range {
            let key: Option<(DocPath, usize)> = Some((call.source_file.clone(), range.byte_start));
            let found = index.find_all(&key);
            let ghost n = data.client_calls@.len() as int;
            let ghost p = |k: int| level(index@[k], key);
            proof {
                lemma_places_where(n, p);
                assert forall|k: int| 0 <= k < n implies #[trigger] p(k) == at_one_byte(
                    data.client_calls@[k],
                    *call,
                ) by {
                    if let Some(own) = index@[k] {
                        let wanted = key->0;
                        lemma_level_pair(own, wanted);
                        lemma_path_level(own.0@, wanted.0@);
                    }
                }
                assert(p(i as int));
                assert(places_where(n, p).contains(i as int));
                assert(places(found@) == places_where(n, p));
                assert(places(found@)[0] == found@[0] as int);
            }
            let is_first: bool = found[0] == i;
            proof {
                if is_first {
                    assert forall|m: int| 0 <= m < i implies !at_one_byte(
                        #[trigger] data.client_calls@[m],
                        *call,
                    ) by {
                        if at_one_byte(data.client_calls@[m], *call) {
                            assert(p(m));
                            assert(places_where(n, p).contains(m));
                            let k = choose|k: int|
                                0 <= k < places_where(n, p).len() && places_where(n, p)[k] == m;
                            if k > 0 {
                                assert(places_where(n, p)[0] < places_where(n, p)[k]);
                            }
                        }
                    }
                } else {
                    let m = found@[0] as int;
                    assert(p(m));
                    let k = choose|k: int|
                        0 <= k < places_where(n, p).len() && places_where(n, p)[k] == i;
                    assert(places_where(n, p)[0] < places_where(n, p)[k]);
                    assert(at_one_byte(data.client_calls@[m], *call));
                }
                assert(is_first == is_first_call(data.client_calls@, i as int));
            }
            if is_first {
                if let Some(file) = tables.file_index(&call.source_file) {
                    proof {
                        lemma_last_where(
                            data.extractions@.len() as int,
                            |i: int| data.extractions@[i].path@ == call.source_file@,
                        );
                    }
                    let targets = client_call_targets(tables, file, &range);
                    push_uses(&mut sites, &targets, Occurrence { file, range });
                }
            }
        }
        i += 1;
        assert(sites@ =~= before + sites_of_call(tables@, i - 1));
        assert(sites@ =~= first@ + call_sites(tables@, i as int));
    }
    sites
}

// ---------------------------------------------------------------------------
// The snapshot

/// Immutable query surface over one analysis pass.
#[derive(Debug)]
pub struct IndexSnapshot {
    tables: Tables,
    sites: Vec<(u32, Occurrence)>,
    by_target: KeyIndex<u32>,
}

impl View for IndexSnapshot {
    type V = Analysis;

    /// The findings.
    closed spec fn view(&self) -> Analysis {
        self.tables@
    }
}

impl IndexSnapshot {
    #[verifier::type_invariant]
    spec fn filled(&self) -> bool {
        &&& self.sites@ == use_sites(self.tables@)
        &&& self.by_target.wf()
        &&& self.by_target@ == self.sites@.map_values(|site: (u32, Occurrence)| site.0)
    }

    /// Index the findings of one pass, with every resolved use site by target.
    /// Uses are resolved by the rule of the cursor, so both directions agree.
    pub fn new(data: Analysis) -> (r: IndexSnapshot)
        ensures
            r@ == data,
    {
        let tables = Tables::new(data);
        let first = collect_reference_sites(&tables);
        let sites = collect_call_sites(&tables, first);
        let mut ids: Vec<u32> = Vec::new();
        let mut i: usize = 0;
        while i < sites.len()
            invariant
                i <= sites@.len(),
                ids@.len() == i,
                forall|k: int| 0 <= k < i ==> #[trigger] ids@[k] == sites@[k].0,
            decreases sites.len() - i,
        {
            ids.push(sites[i].0);
            i += 1;
        }
        assert(ids@ =~= sites@.map_values(|site: (u32, Occurrence)| site.0));
        let by_target = KeyIndex::new(ids);
        IndexSnapshot { tables, sites, by_target }
    }

    /// The indexed findings.
    pub fn tables(&self) -> (r: &Tables)
        ensures
            r@ == self@,
    {
        &self.tables
    }

    /// The extraction of a path.
    pub fn file_by_path(&self, path: &DocPath) -> (r: Option<&FileExtraction>)
        ensures
            match r {
                Some(file) => file_place(self@, path@) matches Some(i) && *file
                    == self@.extractions@[i],
                None => file_place(self@, path@) is None,
            },
    {
        match self.tables.file_index(path) {
            Some(i) => Some(&self.tables.findings().extractions[i]),
            None => None,
        }
    }

    /// The graph id of a path.
    pub fn file_id(&self, path: &DocPath) -> (r: Option<u32>)
        ensures
            r == node_id(self@, path@),
    {
        self.tables.file_id(path)
    }

    /// The symbol with an id.
    pub fn symbol_by_id(&self, id: u32) -> (r: Option<&Symbol>)
        ensures
            match r {
                Some(symbol) => symbol_with(self@, id) == Some(*symbol),
                None => symbol_with(self@, id) is None,
            },
    {
        self.tables.symbol_by_id(id)
    }

    /// Every symbol in the order of the files and of the symbols in each.
    pub fn symbols(&self) -> (r: Vec<&Symbol>)
        ensures
            r@.len() == all_symbols(self@).len(),
            forall|k: int| 0 <= k < r@.len() ==> *(#[trigger] r@[k]) == all_symbols(self@)[k],
    {
        self.tables.symbols()
    }

    /// What the symbol with an id references, with confidence.
    pub fn references_out(&self, id: u32) -> (r: Vec<Target>)
        ensures
            r@ == edges_out(self@, id),
    {
        self.tables.references_out(id)
    }

    /// The symbols that reference the one with an id, with confidence.
    pub fn references_in(&self, id: u32) -> (r: Vec<Target>)
        ensures
            r@ == edges_in(self@, id),
    {
        self.tables.references_in(id)
    }

    /// Buffer version of the content the index holds; only open documents carry
    /// one.
    pub fn document_version(&self, path: &DocPath) -> (r: Option<DocVersion>)
        ensures
            r == version_of(self@.versions@, path@),
    {
        self.tables.document_version(path)
    }

    /// Content hash of a path.
    pub fn content_hash(&self, path: &DocPath) -> (r: Option<Fingerprint>)
        ensures
            match r {
                Some(hash) => hash_of(self@.content_hashes@, path@) == Some(hash@),
                None => hash_of(self@.content_hashes@, path@) is None,
            },
    {
        self.tables.content_hash(path)
    }

    /// Every use site of a target.
    pub fn occurrences_of(&self, id: u32) -> (r: Vec<Occurrence>)
        ensures
            r@ == occurrences(self@, id),
    {
        let ghost n = self.sites@.len() as int;
        let ghost q = uses_target(self.sites@, id);
        proof {
            use_type_invariant(self);
            lemma_places_where_same(n, |i: int| level(self.by_target@[i], id), q);
        }
        let found = self.by_target.find_all(&id);
        let ghost wanted = sites_at(self.sites@, places_where(n, q));
        let mut r: Vec<Occurrence> = Vec::new();
        let mut k: usize = 0;
        while k < found.len()
            invariant
                k <= found@.len(),
                forall|i: int| 0 <= i < found@.len() ==> #[trigger] found@[i] < self.sites@.len(),
                places(found@) == places_where(n, q),
                wanted == sites_at(self.sites@, places_where(n, q)),
                r@ == wanted.take(k as int),
            decreases found.len() - k,
        {
            assert(places(found@)[k as int] == found@[k as int] as int);
            r.push(self.sites[found[k]].1);
            k += 1;
            assert(r@ =~= wanted.take(k as int));
        }
        assert(wanted.take(k as int) =~= wanted) by {
            assert(places(found@).len() == wanted.len());
        }
        r
    }

    /// Numeric generation of this pass; result ids embed it.
    pub fn generation(&self) -> (r: u32)
        ensures
            r == self@.generation,
    {
        self.tables.findings().generation
    }

    /// The recorded buffer versions.
    pub fn version_map(&self) -> (r: &Vec<PathVersion>)
        ensures
            r@ == self@.versions@,
    {
        &self.tables.findings().versions
    }
}

// ---------------------------------------------------------------------------
// Finishing a pass

/// The key that diagnostics are sorted by: path, message, first byte, those
/// without a range last.
pub open spec fn diagnostic_key_of(diagnostic: Diagnostic) -> (DocPath, (String, usize)) {
    (
        diagnostic.path,
        (
            diagnostic.message,
            match diagnostic.source_range {
                Some(range) => range.byte_start,
                None => usize::MAX,
            },
        ),
    )
}

/// Diagnostics in their stable order.
pub open spec fn sorted_diagnostics(diagnostics: Seq<Diagnostic>) -> Seq<Diagnostic> {
    gather(
        diagnostics,
        stable_order(diagnostics.map_values(|d: Diagnostic| diagnostic_key_of(d))),
    )
}

/// Sort diagnostics by path, message and first byte.
pub fn sort_diagnostics(diagnostics: Vec<Diagnostic>) -> (r: Vec<Diagnostic>)
    ensures
        r@ == sorted_diagnostics(diagnostics@),
{
    let ghost wanted = diagnostics@.map_values(|d: Diagnostic| diagnostic_key_of(d));
    let mut keys: Vec<(DocPath, (String, usize))> = Vec::new();
    let mut i: usize = 0;
    while i < diagnostics.len()
        invariant
            i <= diagnostics@.len(),
            keys@.len() == i,
            wanted == diagnostics@.map_values(|d: Diagnostic| diagnostic_key_of(d)),
            forall|k: int|
                0 <= k < i ==> (#[trigger] keys@[k]).0@ == wanted[k].0@ && keys@[k].1
                    == wanted[k].1,
        decreases diagnostics.len() - i,
    {
        let diagnostic = &diagnostics[i];
        let byte: usize = match &diagnostic.source_range {
            Some(range) => range.byte_start,
            None => usize::MAX,
        };
        keys.push((diagnostic.path.clone(), (diagnostic.message.clone(), byte)));
        i += 1;
    }
    proof {
        assert forall|i: int, j: int| 0 <= i < keys@.len() && 0 <= j < keys@.len() implies #[trigger] keys@[i].precedes(
            &keys@[j],
        ) == wanted[i].precedes(&wanted[j]) by {}
        lemma_same_order(keys@, wanted);
    }
    sort_by_keys(diagnostics, &keys)
}

/// The generation number of a counter: counting starts at one, and the number
/// zero is never used.
pub open spec fn generation_of(counter: u32) -> u32 {
    if counter == 0 {
        1
    } else {
        counter
    }
}

/// A pass's findings as the snapshot holds them.
pub open spec fn is_finished(done: Analysis, data: Analysis, graph: Seq<Diagnostic>, counter: u32) -> bool {
    &&& done.diagnostics@ == sorted_diagnostics(data.diagnostics@ + graph)
    &&& done.generation == generation_of(counter)
    &&& done == (Analysis {
        diagnostics: done.diagnostics,
        generation: done.generation,
        ..data
    })
}

/// Build the snapshot of one pass: number it, put the diagnostics of the
/// extraction and of the graph in order, and index the rest.
pub fn finish_snapshot(
    data: Analysis,
    graph_diagnostics: Vec<Diagnostic>,
    snapshot_raw: u32,
) -> (r: IndexSnapshot)
    ensures
        is_finished(r@, data, graph_diagnostics@, snapshot_raw),
{
    let mut data = data;
    let mut graph_diagnostics = graph_diagnostics;
    let mut diagnostics: Vec<Diagnostic> = Vec::new();
    std::mem::swap(&mut diagnostics, &mut data.diagnostics);
    diagnostics.append(&mut graph_diagnostics);
    data.diagnostics = sort_diagnostics(diagnostics);
    data.generation = if snapshot_raw == 0 {
        1
    } else {
        snapshot_raw
    };
    IndexSnapshot::new(data)
}

// ---------------------------------------------------------------------------
// Overlays

/// Buffer version of every overlay: the version the diagnostics describe.
pub fn overlay_versions(overlays: &Vec<Overlay>) -> (r: Vec<PathVersion>)
    ensures
        r@.len() == overlays@.len(),
        forall|i: int|
            0 <= i < r@.len() ==> (#[trigger] r@[i]).path@ == overlays@[i].path@ && r@[i].version.0
                == overlays@[i].version,
{
    let mut r: Vec<PathVersion> = Vec::new();
    let mut i: usize = 0;
    while i < overlays.len()
        invariant
            i <= overlays@.len(),
            r@.len() == i,
            forall|k: int|
                0 <= k < i ==> (#[trigger] r@[k]).path@ == overlays@[k].path@ && r@[k].version.0
                    == overlays@[k].version,
        decreases overlays.len() - i,
    {
        let overlay = &overlays[i];
        r.push(
            PathVersion { path: overlay.path.clone(), version: DocVersion::from(overlay.version) },
        );
        i += 1;
    }
    r
}

/// An overlay shows an open document.
pub open spec fn shows(overlay: Overlay, uri: Seq<char>, doc: DocView) -> bool {
    &&& overlay.uri@ == uri
    &&& uri_path(uri) == Some(overlay.path.spelling())
    &&& uri_parts(uri) == Some(overlay.path@)
    &&& overlay.text@ == doc.text
    &&& overlay.version == doc.version.0
    &&& overlay.lang == doc.lang
}

/// A document belongs under a root.
pub open spec fn belongs(uri: Seq<char>, root: Seq<Part>) -> bool {
    uri_parts(uri) matches Some(path) && is_under(path, root)
}

/// The overlays of one pass: one for every open document with a path under the
/// root, ordered by path.
pub fn collect_inputs(root: &RootDir, buffers: &BufferStore) -> (r: Vec<Overlay>)
    ensures
        forall|i: int|
            0 <= i < r@.len() ==> buffers@.contains_key((#[trigger] r@[i]).uri@) && belongs(
                r@[i].uri@,
                root@,
            ) && shows(r@[i], r@[i].uri@, buffers@[r@[i].uri@]),
        forall|uri: Seq<char>| #[trigger]
            buffers@.contains_key(uri) && belongs(uri, root@) ==> exists|i: int|
                0 <= i < r@.len() && (#[trigger] r@[i]).uri@ == uri,
        forall|i: int, j: int|
            0 <= i < j < r@.len() ==> (#[trigger] r@[i]).uri@ != (#[trigger] r@[j]).uri@
                && !r@[j].path.precedes(&r@[i].path),
{
    let entries: &Vec<OpenEntry> = buffers.iter();
    proof {
        lemma_documents(entries@);
    }
    let mut inputs: Vec<Overlay> = Vec::new();
    let mut keys: Vec<DocPath> = Vec::new();
    let ghost mut from: Seq<int> = Seq::empty();
    let mut n: usize = 0;
    while n < entries.len()
        invariant
            n <= entries@.len(),
            documents(entries@) == buffers@,
            forall|i: int|
                0 <= i < entries@.len() ==> buffers@.contains_key((#[trigger] entries@[i]).uri@)
                    && buffers@[entries@[i].uri@] == entries@[i].doc@,
            keys@.len() == inputs@.len() == from.len(),
            forall|i: int|
                0 <= i < inputs@.len() ==> {
                    let input = #[trigger] inputs@[i];
                    &&& keys@[i]@ == input.path@
                    &&& 0 <= from[i] < n
                    &&& input.uri@ == entries@[from[i]].uri@
                    &&& belongs(input.uri@, root@)
                    &&& shows(input, input.uri@, entries@[from[i]].doc@)
                },
            forall|i: int| 0 <= i < from.len() ==> #[trigger] from[i] < n,
            forall|i: int, j: int| 0 <= i < j < from.len() ==> from[i] < from[j],
            forall|k: int|
                0 <= k < n && belongs((#[trigger] entries@[k]).uri@, root@) ==> from.contains(k),
        decreases entries.len() - n,
    {
        let entry = &entries[n];
        let ghost before = from;
        if let Some(path) = entry.uri.to_path() {
            if root.contains(path) {
                keys.push(path.clone());
                inputs.push(
                    Overlay {
                        uri: entry.uri.as_str().to_owned(),
                        path: path.clone(),
                        text: entry.doc.text.clone(),
                        version: entry.doc.version.get(),
                        lang: entry.doc.lang,
                    },
                );
                proof {
                    from = from.push(n as int);
                }
            }
        }
        proof {
            assert forall|k: int| 0 <= k < n + 1 && belongs(
                (#[trigger] entries@[k]).uri@,
                root@,
            ) implies from.contains(k) by {
                if k < n {
                    assert(before.contains(k));
                    let i = choose|i: int| 0 <= i < before.len() && before[i] == k;
                    assert(from[i] == k);
                } else {
                    assert(from[from.len() - 1] == k);
                }
            }
        }
        n += 1;
    }
    let ghost all = inputs@;
    let r = sort_by_keys(inputs, &keys);
    proof {
        let order = stable_order(keys@);
        crate::order::stable_sort_is_a_stable_permutation(keys@);
        lemma_stable_prefix(keys@, keys@.len() as int);
        assert forall|i: int| 0 <= i < r@.len() implies r@[i] == #[trigger] all[order[i]] by {}
        assert forall|i: int, j: int| 0 <= i < j < r@.len() implies (#[trigger] r@[i]).uri@ != (
        #[trigger] r@[j]).uri@ && !r@[j].path.precedes(&r@[i].path) by {
            let (p, q) = (order[i], order[j]);
            assert(0 <= p < all.len() && 0 <= q < all.len() && p != q);
            assert(r@[i] == all[p] && r@[j] == all[q]);
            assert(all[p].uri@ == entries@[from[p]].uri@);
            assert(all[q].uri@ == entries@[from[q]].uri@);
            assert(keys@[p]@ == all[p].path@ && keys@[q]@ == all[q].path@);
            if p < q {
                assert(from[p] < from[q]);
            } else {
                assert(from[q] < from[p]);
            }
        }
        assert forall|uri: Seq<char>| #[trigger]
            buffers@.contains_key(uri) && belongs(uri, root@) implies exists|i: int|
            0 <= i < r@.len() && (#[trigger] r@[i]).uri@ == uri by {
            let k = choose|k: int| 0 <= k < entries@.len() && (#[trigger] entries@[k]).uri@ == uri;
            assert(from.contains(k));
            let m = choose|m: int| 0 <= m < from.len() && from[m] == k;
            assert(all[m].uri@ == uri);
            assert(order.contains(m));
            let i = choose|i: int| 0 <= i < order.len() && order[i] == m;
            assert(r@[i].uri@ == uri);
        }
        assert forall|i: int| 0 <= i < r@.len() implies buffers@.contains_key(
            (#[trigger] r@[i]).uri@,
        ) && belongs(r@[i].uri@, root@) && shows(r@[i], r@[i].uri@, buffers@[r@[i].uri@]) by {
            assert(0 <= order[i] < all.len());
            assert(r@[i] == all[order[i]]);
            assert(buffers@.contains_key(entries@[from[order[i]]].uri@));
        }
    }
    r
}

// ---------------------------------------------------------------------------
// The reindexer

/// Whether rebuilds write the shard cache: off for tests, on for the server
/// worker.
#[derive(Clone, Copy, Debug, PartialEq, Eq, Structural)]
pub enum Persistence {
    Disabled,
    Enabled,
}

/// How many files a pass found added, modified and removed.
#[derive(Clone, Copy, Debug, PartialEq, Eq, Structural)]
pub struct ChangeCounts {
    pub added: usize,
    pub modified: usize,
    pub removed: usize,
}

/// Two lists record the same versions.
pub open spec fn same_versions(a: Seq<PathVersion>, b: Seq<PathVersion>) -> bool {
    forall|path: Seq<Part>| #[trigger] version_of(a, path) == version_of(b, path)
}

/// Reusable reindexer: numbers the passes and retains the last snapshot.
#[derive(Debug)]
pub struct Reindexer {
    persistence: Persistence,
    last: Option<Arc<IndexSnapshot>>,
    snapshot_counter: u32,
}

/// Calls `std::sync::Arc::clone`: another handle to the same snapshot.
#[verifier::external_body]
pub(crate) fn share(snapshot: &Arc<IndexSnapshot>) -> (r: Arc<IndexSnapshot>)
    ensures
        r == *snapshot,
{
    Arc::clone(snapshot)
}

fn index_versions(versions: &Vec<PathVersion>) -> (r: KeyIndex<DocPath>)
    ensures
        indexes_paths(r, version_paths(versions@)),
{
    let mut keys: Vec<DocPath> = Vec::new();
    let mut i: usize = 0;
    while i < versions.len()
        invariant
            i <= versions@.len(),
            keys@.len() == i,
            forall|k: int| 0 <= k < i ==> (#[trigger] keys@[k])@ == versions@[k].path@,
        decreases versions.len() - i,
    {
        keys.push(versions[i].path.clone());
        i += 1;
    }
    KeyIndex::new(keys)
}

/// Every version that `some` records, `others` records too.
fn covered(some: &Vec<PathVersion>, others: &Vec<PathVersion>) -> (r: bool)
    ensures
        r == (forall|path: Seq<Part>| #[trigger]
            version_of(some@, path) is Some ==> version_of(some@, path) == version_of(
                others@,
                path,
            )),
{
    let some_index = index_versions(some);
    let other_index = index_versions(others);
    let mut i: usize = 0;
    while i < some.len()
        invariant
            i <= some@.len(),
            indexes_paths(some_index, version_paths(some@)),
            indexes_paths(other_index, version_paths(others@)),
            forall|k: int|
                0 <= k < i ==> version_of(some@, (#[trigger] some@[k]).path@) == version_of(
                    others@,
                    some@[k].path@,
                ),
        decreases some.len() - i,
    {
        let path = &some[i].path;
        proof {
            lemma_places_where_same(
                some@.len() as int,
                |i: int| version_paths(some@)[i] == path@,
                |i: int| some@[i].path@ == path@,
            );
            lemma_places_where_same(
                others@.len() as int,
                |i: int| version_paths(others@)[i] == path@,
                |i: int| others@[i].path@ == path@,
            );
            lemma_last_where(some@.len() as int, |i: int| some@[i].path@ == path@);
            let p = |k: int| some@[k].path@ == path@;
            lemma_places_where(some@.len() as int, p);
            assert(p(i as int));
            assert(places_where(some@.len() as int, p).contains(i as int));
        }
        let own: Option<DocVersion> = match find_path(&some_index, Ghost(version_paths(some@)), path) {
            Some(k) => Some(some[k].version),
            None => None,
        };
        let other: Option<DocVersion> = match find_path(&other_index, Ghost(version_paths(others@)), path) {
            Some(k) => Some(others[k].version),
            None => None,
        };
        assert(own == version_of(some@, path@));
        assert(other == version_of(others@, path@));
        let same: bool = match (own, other) {
            (Some(a), Some(b)) => a == b,
            (None, None) => true,
            _ => false,
        };
        if !same {
            assert(version_of(some@, path@) is Some);
            return false;
        }
        i += 1;
    }
    proof {
        assert forall|path: Seq<Part>| #[trigger]
            version_of(some@, path) is Some implies version_of(some@, path) == version_of(
            others@,
            path,
        ) by {
            let p = |k: int| some@[k].path@ == path;
            lemma_last_where(some@.len() as int, p);
            let k = last_where(some@.len() as int, p)->0;
            assert(some@[k].path@ == path);
        }
    }
    true
}

/// Whether two lists record the same versions.
pub fn versions_agree(a: &Vec<PathVersion>, b: &Vec<PathVersion>) -> (r: bool)
    ensures
        r == same_versions(a@, b@),
{
    let one = covered(a, b);
    let other = covered(b, a);
    proof {
        if one && other {
            assert forall|path: Seq<Part>| #[trigger] version_of(a@, path) == version_of(b@, path) by {
                let _ = version_of(b@, path) is Some;
            }
        }
        if !one {
            let path = choose|path: Seq<Part>| #[trigger]
                version_of(a@, path) is Some && version_of(a@, path) != version_of(b@, path);
            assert(version_of(a@, path) != version_of(b@, path));
        }
        if !other {
            let path = choose|path: Seq<Part>| #[trigger]
                version_of(b@, path) is Some && version_of(b@, path) != version_of(a@, path);
            assert(version_of(a@, path) != version_of(b@, path));
        }
    }
    one && other
}

impl Default for Reindexer {
    fn default() -> (r: Self)
        ensures
            r.retained() is None,
            r.counter() == 0,
            r.persistence_mode() == Persistence::Disabled,
    {
        Reindexer::new()
    }
}

impl Reindexer {
    /// The snapshot of the last pass.
    pub closed spec fn retained(&self) -> Option<Arc<IndexSnapshot>> {
        self.last
    }

    /// How many snapshots were built, modulo the counter's range.
    pub closed spec fn counter(&self) -> u32 {
        self.snapshot_counter
    }

    /// Whether rebuilds write the shard cache.
    pub closed spec fn persistence_mode(&self) -> Persistence {
        self.persistence
    }

    /// A pass that changed no file and brings no version the retained snapshot
    /// lacks can reuse that snapshot.
    pub open spec fn can_reuse(&self, change: ChangeCounts, versions: Seq<PathVersion>) -> bool {
        &&& change.added == 0
        &&& change.modified == 0
        &&& change.removed == 0
        &&& self.retained() matches Some(last) && same_versions(last@.versions@, versions)
    }

    pub fn new() -> (r: Self)
        ensures
            r.retained() is None,
            r.counter() == 0,
            r.persistence_mode() == Persistence::Disabled,
    {
        Reindexer::with_persistence(Persistence::Disabled)
    }

    pub fn with_persistence(persistence: Persistence) -> (r: Self)
        ensures
            r.retained() is None,
            r.counter() == 0,
            r.persistence_mode() == persistence,
    {
        Reindexer { persistence, last: None, snapshot_counter: 0 }
    }

    /// Whether rebuilds write the shard cache.
    pub fn persists(&self) -> (r: bool)
        ensures
            r == (self.persistence_mode() == Persistence::Enabled),
    {
        self.persistence == Persistence::Enabled
    }

    /// The retained snapshot, where a pass that changed no file may return it: an
    /// unrecorded buffer version forces the rebuild.
    pub fn reuse(&self, change: ChangeCounts, versions: &Vec<PathVersion>) -> (r: Option<
        Arc<IndexSnapshot>,
    >)
        ensures
            r is Some == self.can_reuse(change, versions@),
            r is Some ==> r == self.retained(),
    {
        if change.added != 0 || change.modified != 0 || change.removed != 0 {
            return None;
        }
        match &self.last {
            Some(last) => {
                if versions_agree(last.version_map(), versions) {
                    Some(share(last))
                } else {
                    None
                }
            },
            None => None,
        }
    }

    /// The generation that the next rebuilt snapshot gets.
    pub fn next_generation(&self) -> (r: u32)
        ensures
            r == generation_of(
                (if self.counter() == u32::MAX {
                    0
                } else {
                    (self.counter() + 1) as u32
                }),
            ),
    {
        let next: u32 = self.snapshot_counter.wrapping_add(1);
        if next == 0 {
            1
        } else {
            next
        }
    }

    /// Record the findings of a pass that could not be reused.
    pub fn rebuild(&mut self, data: Analysis, graph_diagnostics: Vec<Diagnostic>) -> (r: Arc<
        IndexSnapshot,
    >)
        ensures
            final(self).counter() == (if old(self).counter() == u32::MAX {
                0
            } else {
                (old(self).counter() + 1) as u32
            }),
            final(self).persistence_mode() == old(self).persistence_mode(),
            final(self).retained() == Some(r),
            is_finished(r@, data, graph_diagnostics@, final(self).counter()),
    {
        self.snapshot_counter = self.snapshot_counter.wrapping_add(1);
        let snapshot: Arc<IndexSnapshot> = Arc::new(
            finish_snapshot(data, graph_diagnostics, self.snapshot_counter),
        );
        self.last = Some(share(&snapshot));
        snapshot
    }
}

// ---------------------------------------------------------------------------
// Laws

proof fn lemma_concat_contains<T>(a: Seq<T>, b: Seq<T>, x: T)
    ensures
        (a + b).contains(x) == (a.contains(x) || b.contains(x)),
{
    let c = a + b;
    if a.contains(x) {
        let i = choose|i: int| 0 <= i < a.len() && a[i] == x;
        assert(c[i] == x);
    }
    if b.contains(x) {
        let i = choose|i: int| 0 <= i < b.len() && b[i] == x;
        assert(c[a.len() + i] == x);
    }
    if c.contains(x) {
        let i = choose|i: int| 0 <= i < c.len() && c[i] == x;
        if i < a.len() {
            assert(a[i] == x);
        } else {
            assert(b[i - a.len()] == x);
        }
    }
}

proof fn lemma_uses_contain(targets: Seq<Target>, site: Occurrence, use_site: (u32, Occurrence))
    ensures
        uses_of(targets, site).contains(use_site) == (use_site.1 == site && mentions(
            targets,
            use_site.0,
        )),
{
    let uses = uses_of(targets, site);
    if uses.contains(use_site) {
        let i = choose|i: int| 0 <= i < uses.len() && uses[i] == use_site;
        assert(targets[i].id == use_site.0);
    }
    if use_site.1 == site && mentions(targets, use_site.0) {
        let i = choose|i: int| 0 <= i < targets.len() && (#[trigger] targets[i]).id == use_site.0;
        assert(uses[i] == use_site);
    }
}

/// A reference of a file, among its first `n`, makes a use.
pub open spec fn reference_makes(a: Analysis, file: int, n: int, use_site: (u32, Occurrence)) -> bool {
    exists|m: int|
        0 <= m < n && {
            let reference = #[trigger] a.extractions@[file].references@[m];
            &&& use_site.1 == Occurrence { file: file as usize, range: reference.range }
            &&& mentions(
                targets_of_reference(a, a.extractions@[file].path@, reference),
                use_site.0,
            )
        }
}

proof fn lemma_reference_sites_in(a: Analysis, file: int, n: int, use_site: (u32, Occurrence))
    requires
        0 <= n,
    ensures
        reference_sites_in(a, file, n).contains(use_site) == reference_makes(a, file, n, use_site),
    decreases n,
{
    if n > 0 {
        let reference = a.extractions@[file].references@[n - 1];
        let targets = targets_of_reference(a, a.extractions@[file].path@, reference);
        let site = Occurrence { file: file as usize, range: reference.range };
        lemma_reference_sites_in(a, file, n - 1, use_site);
        lemma_uses_contain(targets, site, use_site);
        lemma_concat_contains(reference_sites_in(a, file, n - 1), uses_of(targets, site), use_site);
        if reference_makes(a, file, n, use_site) {
            let m = choose|m: int|
                0 <= m < n && {
                    let reference = #[trigger] a.extractions@[file].references@[m];
                    &&& use_site.1 == Occurrence { file: file as usize, range: reference.range }
                    &&& mentions(
                        targets_of_reference(a, a.extractions@[file].path@, reference),
                        use_site.0,
                    )
                };
            if m < n - 1 {
                assert(reference_makes(a, file, n - 1, use_site));
            }
        }
        if reference_makes(a, file, n - 1, use_site) {
            let m = choose|m: int|
                0 <= m < n - 1 && {
                    let reference = #[trigger] a.extractions@[file].references@[m];
                    &&& use_site.1 == Occurrence { file: file as usize, range: reference.range }
                    &&& mentions(
                        targets_of_reference(a, a.extractions@[file].path@, reference),
                        use_site.0,
                    )
                };
            assert(a.extractions@[file].references@[m] == a.extractions@[file].references@[m]);
        }
        if use_site.1 == site && mentions(targets, use_site.0) {
            assert(reference_makes(a, file, n, use_site));
        }
    }
}

proof fn lemma_reference_sites(a: Analysis, n: int, use_site: (u32, Occurrence))
    requires
        0 <= n,
    ensures
        reference_sites(a, n).contains(use_site) == (exists|file: int|
            0 <= file < n && #[trigger] reference_makes(
                a,
                file,
                a.extractions@[file].references@.len() as int,
                use_site,
            )),
    decreases n,
{
    if n > 0 {
        let last = a.extractions@[n - 1].references@.len() as int;
        lemma_reference_sites(a, n - 1, use_site);
        lemma_reference_sites_in(a, n - 1, last, use_site);
        lemma_concat_contains(
            reference_sites(a, n - 1),
            reference_sites_in(a, n - 1, last),
            use_site,
        );
    }
}

proof fn lemma_call_sites(a: Analysis, n: int, use_site: (u32, Occurrence))
    requires
        0 <= n,
    ensures
        call_sites(a, n).contains(use_site) == (exists|i: int|
            0 <= i < n && #[trigger] sites_of_call(a, i).contains(use_site)),
    decreases n,
{
    if n > 0 {
        lemma_call_sites(a, n - 1, use_site);
        lemma_concat_contains(call_sites(a, n - 1), sites_of_call(a, n - 1), use_site);
    }
}

proof fn lemma_occurrences(a: Analysis, id: u32, site: Occurrence)
    ensures
        occurrences(a, id).contains(site) == use_sites(a).contains((id, site)),
{
    let sites = use_sites(a);
    let n = sites.len() as int;
    let p = uses_target(sites, id);
    let found = places_where(n, p);
    lemma_places_where(n, p);
    let all = occurrences(a, id);
    if all.contains(site) {
        let i = choose|i: int| 0 <= i < all.len() && all[i] == site;
        assert(0 <= found[i] < n && p(found[i]));
        assert(sites[found[i]] == (id, site));
    }
    if sites.contains((id, site)) {
        let k = choose|k: int| 0 <= k < n && sites[k] == (id, site);
        assert(p(k));
        assert(found.contains(k));
        let i = choose|i: int| 0 <= i < found.len() && found[i] == k;
        assert(all[i] == site);
    }
}

/// A client call makes a use: it is the first at its byte, and its site has the
/// target.
pub open spec fn call_makes(a: Analysis, i: int, use_site: (u32, Occurrence)) -> bool {
    let call = a.client_calls@[i];
    &&& is_first_call(a.client_calls@, i)
    &&& call.source_range == Some(use_site.1.range)
    &&& file_place(a, call.source_file@) matches Some(file) && use_site.1.file == file as usize
    &&& mentions(targets_of_call(a, call.source_file@, use_site.1.range), use_site.0)
}

/// The occurrences of a target are exactly the uses whose resolution names it: of
/// a reference, or of a client call.
pub proof fn occurrences_are_the_resolved_uses(a: Analysis, id: u32, site: Occurrence)
    ensures
        occurrences(a, id).contains(site) <==> {
            ||| exists|file: int|
                0 <= file < a.extractions@.len() && #[trigger] reference_makes(
                    a,
                    file,
                    a.extractions@[file].references@.len() as int,
                    (id, site),
                )
            ||| exists|i: int|
                0 <= i < a.client_calls@.len() && #[trigger] call_makes(a, i, (id, site))
        },
{
    let n = a.extractions@.len() as int;
    let m = a.client_calls@.len() as int;
    let use_site = (id, site);
    lemma_occurrences(a, id, site);
    lemma_reference_sites(a, n, use_site);
    lemma_call_sites(a, m, use_site);
    lemma_concat_contains(reference_sites(a, n), call_sites(a, m), use_site);
    assert forall|i: int| 0 <= i < m implies #[trigger] sites_of_call(a, i).contains(use_site)
        == call_makes(a, i, use_site) by {
        let call = a.client_calls@[i];
        if let (Some(range), Some(file)) = (call.source_range, file_place(a, call.source_file@)) {
            lemma_uses_contain(
                targets_of_call(a, call.source_file@, range),
                Occurrence { file: file as usize, range },
                use_site,
            );
        }
    }
    if exists|i: int| 0 <= i < m && #[trigger] sites_of_call(a, i).contains(use_site) {
        let i = choose|i: int| 0 <= i < m && #[trigger] sites_of_call(a, i).contains(use_site);
        assert(call_makes(a, i, use_site));
    }
    if exists|i: int| 0 <= i < m && #[trigger] call_makes(a, i, use_site) {
        let i = choose|i: int| 0 <= i < m && #[trigger] call_makes(a, i, use_site);
        assert(sites_of_call(a, i).contains(use_site));
    }
}

/// Calls at one byte of one file have one range.
pub open spec fn calls_have_one_range(a: Analysis) -> bool {
    forall|i: int, j: int|
        0 <= i < a.client_calls@.len() && 0 <= j < a.client_calls@.len() && at_one_byte(
            #[trigger] a.client_calls@[i],
            #[trigger] a.client_calls@[j],
        ) ==> a.client_calls@[i].source_range == a.client_calls@[j].source_range
}

/// The first call at the byte of a call.
proof fn lemma_first_call(calls: Seq<ResolvedClientCall>, i: int) -> (r: int)
    requires
        0 <= i < calls.len(),
        calls[i].source_range is Some,
    ensures
        0 <= r <= i,
        at_one_byte(calls[r], calls[i]),
        is_first_call(calls, r),
    decreases i,
{
    if is_first_call(calls, i) {
        i
    } else {
        let m = choose|m: int| 0 <= m < i && at_one_byte(#[trigger] calls[m], calls[i]);
        lemma_first_call(calls, m)
    }
}

/// Both directions agree: whatever the cursor on a use resolves to lists that use
/// among its occurrences. Where calls overlap, those at one byte have one range.
pub proof fn a_resolved_use_is_an_occurrence(a: Analysis, file: int, byte: usize, k: int)
    requires
        0 <= file < a.extractions@.len(),
        file_place(a, a.extractions@[file].path@) == Some(file),
        calls_have_one_range(a),
        0 <= k < resolution_in(a, a.extractions@[file], byte).len(),
        resolution_in(a, a.extractions@[file], byte)[k].origin is Some,
    ensures
        ({
            let answer = resolution_in(a, a.extractions@[file], byte)[k];
            occurrences(a, answer.id).contains(
                Occurrence { file: file as usize, range: answer.origin->0 },
            )
        }),
{
    let extraction = a.extractions@[file];
    let path = extraction.path@;
    let answer = resolution_in(a, extraction, byte)[k];
    let id = answer.id;
    let range = answer.origin->0;
    let site = Occurrence { file: file as usize, range };
    occurrences_are_the_resolved_uses(a, id, site);
    let call = innermost_call(extraction, byte);
    let call_targets = match call {
        Some(range) => targets_of_call(a, path, range),
        None => Seq::empty(),
    };
    if call_targets.len() > 0 {
        assert(call == Some(range));
        assert(call_targets[k].id == id);
        assert(mentions(call_targets, id));
        let records = calls_at(a, path, range);
        ordered_targets_are_the_mentioned_ids(a, records);
        assert(mentions(records, id));
        let m = choose|m: int| 0 <= m < records.len() && (#[trigger] records[m]).id == id;
        let p = is_call_at(a.client_calls@, path, range);
        let n = a.client_calls@.len() as int;
        lemma_places_where(n, p);
        let found = places_where(n, p);
        assert(0 <= m < found.len());
        let i = found[m];
        assert(0 <= i < n && p(i));
        let first = lemma_first_call(a.client_calls@, i);
        assert(a.client_calls@[first].source_range == Some(range));
        assert(call_makes(a, first, (id, site)));
    } else {
        let i = innermost_reference(extraction, byte)->0;
        first_least_is_least(reference_keys(extraction, byte));
        let reference = extraction.references@[i];
        let targets = targets_of_reference(a, path, reference);
        assert(targets[k].id == id);
        assert(mentions(targets, id));
        assert(a.extractions@[file].references@[i] == reference);
        assert(reference_makes(a, file, extraction.references@.len() as int, (id, site)));
    }
}

/// A pass that changed nothing returns the retained snapshot, and after a rebuild
/// the same versions make the next such pass reuse what was built.
pub proof fn an_unchanged_pass_reuses_the_snapshot(
    reindexer: Reindexer,
    snapshot: Arc<IndexSnapshot>,
)
    requires
        reindexer.retained() == Some(snapshot),
    ensures
        reindexer.can_reuse(
            ChangeCounts { added: 0, modified: 0, removed: 0 },
            snapshot@.versions@,
        ),
{
}

/// Generations are never zero, and those of consecutive rebuilds differ until the
/// counter starts over.
pub proof fn consecutive_generations_differ(counter: u32)
    requires
        0 < counter < u32::MAX,
    ensures
        generation_of(counter) != 0,
        generation_of((counter + 1) as u32) != generation_of(counter),
{
}

} // verus!
