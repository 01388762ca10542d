//! Cursor resolution over the snapshot.

use vstd::prelude::*;
use vstd::string::*;

use super::snapshot::IndexSnapshot;
use super::{
    calls_at, file_place, find_target, lemma_target_place, node_id, recorded, scope_of,
    symbol_with, target_place, Analysis, Tables,
};
use crate::model::{
    CallSiteVariant, Confidence, FileExtraction, SourceRange, Symbol, Target, UnresolvedReference,
};
use crate::order::{
    first_least, gather, least_place, lemma_same_order, lemma_stable_prefix, sort_by_keys,
    stable_order, SortKey,
};
use crate::path::{DocPath, Part};
use crate::types::{uri_parts, DocUri};

verus! {

// ---------------------------------------------------------------------------
// What stands at a byte

/// Whether a range holds a byte; an empty range holds the byte it stands at.
pub open spec fn holds_byte(range: SourceRange, byte: usize) -> bool {
    if range.byte_end > range.byte_start {
        range.byte_start <= byte < range.byte_end
    } else {
        byte == range.byte_start
    }
}

/// The key by which the innermost of several ranges is found: length, start, end.
pub open spec fn range_key_of(range: SourceRange) -> (usize, (usize, usize)) {
    (
        if range.byte_end >= range.byte_start {
            (range.byte_end - range.byte_start) as usize
        } else {
            0
        },
        (range.byte_start, range.byte_end),
    )
}

pub fn contains_byte(range: &SourceRange, byte: usize) -> (r: bool)
    ensures
        r == holds_byte(*range, byte),
{
    if range.byte_end > range.byte_start {
        range.byte_start <= byte && byte < range.byte_end
    } else {
        byte == range.byte_start
    }
}

pub fn range_key(range: &SourceRange) -> (r: (usize, (usize, usize)))
    ensures
        r == range_key_of(*range),
{
    let len: usize = if range.byte_end >= range.byte_start {
        range.byte_end - range.byte_start
    } else {
        0
    };
    (len, (range.byte_start, range.byte_end))
}

/// The keys of the symbols that hold a byte.
pub open spec fn symbol_keys(file: FileExtraction, byte: usize) -> Seq<
    Option<((usize, (usize, usize)), u32)>,
> {
    Seq::new(
        file.symbols@.len(),
        |i: int|
            if holds_byte(file.symbols@[i].source_range, byte) {
                Some((range_key_of(file.symbols@[i].source_range), file.symbols@[i].id))
            } else {
                None
            },
    )
}

/// The innermost symbol that holds a byte.
pub open spec fn innermost_symbol(file: FileExtraction, byte: usize) -> Option<Symbol> {
    match first_least(symbol_keys(file, byte)) {
        Some(i) => Some(file.symbols@[i]),
        None => None,
    }
}

/// Innermost symbol containing `byte`; ties break on range key then id, never on
/// engine order.
pub fn smallest_symbol_at(file: &FileExtraction, byte: usize) -> (r: Option<&Symbol>)
    ensures
        match r {
            Some(symbol) => innermost_symbol(*file, byte) == Some(*symbol),
            None => innermost_symbol(*file, byte) is None,
        },
{
    let mut keys: Vec<Option<((usize, (usize, usize)), u32)>> = Vec::new();
    let mut i: usize = 0;
    while i < file.symbols.len()
        invariant
            i <= file.symbols@.len(),
            keys@ == symbol_keys(*file, byte).take(i as int),
        decreases file.symbols.len() - i,
    {
        let symbol = &file.symbols[i];
        if contains_byte(&symbol.source_range, byte) {
            keys.push(Some((range_key(&symbol.source_range), symbol.id)));
        } else {
            keys.push(None);
        }
        i += 1;
        assert(keys@ =~= symbol_keys(*file, byte).take(i as int));
    }
    assert(keys@ =~= symbol_keys(*file, byte));
    match least_place(&keys) {
        Some(i) => Some(&file.symbols[i]),
        None => None,
    }
}

/// The keys of the references that hold a byte.
pub open spec fn reference_keys(file: FileExtraction, byte: usize) -> Seq<
    Option<((usize, (usize, usize)), String)>,
> {
    Seq::new(
        file.references@.len(),
        |i: int|
            if holds_byte(file.references@[i].range, byte) {
                Some((range_key_of(file.references@[i].range), file.references@[i].name))
            } else {
                None
            },
    )
}

/// The place of the innermost reference that holds a byte.
pub open spec fn innermost_reference(file: FileExtraction, byte: usize) -> Option<int> {
    first_least(reference_keys(file, byte))
}

/// Innermost unresolved reference at `byte`; the reference list is the
/// authority, so unresolvable ones still match.
pub fn reference_at(file: &FileExtraction, byte: usize) -> (r: Option<&UnresolvedReference>)
    ensures
        match r {
            Some(reference) => innermost_reference(*file, byte) matches Some(i) && 0 <= i
                < file.references@.len() && *reference == file.references@[i],
            None => innermost_reference(*file, byte) is None,
        },
{
    let mut keys: Vec<Option<((usize, (usize, usize)), String)>> = Vec::new();
    let mut i: usize = 0;
    while i < file.references.len()
        invariant
            i <= file.references@.len(),
            keys@ == reference_keys(*file, byte).take(i as int),
        decreases file.references.len() - i,
    {
        let reference = &file.references[i];
        if contains_byte(&reference.range, byte) {
            keys.push(Some((range_key(&reference.range), reference.name.clone())));
        } else {
            keys.push(None);
        }
        i += 1;
        assert(keys@ =~= reference_keys(*file, byte).take(i as int));
    }
    assert(keys@ =~= reference_keys(*file, byte));
    match least_place(&keys) {
        Some(i) => Some(&file.references[i]),
        None => None,
    }
}

/// The keys of the client call sites that hold a byte.
pub open spec fn call_site_keys(file: FileExtraction, byte: usize) -> Seq<
    Option<((usize, (usize, usize)), Option<String>)>,
> {
    Seq::new(
        file.call_sites@.len(),
        |i: int|
            match file.call_sites@[i].source_range {
                Some(range) => if file.call_sites@[i].variant == CallSiteVariant::ClientCall
                    && holds_byte(range, byte) {
                    Some((range_key_of(range), file.call_sites@[i].function_name))
                } else {
                    None
                },
                None => None,
            },
    )
}

/// The range of the innermost client call site that holds a byte.
pub open spec fn innermost_call(file: FileExtraction, byte: usize) -> Option<SourceRange> {
    match first_least(call_site_keys(file, byte)) {
        Some(i) => file.call_sites@[i].source_range,
        None => None,
    }
}

/// Range of the innermost client call site at `byte`.
pub fn call_site_at(file: &FileExtraction, byte: usize) -> (r: Option<SourceRange>)
    ensures
        r == innermost_call(*file, byte),
{
    let mut keys: Vec<Option<((usize, (usize, usize)), Option<String>)>> = Vec::new();
    let mut i: usize = 0;
    while i < file.call_sites.len()
        invariant
            i <= file.call_sites@.len(),
            keys@ == call_site_keys(*file, byte).take(i as int),
        decreases file.call_sites.len() - i,
    {
        let site = &file.call_sites[i];
        let mut key: Option<((usize, (usize, usize)), Option<String>)> = None;
        if let Some(range) = &site.source_range {
            if site.variant == CallSiteVariant::ClientCall && contains_byte(range, byte) {
                let name: Option<String> = match &site.function_name {
                    Some(name) => Some(name.clone()),
                    None => None,
                };
                key = Some((range_key(range), name));
            }
        }
        keys.push(key);
        i += 1;
        assert(keys@ =~= call_site_keys(*file, byte).take(i as int));
    }
    assert(keys@ =~= call_site_keys(*file, byte));
    match least_place(&keys) {
        Some(i) => file.call_sites[i].source_range,
        None => None,
    }
}

// ---------------------------------------------------------------------------
// Targets

/// The surer of two confidences.
pub open spec fn surer(a: Confidence, b: Confidence) -> Confidence {
    if b.rank > a.rank {
        b
    } else {
        a
    }
}

/// One target for each id, in the order of first mention, with the highest
/// confidence mentioned.
pub open spec fn merged(targets: Seq<Target>) -> Seq<Target>
    decreases targets.len(),
{
    if targets.len() == 0 {
        targets
    } else {
        let kept = merged(targets.drop_last());
        let next = targets.last();
        match target_place(kept, next.id) {
            Some(i) => kept.update(
                i,
                Target { id: next.id, confidence: surer(kept[i].confidence, next.confidence) },
            ),
            None => kept.push(next),
        }
    }
}

/// The key of a target: declaring path, declaration byte, id. Confidence is not
/// in the key.
pub open spec fn target_key_of(a: Analysis, target: Target) -> Option<(DocPath, (usize, u32))> {
    match symbol_with(a, target.id) {
        Some(symbol) => Some(
            (symbol.file_path, (symbol.source_range.byte_start, target.id)),
        ),
        None => None,
    }
}

/// The keys of a list of targets.
pub open spec fn target_keys_of(a: Analysis, targets: Seq<Target>) -> Seq<
    Option<(DocPath, (usize, u32))>,
> {
    targets.map_values(|target: Target| target_key_of(a, target))
}

/// Targets merged by id and ordered by declaration site.
pub open spec fn ordered_targets(a: Analysis, targets: Seq<Target>) -> Seq<Target> {
    gather(merged(targets), stable_order(target_keys_of(a, merged(targets))))
}

fn target_key(tables: &Tables, target: &Target) -> (r: Option<(DocPath, (usize, u32))>)
    ensures
        match (r, target_key_of(tables@, *target)) {
            (Some(key), Some(wanted)) => key.0@ == wanted.0@ && key.1 == wanted.1,
            (None, None) => true,
            _ => false,
        },
{
    match tables.symbol_by_id(target.id) {
        Some(symbol) => Some(
            (symbol.file_path.clone(), (symbol.source_range.byte_start, target.id)),
        ),
        None => None,
    }
}

/// Merge by id keeping the highest confidence.
fn merge_targets(targets: &Vec<Target>) -> (r: Vec<Target>)
    ensures
        r@ == merged(targets@),
{
    let mut kept: Vec<Target> = Vec::new();
    let mut n: usize = 0;
    while n < targets.len()
        invariant
            n <= targets@.len(),
            kept@ == merged(targets@.take(n as int)),
        decreases targets.len() - n,
    {
        let next: Target = targets[n];
        assert(targets@.take(n as int + 1).drop_last() =~= targets@.take(n as int));
        match find_target(&kept, next.id) {
            Some(i) => {
                let confidence: Confidence = if next.confidence.rank > kept[i].confidence.rank {
                    next.confidence
                } else {
                    kept[i].confidence
                };
                kept.set(i, Target { id: next.id, confidence });
            },
            None => {
                kept.push(next);
            },
        }
        n += 1;
    }
    assert(targets@.take(n as int) =~= targets@);
    kept
}

/// Dedup by id keeping the highest confidence, then order by declaration site.
pub fn dedup_targets(tables: &Tables, targets: &Vec<Target>) -> (r: Vec<Target>)
    ensures
        r@ == ordered_targets(tables@, targets@),
{
    let kept = merge_targets(targets);
    let ghost wanted = target_keys_of(tables@, kept@);
    let mut keys: Vec<Option<(DocPath, (usize, u32))>> = Vec::new();
    let mut n: usize = 0;
    while n < kept.len()
        invariant
            n <= kept@.len(),
            keys@.len() == n,
            wanted == target_keys_of(tables@, kept@),
            forall|i: int|
                0 <= i < n ==> match (#[trigger] keys@[i], wanted[i]) {
                    (Some(key), Some(want)) => key.0@ == want.0@ && key.1 == want.1,
                    (None, None) => true,
                    _ => false,
                },
        decreases kept.len() - n,
    {
        keys.push(target_key(tables, &kept[n]));
        n += 1;
    }
    proof {
        assert forall|i: int, j: int| 0 <= i < keys@.len() && 0 <= j < keys@.len() implies #[trigger] keys@[i].precedes(
            &keys@[j],
        ) == wanted[i].precedes(&wanted[j]) by {}
        lemma_same_order(keys@, wanted);
    }
    sort_by_keys(kept, &keys)
}

/// The targets a name has in a file by its scope.
pub open spec fn scoped(a: Analysis, path: Seq<Part>, name: Seq<char>) -> Seq<Target> {
    match node_id(a, path) {
        Some(file_id) => match scope_of(a, file_id, name) {
            Some(targets) => ordered_targets(a, targets),
            None => Seq::empty(),
        },
        None => Seq::empty(),
    }
}

/// The targets of a reference: engine records for its byte, else the scope.
pub open spec fn targets_of_reference(
    a: Analysis,
    path: Seq<Part>,
    reference: UnresolvedReference,
) -> Seq<Target> {
    let records = recorded(a, path, reference.range.byte_start);
    if records.len() > 0 {
        ordered_targets(a, records)
    } else {
        scoped(a, path, reference.name@)
    }
}

/// The targets of a call site.
pub open spec fn targets_of_call(a: Analysis, path: Seq<Part>, range: SourceRange) -> Seq<Target> {
    ordered_targets(a, calls_at(a, path, range))
}

fn scoped_targets(tables: &Tables, file: usize, name: &str) -> (r: Vec<Target>)
    requires
        file < tables@.extractions@.len(),
    ensures
        r@ == scoped(tables@, tables@.extractions@[file as int].path@, name@),
{
    let path = &tables.findings().extractions[file].path;
    match tables.file_id(path) {
        Some(file_id) => match tables.scope_targets(file_id, name) {
            Some(targets) => dedup_targets(tables, targets),
            None => Vec::new(),
        },
        None => Vec::new(),
    }
}

/// Targets of one reference: engine records for its byte, else the scope.
pub fn reference_targets(
    tables: &Tables,
    file: usize,
    reference: &UnresolvedReference,
) -> (r: Vec<Target>)
    requires
        file < tables@.extractions@.len(),
    ensures
        r@ == targets_of_reference(
            tables@,
            tables@.extractions@[file as int].path@,
            *reference,
        ),
{
    let records = tables.recorded_targets(file, reference.range.byte_start);
    if records.len() > 0 {
        return dedup_targets(tables, &records);
    }
    scoped_targets(tables, file, reference.name.as_str())
}

/// Targets of one client call site; a resolved call always carries a record.
pub fn client_call_targets(tables: &Tables, file: usize, range: &SourceRange) -> (r: Vec<Target>)
    requires
        file < tables@.extractions@.len(),
    ensures
        r@ == targets_of_call(tables@, tables@.extractions@[file as int].path@, *range),
{
    let path = &tables.findings().extractions[file].path;
    let records = tables.client_calls_at(path, range);
    dedup_targets(tables, &records)
}

// ---------------------------------------------------------------------------
// Resolution

/// One answer of the cursor resolution: a symbol id, and the range of the use it
/// was reached from.
#[derive(Clone, Copy, Debug, PartialEq, Eq, Structural)]
pub struct ResolvedTarget {
    pub id: u32,
    pub origin: Option<SourceRange>,
}

/// Targets as answers from one use.
pub open spec fn reached_from(targets: Seq<Target>, origin: SourceRange) -> Seq<ResolvedTarget> {
    targets.map_values(|target: Target| ResolvedTarget { id: target.id, origin: Some(origin) })
}

/// The definition targets at a byte of a file: those of the call site there if
/// it has any, else those of the reference there, else the declaration itself.
pub open spec fn resolution_in(a: Analysis, file: FileExtraction, byte: usize) -> Seq<ResolvedTarget> {
    let call = innermost_call(file, byte);
    let call_targets = match call {
        Some(range) => targets_of_call(a, file.path@, range),
        None => Seq::empty(),
    };
    if call_targets.len() > 0 {
        reached_from(call_targets, call->0)
    } else {
        match innermost_reference(file, byte) {
            Some(i) => reached_from(
                targets_of_reference(a, file.path@, file.references@[i]),
                file.references@[i].range,
            ),
            None => match innermost_symbol(file, byte) {
                Some(symbol) => seq![ResolvedTarget { id: symbol.id, origin: None }],
                None => Seq::empty(),
            },
        }
    }
}

/// The definition targets at a byte of a document.
pub open spec fn resolution(a: Analysis, uri: Seq<char>, byte: usize) -> Seq<ResolvedTarget> {
    match uri_parts(uri) {
        Some(path) => match file_place(a, path) {
            Some(i) => resolution_in(a, a.extractions@[i], byte),
            None => Seq::empty(),
        },
        None => Seq::empty(),
    }
}

/// The extraction of a document.
pub open spec fn document_of(a: Analysis, uri: Seq<char>) -> Option<FileExtraction> {
    match uri_parts(uri) {
        Some(path) => match file_place(a, path) {
            Some(i) => Some(a.extractions@[i]),
            None => None,
        },
        None => None,
    }
}

fn answers(targets: &Vec<Target>, origin: SourceRange) -> (r: Vec<ResolvedTarget>)
    ensures
        r@ == reached_from(targets@, origin),
{
    let mut r: Vec<ResolvedTarget> = Vec::new();
    let mut i: usize = 0;
    while i < targets.len()
        invariant
            i <= targets@.len(),
            r@ == reached_from(targets@, origin).take(i as int),
        decreases targets.len() - i,
    {
        r.push(ResolvedTarget { id: targets[i].id, origin: Some(origin) });
        i += 1;
        assert(r@ =~= reached_from(targets@, origin).take(i as int));
    }
    assert(r@ =~= reached_from(targets@, origin));
    r
}

/// The place of the extraction of a document.
pub fn place_for_uri(tables: &Tables, uri: &DocUri) -> (r: Option<usize>)
    ensures
        match r {
            Some(i) => i < tables@.extractions@.len() && document_of(tables@, uri@) == Some(
                tables@.extractions@[i as int],
            ) && uri_parts(uri@) is Some && file_place(tables@, uri_parts(uri@)->0) == Some(
                i as int,
            ),
            None => document_of(tables@, uri@) is None,
        },
{
    match uri.to_path() {
        Some(path) => tables.file_index(path),
        None => None,
    }
}

/// The extraction of a document.
pub fn file_for_uri<'a>(snapshot: &'a IndexSnapshot, uri: &DocUri) -> (r: Option<&'a FileExtraction>)
    ensures
        match r {
            Some(file) => document_of(snapshot@, uri@) == Some(*file),
            None => document_of(snapshot@, uri@) is None,
        },
{
    let tables = snapshot.tables();
    match place_for_uri(tables, uri) {
        Some(i) => Some(&tables.findings().extractions[i]),
        None => None,
    }
}

/// Innermost symbol at a byte of a document.
pub fn symbol_at<'a>(snapshot: &'a IndexSnapshot, uri: &DocUri, byte: usize) -> (r: Option<
    &'a Symbol,
>)
    ensures
        match r {
            Some(symbol) => document_of(snapshot@, uri@) matches Some(file) && innermost_symbol(
                file,
                byte,
            ) == Some(*symbol),
            None => document_of(snapshot@, uri@) matches Some(file) ==> innermost_symbol(
                file,
                byte,
            ) is None,
        },
{
    match file_for_uri(snapshot, uri) {
        Some(file) => smallest_symbol_at(file, byte),
        None => None,
    }
}

/// Every definition target at `byte`: call site records, else reference records,
/// else the declaration; no score picks a winner.
pub fn resolve_targets(snapshot: &IndexSnapshot, uri: &DocUri, byte: usize) -> (r: Vec<
    ResolvedTarget,
>)
    ensures
        r@ == resolution(snapshot@, uri@, byte),
{
    let tables = snapshot.tables();
    let place: usize = match place_for_uri(tables, uri) {
        Some(place) => place,
        None => {
            return Vec::new();
        },
    };
    let file = &tables.findings().extractions[place];
    if let Some(range) = call_site_at(file, byte) {
        let ordered = client_call_targets(tables, place, &range);
        if ordered.len() > 0 {
            return answers(&ordered, range);
        }
    }
    if let Some(reference) = reference_at(file, byte) {
        let ordered = reference_targets(tables, place, reference);
        return answers(&ordered, reference.range);
    }
    let mut r: Vec<ResolvedTarget> = Vec::new();
    if let Some(symbol) = smallest_symbol_at(file, byte) {
        r.push(ResolvedTarget { id: symbol.id, origin: None });
    }
    assert(r@ =~= resolution(snapshot@, uri@, byte));
    r
}

// ---------------------------------------------------------------------------
// Laws

/// A list of targets holds an id.
pub open spec fn mentions(targets: Seq<Target>, id: u32) -> bool {
    exists|i: int| 0 <= i < targets.len() && (#[trigger] targets[i]).id == id
}

/// Merging keeps exactly the ids mentioned, each once.
pub proof fn merging_keeps_each_id_once(targets: Seq<Target>)
    ensures
        forall|id: u32| mentions(merged(targets), id) == mentions(targets, id),
        forall|i: int, j: int|
            0 <= i < j < merged(targets).len() ==> (#[trigger] merged(targets)[i]).id != (
            #[trigger] merged(targets)[j]).id,
    decreases targets.len(),
{
    if targets.len() > 0 {
        let rest = targets.drop_last();
        merging_keeps_each_id_once(rest);
        let kept = merged(rest);
        let next = targets.last();
        let now = merged(targets);
        lemma_target_place(kept, next.id);
        assert forall|id: u32| mentions(now, id) == mentions(targets, id) by {
            assert(mentions(kept, id) == mentions(rest, id));
            if mentions(now, id) {
                let i = choose|i: int| 0 <= i < now.len() && (#[trigger] now[i]).id == id;
                if i < kept.len() && kept[i].id == id {
                    assert(mentions(kept, id));
                    let k = choose|k: int| 0 <= k < rest.len() && (#[trigger] rest[k]).id == id;
                    assert(targets[k].id == id);
                } else {
                    assert(targets[targets.len() - 1].id == id);
                }
            }
            if mentions(targets, id) {
                let k = choose|k: int| 0 <= k < targets.len() && (#[trigger] targets[k]).id == id;
                if k < rest.len() {
                    assert(rest[k].id == id);
                    let i = choose|i: int| 0 <= i < kept.len() && (#[trigger] kept[i]).id == id;
                    assert(now[i].id == id);
                } else {
                    match target_place(kept, next.id) {
                        Some(i) => {
                            assert(now[i].id == id);
                        },
                        None => {
                            assert(now[kept.len() as int].id == id);
                        },
                    }
                }
            }
        }
    }
}

/// Ordered targets hold exactly the ids mentioned, each once, in the order of
/// their declaration sites.
pub proof fn ordered_targets_are_the_mentioned_ids(a: Analysis, targets: Seq<Target>)
    ensures
        forall|id: u32| mentions(ordered_targets(a, targets), id) == mentions(targets, id),
        forall|i: int, j: int|
            0 <= i < j < ordered_targets(a, targets).len() ==> {
                let (x, y) = (
                    #[trigger] ordered_targets(a, targets)[i],
                    #[trigger] ordered_targets(a, targets)[j],
                );
                x.id != y.id && !target_key_of(a, y).precedes(&target_key_of(a, x))
            },
{
    let kept = merged(targets);
    let keys = target_keys_of(a, kept);
    let order = stable_order(keys);
    let now = ordered_targets(a, targets);
    merging_keeps_each_id_once(targets);
    crate::order::stable_sort_is_a_stable_permutation(keys);
    lemma_stable_prefix(keys, keys.len() as int);
    assert forall|id: u32| mentions(now, id) == mentions(targets, id) by {
        assert(mentions(kept, id) == mentions(targets, id));
        if mentions(now, id) {
            let i = choose|i: int| 0 <= i < now.len() && (#[trigger] now[i]).id == id;
            assert(0 <= order[i] < kept.len());
            assert(kept[order[i]].id == id);
        }
        if mentions(kept, id) {
            let k = choose|k: int| 0 <= k < kept.len() && (#[trigger] kept[k]).id == id;
            assert(order.contains(k));
            let i = choose|i: int| 0 <= i < order.len() && order[i] == k;
            assert(now[i].id == id);
        }
    }
    assert forall|i: int, j: int| 0 <= i < j < now.len() implies {
        let (x, y) = (#[trigger] now[i], #[trigger] now[j]);
        x.id != y.id && !target_key_of(a, y).precedes(&target_key_of(a, x))
    } by {
        let (p, q) = (order[i], order[j]);
        assert(0 <= p < kept.len() && 0 <= q < kept.len());
        assert(p != q);
        assert(now[i] == kept[p] && now[j] == kept[q]);
        assert(kept[p].id != kept[q].id) by {
            if p < q {
                assert(merged(targets)[p].id != merged(targets)[q].id);
            } else {
                assert(merged(targets)[q].id != merged(targets)[p].id);
            }
        }
        assert(keys[p] == target_key_of(a, kept[p]) && keys[q] == target_key_of(a, kept[q]));
    }
}

/// A byte inside a declaration and no use resolves to that declaration alone.
pub proof fn a_declaration_resolves_to_itself(a: Analysis, file: FileExtraction, byte: usize)
    requires
        innermost_call(file, byte) is None,
        innermost_reference(file, byte) is None,
        innermost_symbol(file, byte) is Some,
    ensures
        resolution_in(a, file, byte) == seq![
            ResolvedTarget { id: innermost_symbol(file, byte)->0.id, origin: None },
        ],
{
}

/// A reference that nothing resolves has no target: it never falls back to the
/// declaration around it.
pub proof fn an_unresolved_reference_has_no_target(a: Analysis, file: FileExtraction, byte: usize)
    requires
        innermost_call(file, byte) is None,
        innermost_reference(file, byte) matches Some(i) && targets_of_reference(
            a,
            file.path@,
            file.references@[i],
        ).len() == 0,
    ensures
        resolution_in(a, file, byte).len() == 0,
{
}

/// No target is answered twice.
pub proof fn a_target_is_answered_once(a: Analysis, file: FileExtraction, byte: usize, i: int, j: int)
    requires
        0 <= i < j < resolution_in(a, file, byte).len(),
    ensures
        resolution_in(a, file, byte)[i].id != resolution_in(a, file, byte)[j].id,
{
    let path = file.path@;
    match innermost_call(file, byte) {
        Some(range) => {
            let targets = targets_of_call(a, path, range);
            ordered_targets_are_the_mentioned_ids(a, calls_at(a, path, range));
            if targets.len() > 0 {
                assert(i < targets.len() && j < targets.len());
                assert(targets[i].id != targets[j].id);
            }
        },
        None => {},
    }
    match innermost_reference(file, byte) {
        Some(k) => {
            let reference = file.references@[k];
            let records = recorded(a, path, reference.range.byte_start);
            let targets = targets_of_reference(a, path, reference);
            ordered_targets_are_the_mentioned_ids(a, records);
            if let Some(file_id) = node_id(a, path) {
                if let Some(scope) = scope_of(a, file_id, reference.name@) {
                    ordered_targets_are_the_mentioned_ids(a, scope);
                }
            }
            if i < targets.len() && j < targets.len() {
                assert(targets[i].id != targets[j].id);
            }
        },
        None => {},
    }
}

} // verus!
