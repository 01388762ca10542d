//! Go to definition: every target that the engine resolved.

use vstd::prelude::*;

use super::findings::{
    a_name_means_what_its_scope_lists, calls_are_read_in_full, has_records, is_called, is_recorded,
    means, records_are_read_in_full,
};
use crate::convert::uri_of_path;
use crate::handlers::goto::{answers_definition, showable};
use crate::handlers::{range_by, Texts};
use crate::index::query::{
    innermost_call, innermost_reference, innermost_symbol, mentions, merged,
    ordered_targets_are_the_mentioned_ids, resolution_in, resolve_targets, target_key_of, targets_of_call,
    targets_of_reference, ResolvedTarget,
};
use crate::index::{
    calls_at, lemma_target_place, node_id, recorded, scope_of, symbol_with, target_place, Analysis,
};
use crate::index::snapshot::IndexSnapshot;
use crate::lookup::{lemma_places_where, places_where};
use crate::model::{FileExtraction, SourceRange, Target, UnresolvedReference};
use crate::order::SortKey;
use crate::path::{path_precedes, Part};
use crate::position::Encoding;
use crate::protocol::Definition;
use crate::types::{uri_parts, DocUri};

verus! {

/// A reference resolves to exactly the targets that the engine recorded for its file
/// and byte, all of them; where it recorded none, to exactly those that its name means
/// in the file.
pub proof fn a_reference_resolves_to_every_record(
    a: Analysis,
    path: Seq<Part>,
    reference: UnresolvedReference,
    id: u32,
)
    ensures
        has_records(a, path, reference.range.byte_start) ==> (mentions(
            targets_of_reference(a, path, reference),
            id,
        ) <==> is_recorded(a, path, reference.range.byte_start, id)),
        !has_records(a, path, reference.range.byte_start) ==> (mentions(
            targets_of_reference(a, path, reference),
            id,
        ) <==> means(a, path, reference.name@, id)),
{
    let byte = reference.range.byte_start;
    records_are_read_in_full(a, path, byte, id);
    ordered_targets_are_the_mentioned_ids(a, recorded(a, path, byte));
    a_name_means_what_its_scope_lists(a, path, reference.name@, id);
    if let Some(file_id) = node_id(a, path) {
        if let Some(targets) = scope_of(a, file_id, reference.name@) {
            ordered_targets_are_the_mentioned_ids(a, targets);
        }
    }
}

/// A client call resolves to exactly the targets that the engine resolved it to, all
/// of them.
pub proof fn a_call_resolves_to_every_record(a: Analysis, path: Seq<Part>, range: SourceRange, id: u32)
    ensures
        mentions(targets_of_call(a, path, range), id) <==> is_called(a, path, range, id),
{
    calls_are_read_in_full(a, path, range, id);
    ordered_targets_are_the_mentioned_ids(a, calls_at(a, path, range));
}

/// One declaration does not stand behind another: by path, then by byte, then by id. A
/// target without a symbol stands in front of those with one.
pub open spec fn not_behind(a: Analysis, x: u32, y: u32) -> bool {
    match (symbol_with(a, x), symbol_with(a, y)) {
        (Some(sx), Some(sy)) => {
            &&& !path_precedes(sy.file_path@, sx.file_path@)
            &&& sx.file_path@ == sy.file_path@ ==> sx.source_range.byte_start
                <= sy.source_range.byte_start && (sx.source_range.byte_start
                == sy.source_range.byte_start ==> x <= y)
        },
        (Some(_), None) => false,
        _ => true,
    }
}

proof fn lemma_not_behind(a: Analysis, x: Target, y: Target)
    requires
        !target_key_of(a, y).precedes(&target_key_of(a, x)),
    ensures
        not_behind(a, x.id, y.id),
{
    if let (Some(sx), Some(sy)) = (symbol_with(a, x.id), symbol_with(a, y.id)) {
        crate::path::lemma_path_level(sx.file_path@, sy.file_path@);
        crate::path::lemma_path_asymmetric(sx.file_path@, sy.file_path@);
    }
}

/// The targets of a use come each once, in the order of their declarations: no score
/// picks a winner or changes the order.
pub proof fn targets_come_by_declaration(
    a: Analysis,
    path: Seq<Part>,
    reference: UnresolvedReference,
    range: SourceRange,
)
    ensures
        forall|i: int, j: int|
            0 <= i < j < targets_of_reference(a, path, reference).len() ==> {
                let (x, y) = (
                    #[trigger] targets_of_reference(a, path, reference)[i],
                    #[trigger] targets_of_reference(a, path, reference)[j],
                );
                x.id != y.id && not_behind(a, x.id, y.id)
            },
        forall|i: int, j: int|
            0 <= i < j < targets_of_call(a, path, range).len() ==> {
                let (x, y) = (
                    #[trigger] targets_of_call(a, path, range)[i],
                    #[trigger] targets_of_call(a, path, range)[j],
                );
                x.id != y.id && not_behind(a, x.id, y.id)
            },
{
    let byte = reference.range.byte_start;
    ordered_targets_are_the_mentioned_ids(a, recorded(a, path, byte));
    ordered_targets_are_the_mentioned_ids(a, calls_at(a, path, range));
    if let Some(file_id) = node_id(a, path) {
        if let Some(targets) = scope_of(a, file_id, reference.name@) {
            ordered_targets_are_the_mentioned_ids(a, targets);
        }
    }
    let all = targets_of_reference(a, path, reference);
    assert forall|i: int, j: int| 0 <= i < j < all.len() implies {
        let (x, y) = (#[trigger] all[i], #[trigger] all[j]);
        x.id != y.id && not_behind(a, x.id, y.id)
    } by {
        lemma_not_behind(a, all[i], all[j]);
    }
    let called = targets_of_call(a, path, range);
    assert forall|i: int, j: int| 0 <= i < j < called.len() implies {
        let (x, y) = (#[trigger] called[i], #[trigger] called[j]);
        x.id != y.id && not_behind(a, x.id, y.id)
    } by {
        lemma_not_behind(a, called[i], called[j]);
    }
}

/// A merged target has the highest confidence that any of its mentions has.
pub proof fn merging_keeps_the_highest_confidence(targets: Seq<Target>, m: int)
    requires
        0 <= m < merged(targets).len(),
    ensures
        targets.contains(merged(targets)[m]),
        forall|k: int|
            0 <= k < targets.len() && (#[trigger] targets[k]).id == merged(targets)[m].id
                ==> targets[k].confidence.rank <= merged(targets)[m].confidence.rank,
    decreases targets.len(),
{
    let rest = targets.drop_last();
    let kept = merged(rest);
    let now = merged(targets);
    let next = targets.last();
    lemma_target_place(kept, next.id);
    crate::index::query::merging_keeps_each_id_once(rest);
    if m < kept.len() {
        merging_keeps_the_highest_confidence(rest, m);
        let k = choose|k: int| 0 <= k < rest.len() && rest[k] == kept[m];
        assert(targets[k] == kept[m]);
    }
    match target_place(kept, next.id) {
        Some(i) => {
            if i == m {
                assert(targets[targets.len() - 1] == next);
                if next.confidence.rank > kept[i].confidence.rank {
                    assert(now[m] == next);
                } else {
                    assert(now[m] == kept[m]);
                }
            } else {
                if m < i {
                    assert(kept[m].id != kept[i].id);
                } else {
                    assert(kept[i].id != kept[m].id);
                }
            }
        },
        None => {
            if m == kept.len() {
                assert(targets[targets.len() - 1] == next);
                assert forall|k: int| 0 <= k < targets.len() && (#[trigger] targets[k]).id
                    == next.id implies targets[k].confidence.rank <= next.confidence.rank by {
                    if k < rest.len() {
                        assert(rest[k].id == next.id);
                        assert(mentions(rest, next.id));
                        assert(mentions(kept, next.id));
                    }
                }
            } else {
                assert(kept[m].id != next.id);
            }
        },
    }
    assert forall|k: int| 0 <= k < targets.len() && (#[trigger] targets[k]).id == now[m].id implies targets[k].confidence.rank
        <= now[m].confidence.rank by {
        if k < rest.len() {
            assert(rest[k] == targets[k]);
        }
    }
}

/// An answer of the cursor resolution is given.
pub open spec fn answers(given: Seq<ResolvedTarget>, id: u32, origin: Option<SourceRange>) -> bool {
    given.contains(ResolvedTarget { id, origin })
}

/// A cursor resolves to exactly the targets of the client call there, if the engine
/// resolved the call; else to exactly those of the reference there; else to the
/// declaration around it. Each answer carries the range it was reached from.
pub proof fn a_cursor_resolves_to_every_target(
    a: Analysis,
    file: FileExtraction,
    byte: usize,
    id: u32,
    origin: Option<SourceRange>,
)
    ensures
        match (innermost_call(file, byte), innermost_reference(file, byte)) {
            (Some(range), _) if exists|other: u32| is_called(a, file.path@, range, other) => answers(
                resolution_in(a, file, byte),
                id,
                origin,
            ) <==> origin == Some(range) && is_called(a, file.path@, range, id),
            (_, Some(i)) => {
                let reference = file.references@[i];
                let start = reference.range.byte_start;
                answers(resolution_in(a, file, byte), id, origin) <==> origin == Some(reference.range)
                    && (if has_records(a, file.path@, start) {
                    is_recorded(a, file.path@, start, id)
                } else {
                    means(a, file.path@, reference.name@, id)
                })
            },
            (_, None) => answers(resolution_in(a, file, byte), id, origin) <==> origin is None && (
            innermost_symbol(file, byte) matches Some(symbol) && symbol.id == id),
        },
{
    let path = file.path@;
    let given = resolution_in(a, file, byte);
    let answer = ResolvedTarget { id, origin };
    let called = match innermost_call(file, byte) {
        Some(range) => targets_of_call(a, path, range),
        None => Seq::empty(),
    };
    if let Some(range) = innermost_call(file, byte) {
        a_call_resolves_to_every_record(a, path, range, id);
        calls_are_read_in_full(a, path, range, id);
        ordered_targets_are_the_mentioned_ids(a, calls_at(a, path, range));
        let all = calls_at(a, path, range);
        if all.len() > 0 {
            assert(mentions(all, all[0].id));
            assert(mentions(called, all[0].id));
        }
        if called.len() > 0 {
            assert(mentions(called, called[0].id));
            assert(mentions(all, called[0].id));
        }
        assert((exists|other: u32| is_called(a, path, range, other)) <==> called.len() > 0);
        if called.len() > 0 {
            lemma_reached(called, range, answer);
        }
    }
    if called.len() == 0 {
        match innermost_reference(file, byte) {
            Some(i) => {
                let reference = file.references@[i];
                a_reference_resolves_to_every_record(a, path, reference, id);
                lemma_reached(targets_of_reference(a, path, reference), reference.range, answer);
            },
            None => {
                if let Some(symbol) = innermost_symbol(file, byte) {
                    let own = ResolvedTarget { id: symbol.id, origin: None };
                    assert(given =~= seq![own]);
                    assert(given[0] == own);
                }
            },
        }
    }
}

proof fn lemma_reached(targets: Seq<Target>, range: SourceRange, answer: ResolvedTarget)
    ensures
        crate::index::query::reached_from(targets, range).contains(answer) <==> answer.origin
            == Some(range) && mentions(targets, answer.id),
{
    let given = crate::index::query::reached_from(targets, range);
    if given.contains(answer) {
        let k = choose|k: int| 0 <= k < given.len() && given[k] == answer;
        assert(targets[k].id == answer.id);
    }
    if answer.origin == Some(range) && mentions(targets, answer.id) {
        let k = choose|k: int| 0 <= k < targets.len() && (#[trigger] targets[k]).id == answer.id;
        assert(given[k] == answer);
    }
}

/// The targets of a cursor come each once, in the order of their declarations.
pub proof fn answers_come_by_declaration(a: Analysis, file: FileExtraction, byte: usize, i: int, j: int)
    requires
        0 <= i < j < resolution_in(a, file, byte).len(),
    ensures
        resolution_in(a, file, byte)[i].id != resolution_in(a, file, byte)[j].id,
        not_behind(a, resolution_in(a, file, byte)[i].id, resolution_in(a, file, byte)[j].id),
        resolution_in(a, file, byte)[i].origin == resolution_in(a, file, byte)[j].origin,
{
    let path = file.path@;
    let given = resolution_in(a, file, byte);
    let called = match innermost_call(file, byte) {
        Some(range) => targets_of_call(a, path, range),
        None => Seq::empty(),
    };
    if called.len() > 0 {
        let range = innermost_call(file, byte)->0;
        targets_come_by_declaration(a, path, arbitrary(), range);
        assert(given[i].id == called[i].id && given[j].id == called[j].id);
    } else {
        match innermost_reference(file, byte) {
            Some(m) => {
                let reference = file.references@[m];
                targets_come_by_declaration(a, path, reference, reference.range);
                let all = targets_of_reference(a, path, reference);
                assert(given[i].id == all[i].id && given[j].id == all[j].id);
            },
            None => {},
        }
    }
}

/// The targets of a document's byte are those of the last extraction of its path; a
/// document without a path, or without an extraction, has none.
pub proof fn a_document_is_resolved_by_its_extraction(
    snapshot: IndexSnapshot,
    uri: DocUri,
    byte: usize,
    r: Vec<ResolvedTarget>,
    f: int,
)
    requires
        call_ensures(resolve_targets, (&snapshot, &uri, byte), r),
    ensures
        uri_parts(uri@) is None ==> r@.len() == 0,
        uri_parts(uri@) matches Some(path) ==> {
            let files = snapshot@.extractions@;
            &&& (forall|k: int| 0 <= k < files.len() ==> (#[trigger] files[k]).path@ != path) ==> r@.len()
                == 0
            &&& 0 <= f < files.len() && files[f].path@ == path && (forall|k: int|
                f < k < files.len() ==> (#[trigger] files[k]).path@ != path) ==> r@ == resolution_in(
                snapshot@,
                files[f],
                byte,
            )
        },
{
    if let Some(path) = uri_parts(uri@) {
        let files = snapshot@.extractions@;
        super::findings::a_path_finds_its_extraction(snapshot@, path);
        if 0 <= f < files.len() && files[f].path@ == path && (forall|k: int|
            f < k < files.len() ==> (#[trigger] files[k]).path@ != path) {
            let place = crate::index::file_place(snapshot@, path)->0;
            if place < f {
                assert(files[f].path@ != path);
            } else if f < place {
                assert(files[place].path@ != path);
            }
        }
    }
}

/// A target can be shown: it has a symbol, and the path of that an address.
pub open spec fn can_be_shown(a: Analysis, target: ResolvedTarget) -> bool {
    symbol_with(a, target.id) matches Some(symbol) && uri_of_path(symbol.file_path.spelling()) is Some
}

/// Places of a list, in ascending order, at which exactly the targets stand that can be
/// shown.
pub open spec fn are_the_shown(a: Analysis, targets: Seq<ResolvedTarget>, from: Seq<int>) -> bool {
    &&& forall|m: int| 0 <= m < from.len() ==> 0 <= #[trigger] from[m] < targets.len()
    &&& forall|m: int, k: int| 0 <= m < k < from.len() ==> #[trigger] from[m] < #[trigger] from[k]
    &&& forall|k: int|
        0 <= k < targets.len() ==> (can_be_shown(a, #[trigger] targets[k]) <==> from.contains(k))
}

spec fn shown_at(a: Analysis, targets: Seq<ResolvedTarget>) -> spec_fn(int) -> bool {
    |k: int| can_be_shown(a, targets[k])
}

proof fn lemma_showable(a: Analysis, targets: Seq<ResolvedTarget>, n: int)
    requires
        0 <= n <= targets.len(),
    ensures
        ({
            let from = places_where(n, shown_at(a, targets));
            let shown = showable(a, targets.take(n));
            &&& shown.len() == from.len()
            &&& forall|m: int|
                0 <= m < from.len() ==> {
                    let target = targets[from[m]];
                    #[trigger] shown[m] == (symbol_with(a, target.id)->0, target.origin)
                }
        }),
    decreases n,
{
    if n > 0 {
        lemma_showable(a, targets, n - 1);
        lemma_places_where(n - 1, shown_at(a, targets));
        assert(targets.take(n).drop_last() =~= targets.take(n - 1));
        assert(targets.take(n).last() == targets[n - 1]);
        let from = places_where(n, shown_at(a, targets));
        let before = places_where(n - 1, shown_at(a, targets));
        let shown = showable(a, targets.take(n));
        let less = showable(a, targets.take(n - 1));
        assert(shown_at(a, targets)(n - 1) == can_be_shown(a, targets[n - 1]));
        assert forall|m: int| 0 <= m < from.len() implies {
            let target = targets[from[m]];
            #[trigger] shown[m] == (symbol_with(a, target.id)->0, target.origin)
        } by {
            if m < before.len() {
                assert(from[m] == before[m]);
                assert(shown[m] == less[m]);
            }
        }
    } else {
        assert(targets.take(0) =~= Seq::empty());
    }
}

/// The definitions of a list of targets are those of all targets that can be shown, in
/// their order.
pub proof fn showable_targets_are_listed(a: Analysis, targets: Seq<ResolvedTarget>) -> (from: Seq<int>)
    ensures
        are_the_shown(a, targets, from),
        showable(a, targets).len() == from.len(),
        forall|m: int|
            0 <= m < from.len() ==> {
                let target = targets[from[m]];
                #[trigger] showable(a, targets)[m] == (symbol_with(a, target.id)->0, target.origin)
            },
{
    let n = targets.len() as int;
    let p = shown_at(a, targets);
    let from = places_where(n, p);
    lemma_showable(a, targets, n);
    lemma_places_where(n, p);
    assert(targets.take(n) =~= targets);
    assert forall|k: int| 0 <= k < targets.len() implies (can_be_shown(a, #[trigger] targets[k])
        <==> from.contains(k)) by {
        assert(p(k) == can_be_shown(a, targets[k]));
        if from.contains(k) {
            let m = choose|m: int| 0 <= m < from.len() && from[m] == k;
            assert(p(from[m]));
        }
    }
    from
}

/// A definition answer lists exactly the targets of the cursor that can be shown, every
/// one, in their order: each at the address of its symbol's file, over the range of the
/// symbol. A client that takes links gets the range of the name and the range the cursor
/// stood in, too. No answer is given only where nothing can be shown.
pub proof fn a_definition_lists_every_target(
    r: Option<Definition>,
    a: Analysis,
    texts: Texts,
    file: FileExtraction,
    byte: usize,
    link_support: bool,
    encoding: Encoding,
) -> (from: Seq<int>)
    requires
        answers_definition(r, a, texts, file, byte, link_support, encoding),
    ensures
        are_the_shown(a, resolution_in(a, file, byte), from),
        r is None <==> from.len() == 0,
        match r {
            None => true,
            Some(Definition::Array(locations)) => {
                &&& !link_support
                &&& locations@.len() == from.len()
                &&& forall|m: int|
                    0 <= m < from.len() ==> {
                        let symbol = symbol_with(a, resolution_in(a, file, byte)[from[m]].id)->0;
                        &&& uri_of_path(symbol.file_path.spelling()) == Some(
                            (#[trigger] locations@[m]).uri@,
                        )
                        &&& texts.contains_key(symbol.file_path@)
                        &&& locations@[m].range == range_by(
                            texts,
                            symbol.file_path@,
                            symbol.source_range,
                            encoding,
                        )
                    }
            },
            Some(Definition::Link(links)) => {
                &&& link_support
                &&& links@.len() == from.len()
                &&& forall|m: int|
                    0 <= m < from.len() ==> {
                        let target = resolution_in(a, file, byte)[from[m]];
                        let symbol = symbol_with(a, target.id)->0;
                        let link = #[trigger] links@[m];
                        &&& uri_of_path(symbol.file_path.spelling()) == Some(link.target_uri@)
                        &&& texts.contains_key(symbol.file_path@)
                        &&& link.target_range == range_by(
                            texts,
                            symbol.file_path@,
                            symbol.source_range,
                            encoding,
                        )
                        &&& link.target_selection_range == range_by(
                            texts,
                            symbol.file_path@,
                            (match symbol.name_range {
                                Some(name) => name,
                                None => symbol.source_range,
                            }),
                            encoding,
                        )
                        &&& match target.origin {
                            Some(range) => link.origin_selection_range == Some(
                                range_by(texts, file.path@, range, encoding),
                            ),
                            None => link.origin_selection_range is None,
                        }
                    }
            },
        },
{
    let targets = resolution_in(a, file, byte);
    let from = showable_targets_are_listed(a, targets);
    let shown = showable(a, targets);
    match r {
        Some(Definition::Array(locations)) => {
            assert forall|m: int| 0 <= m < from.len() implies {
                let symbol = symbol_with(a, targets[from[m]].id)->0;
                &&& uri_of_path(symbol.file_path.spelling()) == Some((#[trigger] locations@[m]).uri@)
                &&& texts.contains_key(symbol.file_path@)
                &&& locations@[m].range == range_by(
                    texts,
                    symbol.file_path@,
                    symbol.source_range,
                    encoding,
                )
            } by {
                assert(shown[m].0 == symbol_with(a, targets[from[m]].id)->0);
            }
        },
        Some(Definition::Link(links)) => {
            assert forall|m: int| 0 <= m < from.len() implies {
                let target = targets[from[m]];
                let symbol = symbol_with(a, target.id)->0;
                let link = #[trigger] links@[m];
                &&& uri_of_path(symbol.file_path.spelling()) == Some(link.target_uri@)
                &&& texts.contains_key(symbol.file_path@)
                &&& link.target_range == range_by(
                    texts,
                    symbol.file_path@,
                    symbol.source_range,
                    encoding,
                )
                &&& link.target_selection_range == range_by(
                    texts,
                    symbol.file_path@,
                    (match symbol.name_range {
                        Some(name) => name,
                        None => symbol.source_range,
                    }),
                    encoding,
                )
                &&& match target.origin {
                    Some(range) => link.origin_selection_range == Some(
                        range_by(texts, file.path@, range, encoding),
                    ),
                    None => link.origin_selection_range is None,
                }
            } by {
                let target = targets[from[m]];
                assert(shown[m] == (symbol_with(a, target.id)->0, target.origin));
                assert(crate::handlers::goto::shows_link(
                    links@[m],
                    texts,
                    file.path@,
                    shown[m],
                    encoding,
                ));
            }
        },
        None => {},
    }
    from
}

} // verus!
