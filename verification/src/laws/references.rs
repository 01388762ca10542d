//! Find references: every use, declarations first if they are asked for.

use vstd::prelude::*;

use super::definition::{
    a_call_resolves_to_every_record, a_reference_resolves_to_every_record, can_be_shown,
    showable_targets_are_listed,
};
use super::findings::{a_path_finds_its_extraction, has_records, is_called, is_recorded, means};
use crate::convert::uri_of_path;
use crate::handlers::goto::{
    declared_places, every_place_is_listed, occurrence_places, ordered_places, place_keys,
    places_are_ordered_and_distinct, referenced_places, showable, shows_places, used_places, Place,
};
use crate::handlers::{shows_location, Texts};
use crate::index::query::{mentions, targets_of_reference, ResolvedTarget};
use crate::index::snapshot::{
    at_one_byte, call_makes, calls_have_one_range, is_first_call, occurrences,
    occurrences_are_the_resolved_uses, reference_makes,
};
use crate::index::{file_place, symbol_with, Analysis, Occurrence};
use crate::model::{ResolvedClientCall, SourceRange};
use crate::order::{distinct_order, lemma_distinct_order_bounds};
use crate::path::path_precedes;
use crate::position::Encoding;
use crate::protocol::Location;

verus! {

// ---------------------------------------------------------------------------
// Uses

/// A reference of a file uses a target: the engine recorded it for the reference, or
/// recorded nothing and the name means it.
pub open spec fn refers(a: Analysis, file: int, m: int, id: u32) -> bool {
    &&& 0 <= file < a.extractions@.len()
    &&& 0 <= m < a.extractions@[file].references@.len()
    &&& ({
        let path = a.extractions@[file].path@;
        let reference = a.extractions@[file].references@[m];
        let start = reference.range.byte_start;
        if has_records(a, path, start) {
            is_recorded(a, path, start, id)
        } else {
            means(a, path, reference.name@, id)
        }
    })
}

/// A client call of an indexed file uses a target, over a range.
pub open spec fn calls(a: Analysis, file: int, range: SourceRange, id: u32) -> bool {
    &&& 0 <= file < a.extractions@.len()
    &&& is_called(a, a.extractions@[file].path@, range, id)
    &&& forall|k: int|
        file < k < a.extractions@.len() ==> (#[trigger] a.extractions@[k]).path@
            != a.extractions@[file].path@
}

/// Every reference that resolves to a target is an occurrence of it, wherever it
/// stands; a recursive call is one like any other.
pub proof fn every_reference_is_an_occurrence(a: Analysis, file: int, m: int, id: u32)
    requires
        refers(a, file, m, id),
    ensures
        occurrences(a, id).contains(
            Occurrence { file: file as usize, range: a.extractions@[file].references@[m].range },
        ),
{
    let reference = a.extractions@[file].references@[m];
    let site = Occurrence { file: file as usize, range: reference.range };
    a_reference_resolves_to_every_record(a, a.extractions@[file].path@, reference, id);
    occurrences_are_the_resolved_uses(a, id, site);
    assert(a.extractions@[file].references@[m] == reference);
    assert(reference_makes(
        a,
        file,
        a.extractions@[file].references@.len() as int,
        (id, site),
    ));
}

/// Every client call that the engine resolved to a target is an occurrence of it. Where
/// two calls begin at one byte of one file they have one range.
pub proof fn every_call_is_an_occurrence(a: Analysis, file: int, range: SourceRange, id: u32)
    requires
        calls(a, file, range, id),
        calls_have_one_range(a),
    ensures
        occurrences(a, id).contains(Occurrence { file: file as usize, range }),
{
    let path = a.extractions@[file].path@;
    let site = Occurrence { file: file as usize, range };
    let i = choose|i: int|
        0 <= i < a.client_calls@.len() && (#[trigger] a.client_calls@[i]).source_file@ == path
            && a.client_calls@[i].source_range == Some(range) && a.client_calls@[i].target.id == id;
    let first = lemma_first(a.client_calls@, i);
    assert(a.client_calls@[first].source_range == a.client_calls@[i].source_range);
    a_path_finds_its_extraction(a, path);
    if let Some(place) = file_place(a, path) {
        if place < file {
            assert(a.extractions@[file].path@ != path);
        } else if file < place {
            assert(a.extractions@[place].path@ != a.extractions@[file].path@);
        }
    }
    a_call_resolves_to_every_record(a, path, range, id);
    occurrences_are_the_resolved_uses(a, id, site);
    assert(call_makes(a, first, (id, site)));
}

proof fn lemma_first(calls: Seq<ResolvedClientCall>, i: int) -> (r: int)
    requires
        0 <= i < calls.len(),
        calls[i].source_range is Some,
    ensures
        0 <= r <= i,
        at_one_byte(calls[r], calls[i]),
        is_first_call(calls, r),
    decreases i,
{
    if is_first_call(calls, i) {
        i
    } else {
        let m = choose|m: int| 0 <= m < i && at_one_byte(#[trigger] calls[m], calls[i]);
        lemma_first(calls, m)
    }
}

/// Every occurrence of a target is a reference or a client call that uses it.
pub proof fn every_occurrence_is_a_use(a: Analysis, id: u32, site: Occurrence)
    requires
        occurrences(a, id).contains(site),
    ensures
        ({
            ||| exists|m: int|
                #[trigger] refers(a, site.file as int, m, id) && site.range
                    == a.extractions@[site.file as int].references@[m].range
            ||| calls(a, site.file as int, site.range, id)
        }),
{
    assert(a.extractions@.len() == a.extractions.len());
    occurrences_are_the_resolved_uses(a, id, site);
    if exists|file: int|
        0 <= file < a.extractions@.len() && #[trigger] reference_makes(
            a,
            file,
            a.extractions@[file].references@.len() as int,
            (id, site),
        ) {
        let file = choose|file: int|
            0 <= file < a.extractions@.len() && #[trigger] reference_makes(
                a,
                file,
                a.extractions@[file].references@.len() as int,
                (id, site),
            );
        let m = choose|m: int|
            0 <= m < a.extractions@[file].references@.len() && {
                let reference = #[trigger] a.extractions@[file].references@[m];
                &&& site == Occurrence { file: file as usize, range: reference.range }
                &&& mentions(targets_of_reference(a, a.extractions@[file].path@, reference), id)
            };
        let reference = a.extractions@[file].references@[m];
        a_reference_resolves_to_every_record(a, a.extractions@[file].path@, reference, id);
        assert(refers(a, site.file as int, m, id));
    } else {
        let i = choose|i: int|
            0 <= i < a.client_calls@.len() && #[trigger] call_makes(a, i, (id, site));
        let path = a.client_calls@[i].source_file@;
        a_path_finds_its_extraction(a, path);
        a_call_resolves_to_every_record(a, path, site.range, id);
        let place = file_place(a, path)->0;
        assert(a.extractions@[place].path@ == path);
        assert(site.file == place as usize);
    }
}

// ---------------------------------------------------------------------------
// The answer

/// A place is the declaration of a target that can be shown.
pub open spec fn is_declaration(a: Analysis, targets: Seq<ResolvedTarget>, place: Place) -> bool {
    exists|k: int|
        0 <= k < targets.len() && can_be_shown(a, #[trigger] targets[k]) && place == (
            symbol_with(a, targets[k].id)->0.file_path,
            symbol_with(a, targets[k].id)->0.source_range,
        )
}

/// A place is an occurrence of a target, in a file whose path has an address.
pub open spec fn is_use(a: Analysis, targets: Seq<ResolvedTarget>, place: Place) -> bool {
    exists|k: int, site: Occurrence|
        0 <= k < targets.len() && #[trigger] occurrences(a, targets[k].id).contains(site)
            && is_at(a, site, place)
}

/// An occurrence stands at a place that has an address.
pub open spec fn is_at(a: Analysis, site: Occurrence, place: Place) -> bool {
    &&& site.file < a.extractions@.len()
    &&& place == (a.extractions@[site.file as int].path, site.range)
    &&& uri_of_path(a.extractions@[site.file as int].path.spelling()) is Some
}

/// One place comes before another: by path, then by byte.
pub open spec fn comes_before(x: Place, y: Place) -> bool {
    path_precedes(x.0@, y.0@) || x.0@ == y.0@ && x.1.byte_start < y.1.byte_start
}

/// Two places have one path and one first byte.
pub open spec fn coincide(x: Place, y: Place) -> bool {
    x.0@ == y.0@ && x.1.byte_start == y.1.byte_start
}

/// A place from some on has the path and the first byte of another.
pub open spec fn is_found(found: Seq<Place>, from: int, to: int, place: Place) -> bool {
    exists|m: int| from <= m < to && coincide(#[trigger] found[m], place)
}

proof fn lemma_occurrence_places(a: Analysis, found: Seq<Occurrence>, place: Place)
    ensures
        occurrence_places(a, found).contains(place) <==> exists|i: int|
            0 <= i < found.len() && is_at(a, #[trigger] found[i], place),
    decreases found.len(),
{
    let all = occurrence_places(a, found);
    if found.len() > 0 {
        let rest = found.drop_last();
        let before = occurrence_places(a, rest);
        lemma_occurrence_places(a, rest, place);
        if all.contains(place) {
            let k = choose|k: int| 0 <= k < all.len() && all[k] == place;
            if k < before.len() {
                assert(before[k] == place);
                let i = choose|i: int| 0 <= i < rest.len() && is_at(a, #[trigger] rest[i], place);
                assert(is_at(a, found[i], place));
            } else {
                assert(is_at(a, found[found.len() - 1], place));
            }
        }
        if exists|i: int| 0 <= i < found.len() && is_at(a, #[trigger] found[i], place) {
            let i = choose|i: int| 0 <= i < found.len() && is_at(a, #[trigger] found[i], place);
            if i < rest.len() {
                assert(is_at(a, rest[i], place));
                let k = choose|k: int| 0 <= k < before.len() && before[k] == place;
                assert(all[k] == place);
            } else {
                assert(all[before.len() as int] == place);
            }
        }
    }
}

proof fn lemma_used_places(a: Analysis, targets: Seq<ResolvedTarget>, place: Place)
    ensures
        used_places(a, targets).contains(place) <==> is_use(a, targets, place),
    decreases targets.len(),
{
    let all = used_places(a, targets);
    if targets.len() > 0 {
        let rest = targets.drop_last();
        let before = used_places(a, rest);
        let sites = occurrences(a, targets.last().id);
        let here = occurrence_places(a, sites);
        lemma_used_places(a, rest, place);
        lemma_occurrence_places(a, sites, place);
        if all.contains(place) {
            let k = choose|k: int| 0 <= k < all.len() && all[k] == place;
            if k < before.len() {
                assert(before[k] == place);
                let (t, site) = choose|t: int, site: Occurrence|
                    0 <= t < rest.len() && #[trigger] occurrences(a, rest[t].id).contains(site) && is_at(
                        a,
                        site,
                        place,
                    );
                assert(occurrences(a, targets[t].id).contains(site));
            } else {
                assert(here[k - before.len()] == place);
                let i = choose|i: int| 0 <= i < sites.len() && is_at(a, #[trigger] sites[i], place);
                assert(occurrences(a, targets[targets.len() - 1].id).contains(sites[i]));
            }
        }
        if is_use(a, targets, place) {
            let (t, site) = choose|t: int, site: Occurrence|
                0 <= t < targets.len() && #[trigger] occurrences(a, targets[t].id).contains(site)
                    && is_at(a, site, place);
            if t < rest.len() {
                assert(occurrences(a, rest[t].id).contains(site));
                let k = choose|k: int| 0 <= k < before.len() && before[k] == place;
                assert(all[k] == place);
            } else {
                let i = choose|i: int| 0 <= i < sites.len() && sites[i] == site;
                assert(is_at(a, sites[i], place));
                let k = choose|k: int| 0 <= k < here.len() && here[k] == place;
                assert(all[before.len() + k] == place);
            }
        }
    }
}

proof fn lemma_declared_places(a: Analysis, targets: Seq<ResolvedTarget>, place: Place)
    ensures
        declared_places(a, targets).contains(place) <==> is_declaration(a, targets, place),
{
    let from = showable_targets_are_listed(a, targets);
    let shown = showable(a, targets);
    let all = declared_places(a, targets);
    if all.contains(place) {
        let m = choose|m: int| 0 <= m < all.len() && all[m] == place;
        assert(shown[m] == (
            symbol_with(a, targets[from[m]].id)->0,
            targets[from[m]].origin,
        ));
        assert(from.contains(from[m]));
        assert(can_be_shown(a, targets[from[m]]));
    }
    if is_declaration(a, targets, place) {
        let k = choose|k: int|
            0 <= k < targets.len() && can_be_shown(a, #[trigger] targets[k]) && place == (
                symbol_with(a, targets[k].id)->0.file_path,
                symbol_with(a, targets[k].id)->0.source_range,
            );
        assert(from.contains(k));
        let m = choose|m: int| 0 <= m < from.len() && from[m] == k;
        assert(shown[m] == (symbol_with(a, targets[k].id)->0, targets[k].origin));
        assert(all[m] == place);
    }
}

proof fn lemma_ordered(found: Seq<Place>)
    ensures
        forall|m: int| 0 <= m < ordered_places(found).len() ==> found.contains(
            #[trigger] ordered_places(found)[m],
        ),
        forall|m: int, k: int|
            0 <= m < k < ordered_places(found).len() ==> comes_before(
                #[trigger] ordered_places(found)[m],
                #[trigger] ordered_places(found)[k],
            ),
        forall|place: Place| #[trigger]
            found.contains(place) ==> is_found(
                ordered_places(found),
                0,
                ordered_places(found).len() as int,
                place,
            ),
{
    let keys = place_keys(found);
    let all = ordered_places(found);
    lemma_distinct_order_bounds(keys);
    assert forall|m: int| 0 <= m < all.len() implies found.contains(#[trigger] all[m]) by {
        assert(0 <= distinct_order(keys)[m] < keys.len());
        assert(all[m] == found[distinct_order(keys)[m]]);
    }
    assert forall|m: int, k: int| 0 <= m < k < all.len() implies comes_before(
        #[trigger] all[m],
        #[trigger] all[k],
    ) by {
        places_are_ordered_and_distinct(found, m, k);
        crate::path::lemma_path_level(all[m].0@, all[k].0@);
    }
    assert forall|place: Place| #[trigger] found.contains(place) implies is_found(
        all,
        0,
        all.len() as int,
        place,
    ) by {
        let p = choose|p: int| 0 <= p < found.len() && found[p] == place;
        every_place_is_listed(found, p);
        let j = choose|j: int|
            0 <= j < all.len() && (#[trigger] all[j]).0@ == found[p].0@ && all[j].1.byte_start
                == found[p].1.byte_start;
        assert(coincide(all[j], place));
    }
}

/// A references answer lists, up to two thousand, first the declarations of the targets
/// if they were asked for, then every occurrence of every target in a file that has an
/// address; each part by path and byte, each place once, and nothing else.
pub proof fn references_list_every_use(
    locations: Seq<Location>,
    a: Analysis,
    texts: Texts,
    targets: Seq<ResolvedTarget>,
    include_declaration: bool,
    encoding: Encoding,
) -> (r: (Seq<Place>, int))
    requires
        shows_places(locations, texts, referenced_places(a, targets, include_declaration), encoding),
    ensures
        ({
            let (found, d) = r;
            &&& 0 <= d <= found.len()
            &&& !include_declaration ==> d == 0
            &&& locations.len() == (if found.len() <= 2000 {
                found.len() as int
            } else {
                2000
            })
            &&& forall|m: int|
                0 <= m < locations.len() ==> shows_location(
                    #[trigger] locations[m],
                    texts,
                    found[m].0,
                    found[m].1,
                    encoding,
                )
            &&& forall|m: int| 0 <= m < d ==> is_declaration(a, targets, #[trigger] found[m])
            &&& forall|m: int| d <= m < found.len() ==> is_use(a, targets, #[trigger] found[m])
            &&& forall|m: int, k: int|
                0 <= m < k < d || d <= m < k < found.len() ==> comes_before(
                    #[trigger] found[m],
                    #[trigger] found[k],
                )
            &&& include_declaration ==> forall|place: Place| #[trigger]
                is_declaration(a, targets, place) ==> is_found(found, 0, d, place)
            &&& forall|place: Place| #[trigger]
                is_use(a, targets, place) ==> is_found(found, d, found.len() as int, place)
        }),
{
    let declared = if include_declaration {
        declared_places(a, targets)
    } else {
        Seq::empty()
    };
    let used = used_places(a, targets);
    let first = ordered_places(declared);
    let second = ordered_places(used);
    let found = first + second;
    let d = first.len() as int;
    lemma_ordered(declared);
    lemma_ordered(used);
    if !include_declaration {
        lemma_distinct_order_bounds(place_keys(declared));
        if first.len() > 0 {
            assert(declared.contains(first[0]));
        }
    }
    assert forall|m: int| 0 <= m < d implies is_declaration(a, targets, #[trigger] found[m]) by {
        assert(declared.contains(first[m]));
        lemma_declared_places(a, targets, first[m]);
    }
    assert forall|m: int| d <= m < found.len() implies is_use(a, targets, #[trigger] found[m]) by {
        assert(used.contains(second[m - d]));
        lemma_used_places(a, targets, second[m - d]);
    }
    assert forall|m: int, k: int| 0 <= m < k < d || d <= m < k < found.len() implies comes_before(
        #[trigger] found[m],
        #[trigger] found[k],
    ) by {
        if k < d {
            assert(found[m] == first[m] && found[k] == first[k]);
        } else {
            assert(found[m] == second[m - d] && found[k] == second[k - d]);
        }
    }
    if include_declaration {
        assert forall|place: Place| #[trigger] is_declaration(a, targets, place) implies is_found(
            found,
            0,
            d,
            place,
        ) by {
            lemma_declared_places(a, targets, place);
            assert(declared.contains(place));
            let m = choose|m: int| 0 <= m < first.len() && coincide(#[trigger] first[m], place);
            assert(found[m] == first[m]);
        }
    }
    assert forall|place: Place| #[trigger] is_use(a, targets, place) implies is_found(
        found,
        d,
        found.len() as int,
        place,
    ) by {
        lemma_used_places(a, targets, place);
        assert(used.contains(place));
        let m = choose|m: int| 0 <= m < second.len() && coincide(#[trigger] second[m], place);
        assert(found[d + m] == second[m]);
    }
    (found, d)
}

} // verus!
