//! definition plus references.

use vstd::prelude::*;
use vstd::string::*;

use super::symbol::capped;
use super::{
    cursor, cursor_of, grows, has_looked, lemma_location_stays, range_by, selection_of,
    shows_location, QueryCtx, Texts,
};
use crate::convert::{path_to_uri, uri_of_path};
use crate::index::query::{resolution_in, resolve_targets, ResolvedTarget};
use crate::index::snapshot::{occurrences, IndexSnapshot};
use crate::index::{symbol_with, Analysis, Occurrence, SourceText};
use crate::model::{FileExtraction, SourceRange, Symbol};
use crate::order::{
    distinct_order, distinct_order_keeps_every_key_once, gather, lemma_distinct_order_bounds,
    lemma_same_distinct_order, sort_distinct_by_keys, SortKey,
};
use crate::path::{DocPath, Part};
use crate::position::Encoding;
use crate::protocol::{Definition, Location, LocationLink, Position, Range};
use crate::types::DocUri;

verus! {

/// Most locations that one references query returns.
pub const CAP_REFERENCES: usize = 2000;

// ---------------------------------------------------------------------------
// Definition

/// The targets that can be shown: those with a symbol whose path has an address.
pub open spec fn showable(a: Analysis, targets: Seq<ResolvedTarget>) -> Seq<
    (Symbol, Option<SourceRange>),
>
    decreases targets.len(),
{
    if targets.len() == 0 {
        Seq::empty()
    } else {
        let before = showable(a, targets.drop_last());
        match symbol_with(a, targets.last().id) {
            Some(symbol) => if uri_of_path(symbol.file_path.spelling()) is Some {
                before.push((symbol, targets.last().origin))
            } else {
                before
            },
            None => before,
        }
    }
}

/// A link shows a definition, seen from a use in the file `from`.
pub open spec fn shows_link(
    link: LocationLink,
    texts: Texts,
    from: Seq<Part>,
    definition: (Symbol, Option<SourceRange>),
    encoding: Encoding,
) -> bool {
    let (symbol, origin) = definition;
    let path = symbol.file_path;
    &&& uri_of_path(path.spelling()) == Some(link.target_uri@)
    &&& texts.contains_key(path@)
    &&& link.target_range == range_by(texts, path@, symbol.source_range, encoding)
    &&& link.target_selection_range == range_by(texts, path@, selection_of(symbol), encoding)
    &&& match origin {
        Some(range) => texts.contains_key(from) && link.origin_selection_range == Some(
            range_by(texts, from, range, encoding),
        ),
        None => link.origin_selection_range is None,
    }
}

/// Links show definitions, one for one.
pub open spec fn shows_links(
    links: Seq<LocationLink>,
    texts: Texts,
    from: Seq<Part>,
    definitions: Seq<(Symbol, Option<SourceRange>)>,
    encoding: Encoding,
) -> bool {
    &&& links.len() == definitions.len()
    &&& forall|i: int|
        0 <= i < links.len() ==> shows_link(#[trigger] links[i], texts, from, definitions[i], encoding)
}

/// Locations show definitions, one for one.
pub open spec fn shows_definitions(
    locations: Seq<Location>,
    texts: Texts,
    definitions: Seq<(Symbol, Option<SourceRange>)>,
    encoding: Encoding,
) -> bool {
    &&& locations.len() == definitions.len()
    &&& forall|i: int|
        0 <= i < locations.len() ==> shows_location(
            #[trigger] locations[i],
            texts,
            definitions[i].0.file_path,
            definitions[i].0.source_range,
            encoding,
        )
}

/// The answer to a definition request at a byte of a file.
pub open spec fn answers_definition(
    r: Option<Definition>,
    a: Analysis,
    texts: Texts,
    file: FileExtraction,
    byte: usize,
    link_support: bool,
    encoding: Encoding,
) -> bool {
    let definitions = showable(a, resolution_in(a, file, byte));
    match r {
        None => definitions.len() == 0,
        Some(Definition::Link(links)) => link_support && definitions.len() > 0 && shows_links(
            links@,
            texts,
            file.path@,
            definitions,
            encoding,
        ),
        Some(Definition::Array(locations)) => !link_support && definitions.len() > 0
            && shows_definitions(locations@, texts, definitions, encoding),
    }
}

fn collect_links<'a, S: SourceText>(
    ctx: &mut QueryCtx<'a, S>,
    from: &DocPath,
    targets: &Vec<ResolvedTarget>,
) -> (r: Vec<LocationLink>)
    ensures
        final(ctx).continues(old(ctx)),
        shows_links(
            r@,
            final(ctx).texts(),
            from@,
            showable(final(ctx).findings(), targets@),
            final(ctx).spec_encoding(),
        ),
{
    let snapshot: &'a IndexSnapshot = ctx.snapshot();
    let mut links: Vec<LocationLink> = Vec::new();
    let mut i: usize = 0;
    while i < targets.len()
        invariant
            ctx.continues(old(ctx)),
            snapshot@ == ctx.findings(),
            i <= targets@.len(),
            shows_links(
                links@,
                ctx.texts(),
                from@,
                showable(ctx.findings(), targets@.take(i as int)),
                ctx.spec_encoding(),
            ),
        decreases targets.len() - i,
    {
        let target: ResolvedTarget = targets[i];
        let ghost before = ctx.texts();
        let ghost listed = links@;
        let ghost shown = showable(ctx.findings(), targets@.take(i as int));
        assert(targets@.take(i as int + 1).drop_last() =~= targets@.take(i as int));
        i += 1;
        let symbol: &'a Symbol = match snapshot.symbol_by_id(target.id) {
            Some(symbol) => symbol,
            None => {
                continue;
            },
        };
        let target_uri: String = match path_to_uri(&symbol.file_path) {
            Some(uri) => uri,
            None => {
                continue;
            },
        };
        let (target_range, target_selection_range) = ctx.symbol_ranges(symbol);
        let origin_selection_range: Option<Range> = match &target.origin {
            Some(range) => Some(ctx.range_for(from, range)),
            None => None,
        };
        links.push(
            LocationLink {
                origin_selection_range,
                target_uri,
                target_range,
                target_selection_range,
            },
        );
        proof {
            assert(grows(before, ctx.texts()));
            let now = showable(ctx.findings(), targets@.take(i as int));
            assert(now == shown.push((*symbol, target.origin)));
            assert forall|k: int| 0 <= k < links@.len() implies shows_link(
                #[trigger] links@[k],
                ctx.texts(),
                from@,
                now[k],
                ctx.spec_encoding(),
            ) by {
                if k < listed.len() {
                    assert(links@[k] == listed[k]);
                    assert(shows_link(listed[k], before, from@, shown[k], ctx.spec_encoding()));
                }
            }
        }
    }
    assert(targets@.take(i as int) =~= targets@);
    links
}

fn collect_locations<'a, S: SourceText>(
    ctx: &mut QueryCtx<'a, S>,
    targets: &Vec<ResolvedTarget>,
) -> (r: Vec<Location>)
    ensures
        final(ctx).continues(old(ctx)),
        shows_definitions(
            r@,
            final(ctx).texts(),
            showable(final(ctx).findings(), targets@),
            final(ctx).spec_encoding(),
        ),
{
    let snapshot: &'a IndexSnapshot = ctx.snapshot();
    let mut locations: Vec<Location> = Vec::new();
    let mut i: usize = 0;
    while i < targets.len()
        invariant
            ctx.continues(old(ctx)),
            snapshot@ == ctx.findings(),
            i <= targets@.len(),
            shows_definitions(
                locations@,
                ctx.texts(),
                showable(ctx.findings(), targets@.take(i as int)),
                ctx.spec_encoding(),
            ),
        decreases targets.len() - i,
    {
        let target: ResolvedTarget = targets[i];
        let ghost before = ctx.texts();
        let ghost listed = locations@;
        let ghost shown = showable(ctx.findings(), targets@.take(i as int));
        assert(targets@.take(i as int + 1).drop_last() =~= targets@.take(i as int));
        i += 1;
        let symbol: &'a Symbol = match snapshot.symbol_by_id(target.id) {
            Some(symbol) => symbol,
            None => {
                continue;
            },
        };
        let found = ctx.location(symbol);
        proof {
            assert(grows(before, ctx.texts()));
            assert forall|k: int| 0 <= k < listed.len() implies shows_location(
                #[trigger] listed[k],
                ctx.texts(),
                shown[k].0.file_path,
                shown[k].0.source_range,
                ctx.spec_encoding(),
            ) by {
                lemma_location_stays(
                    listed[k],
                    before,
                    ctx.texts(),
                    shown[k].0.file_path,
                    shown[k].0.source_range,
                    ctx.spec_encoding(),
                );
            }
        }
        if let Some(location) = found {
            locations.push(location);
        }
    }
    assert(targets@.take(i as int) =~= targets@);
    locations
}

/// Every definition target the engine resolved; no score picks a winner.
/// `link_support` mirrors the client.
pub fn definition_at<'a, S: SourceText>(
    ctx: &mut QueryCtx<'a, S>,
    uri: &DocUri,
    pos: Position,
    link_support: bool,
) -> (r: Option<Definition>)
    ensures
        final(ctx).continues(old(ctx)),
        has_looked(final(ctx).findings(), final(ctx).texts(), uri@),
        match cursor_of(
            final(ctx).findings(),
            final(ctx).texts(),
            uri@,
            pos,
            final(ctx).spec_encoding(),
        ) {
            Some((file, byte)) => answers_definition(
                r,
                final(ctx).findings(),
                final(ctx).texts(),
                file,
                byte,
                link_support,
                final(ctx).spec_encoding(),
            ),
            None => r is None,
        },
{
    let (file, byte) = match cursor(ctx, uri, pos) {
        Some(found) => found,
        None => {
            return None;
        },
    };
    let snapshot: &'a IndexSnapshot = ctx.snapshot();
    let targets = resolve_targets(snapshot, uri, byte);
    if link_support {
        let links = collect_links(ctx, &file.path, &targets);
        if links.len() == 0 {
            None
        } else {
            Some(Definition::Link(links))
        }
    } else {
        let locations = collect_locations(ctx, &targets);
        if locations.len() == 0 {
            None
        } else {
            Some(Definition::Array(locations))
        }
    }
}

// ---------------------------------------------------------------------------
// References

/// A place that a references answer may list.
#[derive(Debug)]
pub struct ReferenceSite {
    pub path: DocPath,
    pub byte: usize,
    pub location: Location,
}

/// The keys of sites: path, byte.
pub open spec fn site_keys(sites: Seq<ReferenceSite>) -> Seq<(DocPath, usize)> {
    sites.map_values(|site: ReferenceSite| (site.path, site.byte))
}

/// Sites ordered by path and byte, the first at each.
pub fn order_sites(sites: Vec<ReferenceSite>) -> (r: Vec<ReferenceSite>)
    ensures
        r@ == gather(sites@, distinct_order(site_keys(sites@))),
{
    let ghost wanted = site_keys(sites@);
    let mut keys: Vec<(DocPath, usize)> = Vec::new();
    let mut i: usize = 0;
    while i < sites.len()
        invariant
            i <= sites@.len(),
            keys@.len() == i,
            wanted == site_keys(sites@),
            forall|k: int|
                0 <= k < i ==> (#[trigger] keys@[k]).0@ == wanted[k].0@ && keys@[k].1
                    == wanted[k].1,
        decreases sites.len() - i,
    {
        keys.push((sites[i].path.clone(), sites[i].byte));
        i += 1;
    }
    proof {
        assert forall|i: int, j: int| 0 <= i < keys@.len() && 0 <= j < keys@.len() implies #[trigger] keys@[i].precedes(
            &keys@[j],
        ) == wanted[i].precedes(&wanted[j]) by {}
        lemma_same_distinct_order(keys@, wanted);
    }
    sort_distinct_by_keys(sites, &keys)
}

/// A byte range of a file that an answer lists.
pub type Place = (DocPath, SourceRange);

/// The declarations of targets that can be shown.
pub open spec fn declared_places(a: Analysis, targets: Seq<ResolvedTarget>) -> Seq<Place> {
    showable(a, targets).map_values(
        |definition: (Symbol, Option<SourceRange>)|
            (definition.0.file_path, definition.0.source_range),
    )
}

/// The places of occurrences that can be shown: those of a file whose path has an
/// address.
pub open spec fn occurrence_places(a: Analysis, found: Seq<Occurrence>) -> Seq<Place>
    decreases found.len(),
{
    if found.len() == 0 {
        Seq::empty()
    } else {
        let before = occurrence_places(a, found.drop_last());
        let site = found.last();
        if site.file < a.extractions@.len() && uri_of_path(
            a.extractions@[site.file as int].path.spelling(),
        ) is Some {
            before.push((a.extractions@[site.file as int].path, site.range))
        } else {
            before
        }
    }
}

/// The use sites of targets that can be shown.
pub open spec fn used_places(a: Analysis, targets: Seq<ResolvedTarget>) -> Seq<Place>
    decreases targets.len(),
{
    if targets.len() == 0 {
        Seq::empty()
    } else {
        used_places(a, targets.drop_last()) + occurrence_places(
            a,
            occurrences(a, targets.last().id),
        )
    }
}

/// The keys of places: path, first byte.
pub open spec fn place_keys(found: Seq<Place>) -> Seq<(DocPath, usize)> {
    found.map_values(|place: Place| (place.0, place.1.byte_start))
}

/// Places ordered by path and byte, the first at each.
pub open spec fn ordered_places(found: Seq<Place>) -> Seq<Place> {
    gather(found, distinct_order(place_keys(found)))
}

/// The places that a references answer lists: the declarations if they are asked
/// for, then the uses, each ordered and distinct, capped.
pub open spec fn referenced_places(
    a: Analysis,
    targets: Seq<ResolvedTarget>,
    include_declaration: bool,
) -> Seq<Place> {
    let declared = if include_declaration {
        declared_places(a, targets)
    } else {
        Seq::empty()
    };
    capped(
        ordered_places(declared) + ordered_places(used_places(a, targets)),
        CAP_REFERENCES as nat,
    )
}

/// A site stands for a place.
pub open spec fn stands_for(
    site: ReferenceSite,
    texts: Texts,
    place: Place,
    encoding: Encoding,
) -> bool {
    &&& site.path@ == place.0@
    &&& site.byte == place.1.byte_start
    &&& shows_location(site.location, texts, place.0, place.1, encoding)
}

/// Sites stand for places, one for one.
pub open spec fn stand_for(
    sites: Seq<ReferenceSite>,
    texts: Texts,
    found: Seq<Place>,
    encoding: Encoding,
) -> bool {
    &&& sites.len() == found.len()
    &&& forall|i: int|
        0 <= i < sites.len() ==> stands_for(#[trigger] sites[i], texts, found[i], encoding)
}

/// Locations show places, one for one.
pub open spec fn shows_places(
    locations: Seq<Location>,
    texts: Texts,
    found: Seq<Place>,
    encoding: Encoding,
) -> bool {
    &&& locations.len() == found.len()
    &&& forall|i: int|
        0 <= i < locations.len() ==> shows_location(
            #[trigger] locations[i],
            texts,
            found[i].0,
            found[i].1,
            encoding,
        )
}

proof fn lemma_stand_on(
    sites: Seq<ReferenceSite>,
    before: Texts,
    after: Texts,
    found: Seq<Place>,
    encoding: Encoding,
)
    requires
        stand_for(sites, before, found, encoding),
        grows(before, after),
    ensures
        stand_for(sites, after, found, encoding),
{
    assert forall|i: int| 0 <= i < sites.len() implies stands_for(
        #[trigger] sites[i],
        after,
        found[i],
        encoding,
    ) by {
        lemma_location_stays(sites[i].location, before, after, found[i].0, found[i].1, encoding);
    }
}

proof fn lemma_stand_ordered(
    sites: Seq<ReferenceSite>,
    texts: Texts,
    found: Seq<Place>,
    encoding: Encoding,
)
    requires
        stand_for(sites, texts, found, encoding),
    ensures
        stand_for(
            gather(sites, distinct_order(site_keys(sites))),
            texts,
            ordered_places(found),
            encoding,
        ),
{
    let a = site_keys(sites);
    let b = place_keys(found);
    assert forall|i: int, j: int| 0 <= i < a.len() && 0 <= j < a.len() implies #[trigger] a[i].precedes(
        &a[j],
    ) == b[i].precedes(&b[j]) by {
        assert(stands_for(sites[i], texts, found[i], encoding));
        assert(stands_for(sites[j], texts, found[j], encoding));
    }
    lemma_same_distinct_order(a, b);
    lemma_distinct_order_bounds(a);
    let order = distinct_order(a);
    let ordered = gather(sites, order);
    assert forall|i: int| 0 <= i < ordered.len() implies stands_for(
        #[trigger] ordered[i],
        texts,
        ordered_places(found)[i],
        encoding,
    ) by {
        assert(0 <= order[i] < sites.len());
        assert(stands_for(sites[order[i]], texts, found[order[i]], encoding));
    }
}

fn collect_declarations<'a, S: SourceText>(
    ctx: &mut QueryCtx<'a, S>,
    targets: &Vec<ResolvedTarget>,
) -> (r: Vec<ReferenceSite>)
    ensures
        final(ctx).continues(old(ctx)),
        stand_for(
            r@,
            final(ctx).texts(),
            declared_places(final(ctx).findings(), targets@),
            final(ctx).spec_encoding(),
        ),
{
    let snapshot: &'a IndexSnapshot = ctx.snapshot();
    let mut sites: Vec<ReferenceSite> = Vec::new();
    let mut i: usize = 0;
    assert(targets@.take(0) =~= Seq::empty());
    while i < targets.len()
        invariant
            ctx.continues(old(ctx)),
            snapshot@ == ctx.findings(),
            i <= targets@.len(),
            stand_for(
                sites@,
                ctx.texts(),
                declared_places(ctx.findings(), targets@.take(i as int)),
                ctx.spec_encoding(),
            ),
        decreases targets.len() - i,
    {
        let target: ResolvedTarget = targets[i];
        let ghost before = ctx.texts();
        let ghost listed = sites@;
        let ghost shown = declared_places(ctx.findings(), targets@.take(i as int));
        assert(targets@.take(i as int + 1).drop_last() =~= targets@.take(i as int));
        i += 1;
        let ghost now = declared_places(ctx.findings(), targets@.take(i as int));
        let symbol: &'a Symbol = match snapshot.symbol_by_id(target.id) {
            Some(symbol) => symbol,
            None => {
                assert(now == shown);
                continue;
            },
        };
        let found = ctx.location(symbol);
        proof {
            assert(grows(before, ctx.texts()));
            lemma_stand_on(listed, before, ctx.texts(), shown, ctx.spec_encoding());
        }
        if let Some(location) = found {
            sites.push(
                ReferenceSite {
                    path: symbol.file_path.clone(),
                    byte: symbol.source_range.byte_start,
                    location,
                },
            );
            assert(now =~= shown.push((symbol.file_path, symbol.source_range)));
        } else {
            assert(now == shown);
        }
    }
    assert(targets@.take(i as int) =~= targets@);
    sites
}

fn push_occurrences<'a, S: SourceText>(
    ctx: &mut QueryCtx<'a, S>,
    found: &Vec<Occurrence>,
    sites: &mut Vec<ReferenceSite>,
    Ghost(earlier): Ghost<Seq<Place>>,
)
    requires
        stand_for(old(sites)@, old(ctx).texts(), earlier, old(ctx).spec_encoding()),
    ensures
        final(ctx).continues(old(ctx)),
        stand_for(
            final(sites)@,
            final(ctx).texts(),
            earlier + occurrence_places(final(ctx).findings(), found@),
            final(ctx).spec_encoding(),
        ),
{
    let snapshot: &'a IndexSnapshot = ctx.snapshot();
    let mut i: usize = 0;
    assert(found@.take(0) =~= Seq::empty());
    assert(earlier + occurrence_places(ctx.findings(), found@.take(0)) =~= earlier);
    while i < found.len()
        invariant
            ctx.continues(old(ctx)),
            snapshot@ == ctx.findings(),
            i <= found@.len(),
            stand_for(
                sites@,
                ctx.texts(),
                earlier + occurrence_places(ctx.findings(), found@.take(i as int)),
                ctx.spec_encoding(),
            ),
        decreases found.len() - i,
    {
        let site: Occurrence = found[i];
        let ghost before = ctx.texts();
        let ghost listed = sites@;
        let ghost shown = earlier + occurrence_places(ctx.findings(), found@.take(i as int));
        assert(found@.take(i as int + 1).drop_last() =~= found@.take(i as int));
        i += 1;
        let ghost now = earlier + occurrence_places(ctx.findings(), found@.take(i as int));
        let path: &'a DocPath = match snapshot.tables().path_of(site.file) {
            Some(path) => path,
            None => {
                assert(now == shown);
                continue;
            },
        };
        let uri: String = match path_to_uri(path) {
            Some(uri) => uri,
            None => {
                assert(now == shown);
                continue;
            },
        };
        let range: Range = ctx.range_for(path, &site.range);
        proof {
            assert(grows(before, ctx.texts()));
            lemma_stand_on(listed, before, ctx.texts(), shown, ctx.spec_encoding());
        }
        sites.push(
            ReferenceSite {
                path: path.clone(),
                byte: site.range.byte_start,
                location: Location { uri, range },
            },
        );
        assert(now =~= shown.push((*path, site.range)));
    }
    assert(found@.take(i as int) =~= found@);
}

fn collect_uses<'a, S: SourceText>(
    ctx: &mut QueryCtx<'a, S>,
    targets: &Vec<ResolvedTarget>,
) -> (r: Vec<ReferenceSite>)
    ensures
        final(ctx).continues(old(ctx)),
        stand_for(
            r@,
            final(ctx).texts(),
            used_places(final(ctx).findings(), targets@),
            final(ctx).spec_encoding(),
        ),
{
    let snapshot: &'a IndexSnapshot = ctx.snapshot();
    let mut sites: Vec<ReferenceSite> = Vec::new();
    let mut i: usize = 0;
    assert(targets@.take(0) =~= Seq::empty());
    while i < targets.len()
        invariant
            ctx.continues(old(ctx)),
            snapshot@ == ctx.findings(),
            i <= targets@.len(),
            stand_for(
                sites@,
                ctx.texts(),
                used_places(ctx.findings(), targets@.take(i as int)),
                ctx.spec_encoding(),
            ),
        decreases targets.len() - i,
    {
        let found = snapshot.occurrences_of(targets[i].id);
        let ghost earlier = used_places(ctx.findings(), targets@.take(i as int));
        assert(targets@.take(i as int + 1).drop_last() =~= targets@.take(i as int));
        push_occurrences(ctx, &found, &mut sites, Ghost(earlier));
        i += 1;
    }
    assert(targets@.take(i as int) =~= targets@);
    sites
}

fn push_locations(
    sites: Vec<ReferenceSite>,
    locations: &mut Vec<Location>,
    Ghost(texts): Ghost<Texts>,
    Ghost(earlier): Ghost<Seq<Place>>,
    Ghost(places): Ghost<Seq<Place>>,
    Ghost(encoding): Ghost<Encoding>,
)
    requires
        shows_places(old(locations)@, texts, earlier, encoding),
        stand_for(sites@, texts, places, encoding),
    ensures
        shows_places(final(locations)@, texts, earlier + places, encoding),
{
    let ghost all = sites@;
    let mut sites = sites;
    let mut rest: Vec<ReferenceSite> = Vec::new();
    while sites.len() > 0
        invariant
            sites@ + Seq::new(rest@.len(), |k: int| rest@[rest@.len() - 1 - k]) == all,
        decreases sites.len(),
    {
        let ghost before = sites@ + Seq::new(rest@.len(), |k: int| rest@[rest@.len() - 1 - k]);
        if let Some(site) = sites.pop() {
            rest.push(site);
        }
        assert(sites@ + Seq::new(rest@.len(), |k: int| rest@[rest@.len() - 1 - k]) =~= before);
    }
    let ghost n = all.len() as int;
    assert(rest@.len() == n);
    assert forall|k: int| 0 <= k < n implies #[trigger] rest@[n - 1 - k] == all[k] by {
        let back = sites@ + Seq::new(rest@.len(), |k: int| rest@[rest@.len() - 1 - k]);
        assert(back[k] == rest@[n - 1 - k]);
    }
    assert(earlier + places.take(0) =~= earlier);
    let ghost mut done: int = 0;
    while rest.len() > 0
        invariant
            n == all.len(),
            0 <= done <= n,
            rest@.len() == n - done,
            stand_for(all, texts, places, encoding),
            forall|k: int| done <= k < n ==> #[trigger] rest@[n - 1 - k] == all[k],
            shows_places(locations@, texts, earlier + places.take(done), encoding),
        decreases rest.len(),
    {
        let ghost before = locations@;
        let ghost held = rest@;
        if let Some(site) = rest.pop() {
            proof {
                assert(held[n - 1 - done] == all[done]);
                assert(stands_for(all[done], texts, places[done], encoding));
                assert(earlier + places.take(done + 1) =~= (earlier + places.take(done)).push(
                    places[done],
                ));
            }
            locations.push(site.location);
        }
        proof {
            done = done + 1;
        }
    }
    assert(places.take(done) =~= places);
}

/// Every use of what is under the cursor, the declarations first if they are asked
/// for.
pub fn references_at<'a, S: SourceText>(
    ctx: &mut QueryCtx<'a, S>,
    uri: &DocUri,
    pos: Position,
    include_declaration: bool,
) -> (r: Vec<Location>)
    ensures
        final(ctx).continues(old(ctx)),
        has_looked(final(ctx).findings(), final(ctx).texts(), uri@),
        match cursor_of(
            final(ctx).findings(),
            final(ctx).texts(),
            uri@,
            pos,
            final(ctx).spec_encoding(),
        ) {
            Some((file, byte)) => shows_places(
                r@,
                final(ctx).texts(),
                referenced_places(
                    final(ctx).findings(),
                    resolution_in(final(ctx).findings(), file, byte),
                    include_declaration,
                ),
                final(ctx).spec_encoding(),
            ),
            None => r@.len() == 0,
        },
{
    let mut locations: Vec<Location> = Vec::new();
    let (file, byte) = match cursor(ctx, uri, pos) {
        Some(found) => found,
        None => {
            return locations;
        },
    };
    let snapshot: &'a IndexSnapshot = ctx.snapshot();
    let targets = resolve_targets(snapshot, uri, byte);
    let ghost a = ctx.findings();
    let ghost declared = if include_declaration {
        declared_places(a, targets@)
    } else {
        Seq::empty()
    };
    let declarations: Vec<ReferenceSite> = if include_declaration {
        collect_declarations(ctx, &targets)
    } else {
        Vec::new()
    };
    let ghost texts = ctx.texts();
    let ghost stood = declarations@;
    let uses = collect_uses(ctx, &targets);
    proof {
        assert(grows(texts, ctx.texts()));
        lemma_stand_on(stood, texts, ctx.texts(), declared, ctx.spec_encoding());
        lemma_stand_ordered(stood, ctx.texts(), declared, ctx.spec_encoding());
        lemma_stand_ordered(uses@, ctx.texts(), used_places(a, targets@), ctx.spec_encoding());
    }
    let declarations = order_sites(declarations);
    let uses = order_sites(uses);
    let ghost first = ordered_places(declared);
    let ghost second = ordered_places(used_places(a, targets@));
    assert(Seq::<Place>::empty() + first =~= first);
    push_locations(
        declarations,
        &mut locations,
        Ghost(ctx.texts()),
        Ghost(Seq::empty()),
        Ghost(first),
        Ghost(ctx.spec_encoding()),
    );
    push_locations(
        uses,
        &mut locations,
        Ghost(ctx.texts()),
        Ghost(first),
        Ghost(second),
        Ghost(ctx.spec_encoding()),
    );
    if locations.len() > CAP_REFERENCES {
        locations.truncate(CAP_REFERENCES);
    }
    locations
}

// ---------------------------------------------------------------------------
// Laws

/// Both shapes of a definition answer carry the same targets in the same order.
pub proof fn definition_shapes_agree(
    links: Seq<LocationLink>,
    locations: Seq<Location>,
    texts: Texts,
    from: Seq<Part>,
    definitions: Seq<(Symbol, Option<SourceRange>)>,
    encoding: Encoding,
)
    requires
        shows_links(links, texts, from, definitions, encoding),
        shows_definitions(locations, texts, definitions, encoding),
    ensures
        links.len() == locations.len(),
        forall|i: int|
            0 <= i < links.len() ==> (#[trigger] links[i]).target_uri@ == locations[i].uri@
                && links[i].target_range == locations[i].range,
{
    assert forall|i: int| 0 <= i < links.len() implies (#[trigger] links[i]).target_uri@
        == locations[i].uri@ && links[i].target_range == locations[i].range by {
        assert(shows_link(links[i], texts, from, definitions[i], encoding));
        assert(shows_location(
            locations[i],
            texts,
            definitions[i].0.file_path,
            definitions[i].0.source_range,
            encoding,
        ));
    }
}

/// Ordered places come by path, then by byte, and no two of them are one.
pub proof fn places_are_ordered_and_distinct(found: Seq<Place>, i: int, j: int)
    requires
        0 <= i < j < ordered_places(found).len(),
    ensures
        ({
            let (x, y) = (ordered_places(found)[i], ordered_places(found)[j]);
            (x.0, x.1.byte_start).precedes(&(y.0, y.1.byte_start))
        }),
{
    let keys = place_keys(found);
    lemma_distinct_order_bounds(keys);
    distinct_order_keeps_every_key_once(keys);
    let order = distinct_order(keys);
    assert(0 <= order[i] < keys.len() && 0 <= order[j] < keys.len());
    assert(keys[order[i]].precedes(&keys[order[j]]));
}

/// Dropping repeats drops no place: one with the same path and byte is listed.
pub proof fn every_place_is_listed(found: Seq<Place>, p: int)
    requires
        0 <= p < found.len(),
    ensures
        exists|j: int|
            0 <= j < ordered_places(found).len() && (#[trigger] ordered_places(found)[j]).0@
                == found[p].0@ && ordered_places(found)[j].1.byte_start == found[p].1.byte_start,
{
    let keys = place_keys(found);
    lemma_distinct_order_bounds(keys);
    distinct_order_keeps_every_key_once(keys);
    let order = distinct_order(keys);
    assert(crate::order::is_represented(keys, order, p));
    let j = choose|j: int|
        0 <= j < order.len() && !keys[#[trigger] order[j]].precedes(&keys[p]) && !keys[p].precedes(
            &keys[order[j]],
        );
    assert(0 <= order[j] < keys.len());
    crate::path::lemma_path_level(keys[order[j]].0@, keys[p].0@);
    assert(ordered_places(found)[j] == found[order[j]]);
}

} // verus!
