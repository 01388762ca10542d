//! documentSymbol plus workspace/symbol.

use vstd::prelude::*;
use vstd::string::*;

use super::{
    grows, lemma_location_stays, range_by, selection_of, shows_location, QueryCtx, Texts,
};
use crate::convert::{kinds_of, symbol_kind, uri_of_path};
use crate::index::query::document_of;
use crate::index::{all_symbols, Analysis, SourceText};
use crate::lookup::{lemma_places_where, places_where};
use crate::model::{FileExtraction, Symbol};
use crate::order::{
    gather, lemma_same_order, lemma_stable_prefix, sort_by_keys, stable_order,
    stable_sort_is_a_stable_permutation, SortKey,
};
use crate::path::DocPath;
use crate::position::Encoding;
use crate::protocol::{copy_text, optional_text, DocumentSymbol, WorkspaceSymbol};
use crate::text::{contains, fold_case, lowercase, occurs_in, same_text};
use crate::types::DocUri;

verus! {

/// Most symbols that one workspace query returns.
pub const CAP_WORKSPACE_SYMBOLS: usize = 512;

/// Match tier: exact name outranks case-insensitive substring; no fuzzy tier.
#[derive(Clone, Copy, Debug, PartialEq, Eq, PartialOrd, Ord, Structural)]
pub enum MatchTier {
    Exact,
    Substring,
}

/// How a name matches a query: an empty query matches every name.
pub open spec fn tier_of(name: Seq<char>, query: Seq<char>) -> Option<MatchTier> {
    if query.len() == 0 || name == query {
        Some(MatchTier::Exact)
    } else if occurs_in(lowercase(name), lowercase(query)) {
        Some(MatchTier::Substring)
    } else {
        None
    }
}

/// How a name matches a query whose folded form is at hand.
pub fn match_tier(name: &str, query: &str, folded_query: &str) -> (r: Option<MatchTier>)
    ensures
        r == (if query@.len() == 0 || name@ == query@ {
            Some(MatchTier::Exact)
        } else if occurs_in(lowercase(name@), folded_query@) {
            Some(MatchTier::Substring)
        } else {
            None
        }),
{
    if query.is_empty() || same_text(name, query) {
        return Some(MatchTier::Exact);
    }
    if contains(fold_case(name).as_str(), folded_query) {
        Some(MatchTier::Substring)
    } else {
        None
    }
}

/// How a name matches a query.
pub fn match_query(name: &str, query: &str) -> (r: Option<MatchTier>)
    ensures
        r == tier_of(name@, query@),
{
    match_tier(name, query, fold_case(query).as_str())
}

// ---------------------------------------------------------------------------
// Symbols of a document

/// An entry shows a symbol.
pub open spec fn shows_symbol(
    entry: DocumentSymbol,
    texts: Texts,
    symbol: Symbol,
    encoding: Encoding,
) -> bool {
    &&& texts.contains_key(symbol.file_path@)
    &&& entry.name@ == symbol.name@
    &&& optional_text(entry.detail) == optional_text(symbol.signature)
    &&& entry.kind == kinds_of(symbol.kind).0
    &&& entry.range == range_by(texts, symbol.file_path@, symbol.source_range, encoding)
    &&& entry.selection_range == range_by(
        texts,
        symbol.file_path@,
        selection_of(symbol),
        encoding,
    )
}

/// The symbols of a document.
pub open spec fn symbols_in(a: Analysis, uri: Seq<char>) -> Seq<Symbol> {
    match document_of(a, uri) {
        Some(file) => file.symbols@,
        None => Seq::empty(),
    }
}

/// A list shows symbols, one for one.
pub open spec fn shows_symbols(
    entries: Seq<DocumentSymbol>,
    texts: Texts,
    symbols: Seq<Symbol>,
    encoding: Encoding,
) -> bool {
    &&& entries.len() == symbols.len()
    &&& forall|i: int|
        0 <= i < entries.len() ==> shows_symbol(#[trigger] entries[i], texts, symbols[i], encoding)
}

/// The symbols of a document on one flat level, in their order.
pub fn document_symbols<'a, S: SourceText>(ctx: &mut QueryCtx<'a, S>, uri: &DocUri) -> (r: Vec<
    DocumentSymbol,
>)
    ensures
        final(ctx).continues(old(ctx)),
        shows_symbols(
            r@,
            final(ctx).texts(),
            symbols_in(final(ctx).findings(), uri@),
            final(ctx).spec_encoding(),
        ),
{
    let mut r: Vec<DocumentSymbol> = Vec::new();
    let file: &'a FileExtraction = match ctx.document(uri) {
        Some(file) => file,
        None => {
            return r;
        },
    };
    let mut i: usize = 0;
    while i < file.symbols.len()
        invariant
            ctx.continues(old(ctx)),
            document_of(ctx.findings(), uri@) == Some(*file),
            i <= file.symbols@.len(),
            shows_symbols(r@, ctx.texts(), file.symbols@.take(i as int), ctx.spec_encoding()),
        decreases file.symbols.len() - i,
    {
        let symbol = &file.symbols[i];
        let ghost before = ctx.texts();
        let (range, selection_range) = ctx.symbol_ranges(symbol);
        assert(grows(before, ctx.texts()));
        let ghost shown = r@;
        r.push(
            DocumentSymbol {
                name: symbol.name.clone(),
                detail: copy_text(&symbol.signature),
                kind: symbol_kind(symbol.kind),
                range,
                selection_range,
            },
        );
        i += 1;
        proof {
            let listed = file.symbols@.take(i as int);
            assert forall|k: int| 0 <= k < r@.len() implies shows_symbol(
                #[trigger] r@[k],
                ctx.texts(),
                listed[k],
                ctx.spec_encoding(),
            ) by {
                if k < i - 1 {
                    assert(r@[k] == shown[k]);
                    assert(file.symbols@.take(i - 1)[k] == listed[k]);
                    assert(shows_symbol(shown[k], before, listed[k], ctx.spec_encoding()));
                }
            }
        }
    }
    assert(file.symbols@.take(i as int) =~= file.symbols@);
    r
}

// ---------------------------------------------------------------------------
// Symbols of the workspace

/// The rank of a tier in the order.
pub open spec fn tier_rank_of(tier: MatchTier) -> u32 {
    match tier {
        MatchTier::Exact => 0,
        MatchTier::Substring => 1,
    }
}

/// The places of the symbols that match a query.
pub open spec fn is_match(symbols: Seq<Symbol>, query: Seq<char>) -> spec_fn(int) -> bool {
    |i: int| tier_of(symbols[i].name@, query) is Some
}

/// The symbols that match a query.
pub open spec fn matching(a: Analysis, query: Seq<char>) -> Seq<Symbol> {
    let symbols = all_symbols(a);
    places_where(symbols.len() as int, is_match(symbols, query)).map_values(|i: int| symbols[i])
}

/// The key of a match: tier, path, declaration byte, name, id.
pub open spec fn match_key(symbol: Symbol, query: Seq<char>) -> (
    u32,
    (DocPath, (usize, (String, u32))),
) {
    (
        tier_rank_of(tier_of(symbol.name@, query)->0),
        (symbol.file_path, (symbol.source_range.byte_start, (symbol.name, symbol.id))),
    )
}

/// The symbols that match a query, in order.
pub open spec fn ordered_matches(a: Analysis, query: Seq<char>) -> Seq<Symbol> {
    let found = matching(a, query);
    gather(found, stable_order(found.map_values(|symbol: Symbol| match_key(symbol, query))))
}

/// The first so many of a list.
pub open spec fn capped<T>(items: Seq<T>, cap: nat) -> Seq<T> {
    if items.len() <= cap {
        items
    } else {
        items.take(cap as int)
    }
}

/// The symbols of a list whose path has an address.
pub open spec fn addressed(symbols: Seq<Symbol>) -> Seq<Symbol>
    decreases symbols.len(),
{
    if symbols.len() == 0 {
        symbols
    } else if uri_of_path(symbols.last().file_path.spelling()) is Some {
        addressed(symbols.drop_last()).push(symbols.last())
    } else {
        addressed(symbols.drop_last())
    }
}

/// An entry shows a symbol of the workspace.
pub open spec fn shows_workspace_symbol(
    entry: WorkspaceSymbol,
    texts: Texts,
    symbol: Symbol,
    encoding: Encoding,
) -> bool {
    &&& entry.name@ == symbol.name@
    &&& entry.kind == kinds_of(symbol.kind).0
    &&& shows_location(entry.location, texts, symbol.file_path, symbol.source_range, encoding)
}

/// A list shows symbols of the workspace, one for one.
pub open spec fn shows_workspace_symbols(
    entries: Seq<WorkspaceSymbol>,
    texts: Texts,
    symbols: Seq<Symbol>,
    encoding: Encoding,
) -> bool {
    &&& entries.len() == symbols.len()
    &&& forall|i: int|
        0 <= i < entries.len() ==> shows_workspace_symbol(
            #[trigger] entries[i],
            texts,
            symbols[i],
            encoding,
        )
}

/// The symbols that match, by reference, with their keys.
fn collect_matches<'a, S: SourceText>(ctx: &QueryCtx<'a, S>, query: &str) -> (r: Vec<&'a Symbol>)
    ensures
        r@.len() == ordered_matches(ctx.findings(), query@).len(),
        forall|i: int|
            0 <= i < r@.len() ==> *(#[trigger] r@[i]) == ordered_matches(ctx.findings(), query@)[i],
{
    let symbols: Vec<&'a Symbol> = ctx.snapshot().symbols();
    let ghost all = all_symbols(ctx.findings());
    let ghost p = is_match(all, query@);
    let folded: String = fold_case(query);
    let mut found: Vec<&'a Symbol> = Vec::new();
    let mut keys: Vec<(u32, (DocPath, (usize, (String, u32))))> = Vec::new();
    let mut i: usize = 0;
    while i < symbols.len()
        invariant
            i <= symbols@.len(),
            folded@ == lowercase(query@),
            symbols@.len() == all.len(),
            forall|k: int| 0 <= k < symbols@.len() ==> *(#[trigger] symbols@[k]) == all[k],
            p == is_match(all, query@),
            found@.len() == keys@.len() == places_where(i as int, p).len(),
            forall|k: int|
                0 <= k < found@.len() ==> *(#[trigger] found@[k]) == all[places_where(i as int, p)[k]],
            forall|k: int|
                0 <= k < found@.len() ==> {
                    let wanted = match_key(*found@[k], query@);
                    &&& (#[trigger] keys@[k]).0 == wanted.0
                    &&& keys@[k].1.0@ == wanted.1.0@
                    &&& keys@[k].1.1 == wanted.1.1
                },
        decreases symbols.len() - i,
    {
        let symbol: &'a Symbol = symbols[i];
        let ghost before = places_where(i as int, p);
        match match_tier(symbol.name.as_str(), query, folded.as_str()) {
            Some(tier) => {
                assert(p(i as int));
                assert(places_where(i as int + 1, p) == before.push(i as int));
                let rank: u32 = match tier {
                    MatchTier::Exact => 0,
                    MatchTier::Substring => 1,
                };
                found.push(symbol);
                keys.push(
                    (
                        rank,
                        (
                            symbol.file_path.clone(),
                            (symbol.source_range.byte_start, (symbol.name.clone(), symbol.id)),
                        ),
                    ),
                );
            },
            None => {
                assert(!p(i as int));
            },
        }
        i += 1;
    }
    let ghost wanted = matching(ctx.findings(), query@);
    let ghost wanted_keys = wanted.map_values(|symbol: Symbol| match_key(symbol, query@));
    proof {
        assert(wanted.len() == found@.len());
        assert forall|k: int| 0 <= k < found@.len() implies *(#[trigger] found@[k]) == wanted[k] by {}
        assert forall|i: int, j: int| 0 <= i < keys@.len() && 0 <= j < keys@.len() implies #[trigger] keys@[i].precedes(
            &keys@[j],
        ) == wanted_keys[i].precedes(&wanted_keys[j]) by {
            assert(wanted_keys[i] == match_key(*found@[i], query@));
            assert(wanted_keys[j] == match_key(*found@[j], query@));
        }
        lemma_same_order(keys@, wanted_keys);
        lemma_stable_prefix(keys@, keys@.len() as int);
    }
    let r = sort_by_keys(found, &keys);
    proof {
        let order = stable_order(keys@);
        assert forall|i: int| 0 <= i < r@.len() implies *(#[trigger] r@[i]) == ordered_matches(
            ctx.findings(),
            query@,
        )[i] by {
            assert(0 <= order[i] < keys@.len());
            assert(r@[i] == found@[order[i]]);
        }
    }
    r
}

/// Symbols that match a query, ordered by tier, path, declaration byte, name and
/// id, capped after that order; one without an address is left out.
pub fn workspace_symbols<'a, S: SourceText>(ctx: &mut QueryCtx<'a, S>, query: &str) -> (r: Vec<
    WorkspaceSymbol,
>)
    ensures
        final(ctx).continues(old(ctx)),
        shows_workspace_symbols(
            r@,
            final(ctx).texts(),
            addressed(
                capped(
                    ordered_matches(final(ctx).findings(), query@),
                    CAP_WORKSPACE_SYMBOLS as nat,
                ),
            ),
            final(ctx).spec_encoding(),
        ),
{
    let mut found: Vec<&'a Symbol> = collect_matches(ctx, query);
    let ghost wanted = capped(
        ordered_matches(ctx.findings(), query@),
        CAP_WORKSPACE_SYMBOLS as nat,
    );
    if found.len() > CAP_WORKSPACE_SYMBOLS {
        found.truncate(CAP_WORKSPACE_SYMBOLS);
    }
    assert(found@.len() == wanted.len());
    assert forall|k: int| 0 <= k < found@.len() implies *(#[trigger] found@[k]) == wanted[k] by {}
    let mut r: Vec<WorkspaceSymbol> = Vec::new();
    let mut i: usize = 0;
    while i < found.len()
        invariant
            ctx.continues(old(ctx)),
            i <= found@.len(),
            found@.len() == wanted.len(),
            forall|k: int| 0 <= k < found@.len() ==> *(#[trigger] found@[k]) == wanted[k],
            shows_workspace_symbols(
                r@,
                ctx.texts(),
                addressed(wanted.take(i as int)),
                ctx.spec_encoding(),
            ),
        decreases found.len() - i,
    {
        let symbol: &'a Symbol = found[i];
        let ghost before = ctx.texts();
        let ghost shown = r@;
        let ghost listed = addressed(wanted.take(i as int));
        assert(wanted.take(i as int + 1).drop_last() =~= wanted.take(i as int));
        assert(wanted.take(i as int + 1).last() == *symbol);
        let location = ctx.location(symbol);
        assert(grows(before, ctx.texts()));
        proof {
            assert forall|k: int| 0 <= k < shown.len() implies shows_workspace_symbol(
                #[trigger] shown[k],
                ctx.texts(),
                listed[k],
                ctx.spec_encoding(),
            ) by {
                lemma_location_stays(
                    shown[k].location,
                    before,
                    ctx.texts(),
                    listed[k].file_path,
                    listed[k].source_range,
                    ctx.spec_encoding(),
                );
            }
        }
        if let Some(location) = location {
            r.push(
                WorkspaceSymbol {
                    name: symbol.name.clone(),
                    kind: symbol_kind(symbol.kind),
                    location,
                },
            );
        }
        i += 1;
    }
    assert(wanted.take(i as int) =~= wanted);
    r
}

// ---------------------------------------------------------------------------
// Laws

/// The empty query matches every symbol.
pub proof fn the_empty_query_matches_all(name: Seq<char>)
    ensures
        tier_of(name, Seq::empty()) == Some(MatchTier::Exact),
{
}

/// Workspace symbol order: by tier, path, declaration byte, name and id, so that an
/// exact match comes before every substring match.
pub proof fn matches_come_in_order(a: Analysis, query: Seq<char>, i: int, j: int)
    requires
        0 <= i < j < ordered_matches(a, query).len(),
    ensures
        !match_key(ordered_matches(a, query)[j], query).precedes(
            &match_key(ordered_matches(a, query)[i], query),
        ),
        tier_of(ordered_matches(a, query)[j].name@, query) == Some(MatchTier::Exact) ==> tier_of(
            ordered_matches(a, query)[i].name@,
            query,
        ) == Some(MatchTier::Exact),
{
    let found = matching(a, query);
    let keys = found.map_values(|symbol: Symbol| match_key(symbol, query));
    let order = stable_order(keys);
    stable_sort_is_a_stable_permutation(keys);
    lemma_stable_prefix(keys, keys.len() as int);
    let (p, q) = (order[i], order[j]);
    assert(0 <= p < found.len() && 0 <= q < found.len());
    assert(!keys[q].precedes(&keys[p]));
    assert(keys[p] == match_key(found[p], query) && keys[q] == match_key(found[q], query));
    lemma_matching(a, query, p);
}

proof fn lemma_matching(a: Analysis, query: Seq<char>, p: int)
    requires
        0 <= p < matching(a, query).len(),
    ensures
        tier_of(matching(a, query)[p].name@, query) is Some,
{
    let symbols = all_symbols(a);
    lemma_places_where(symbols.len() as int, is_match(symbols, query));
    let place = places_where(symbols.len() as int, is_match(symbols, query))[p];
    assert(is_match(symbols, query)(place));
}

/// Every symbol that matches is listed, and every one listed matches.
pub proof fn matches_are_complete(a: Analysis, query: Seq<char>)
    ensures
        forall|k: int|
            0 <= k < all_symbols(a).len() && tier_of(
                (#[trigger] all_symbols(a)[k]).name@,
                query,
            ) is Some ==> ordered_matches(a, query).contains(all_symbols(a)[k]),
        forall|i: int|
            0 <= i < ordered_matches(a, query).len() ==> tier_of(
                (#[trigger] ordered_matches(a, query)[i]).name@,
                query,
            ) is Some,
{
    let symbols = all_symbols(a);
    let p = is_match(symbols, query);
    let places = places_where(symbols.len() as int, p);
    lemma_places_where(symbols.len() as int, p);
    let found = matching(a, query);
    let keys = found.map_values(|symbol: Symbol| match_key(symbol, query));
    let order = stable_order(keys);
    stable_sort_is_a_stable_permutation(keys);
    lemma_stable_prefix(keys, keys.len() as int);
    assert forall|k: int| 0 <= k < symbols.len() && tier_of(
        (#[trigger] symbols[k]).name@,
        query,
    ) is Some implies ordered_matches(a, query).contains(symbols[k]) by {
        assert(p(k));
        assert(places.contains(k));
        let m = choose|m: int| 0 <= m < places.len() && places[m] == k;
        assert(found[m] == symbols[k]);
        assert(order.contains(m));
        let i = choose|i: int| 0 <= i < order.len() && order[i] == m;
        assert(ordered_matches(a, query)[i] == symbols[k]);
    }
    assert forall|i: int| 0 <= i < ordered_matches(a, query).len() implies tier_of(
        (#[trigger] ordered_matches(a, query)[i]).name@,
        query,
    ) is Some by {
        assert(0 <= order[i] < found.len());
        lemma_matching(a, query, order[i]);
    }
}

} // verus!
