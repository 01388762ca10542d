//! Symbols of a document and of the workspace, hover and diagnostics.

use vstd::prelude::*;

use super::findings::{declares, is_behind};
use crate::convert::{kinds_of, severity_of, uri_of_path};
use crate::handlers::diagnostics::{diagnostics_about, is_about, shows_by, shows_diagnostics};
use crate::handlers::symbol::{
    addressed, is_match, match_key, matching, ordered_matches, shows_symbols,
    shows_workspace_symbols, symbols_in, tier_of, MatchTier, CAP_WORKSPACE_SYMBOLS,
};
use crate::handlers::{range_by, shows_location, Texts};
use crate::index::{all_symbols, symbol_slots, Analysis};
use crate::lookup::{lemma_places_where, places_where};
use crate::model::Symbol;
use crate::order::{
    lemma_stable_prefix, stable_order, stable_sort_is_a_stable_permutation, text_precedes, SortKey,
};
use crate::path::path_precedes;
use crate::position::{byte_column_range, range_in, Encoding};
use crate::protocol::{
    optional_text, DocumentSymbol, LspDiagnostic, Position, Range, WorkspaceSymbol,
};
use crate::text::{lowercase, occurs_in, stands_at};
use crate::types::uri_parts;

verus! {

// ---------------------------------------------------------------------------
// Workspace symbols

/// One text stands in another: with something before and something behind it.
pub open spec fn is_part(part: Seq<char>, text: Seq<char>) -> bool {
    exists|x: Seq<char>, y: Seq<char>| text == #[trigger] (x + part + y)
}

/// A name matches a query: the query is empty, is the name, or stands in it in whatever
/// case.
pub open spec fn is_hit(name: Seq<char>, query: Seq<char>) -> bool {
    query.len() == 0 || name == query || is_part(lowercase(query), lowercase(name))
}

proof fn lemma_is_part(part: Seq<char>, text: Seq<char>)
    ensures
        occurs_in(text, part) <==> is_part(part, text),
{
    if occurs_in(text, part) {
        let at = choose|at: int| stands_at(text, part, at);
        let (x, y) = (text.take(at), text.skip(at + part.len()));
        assert(text =~= x + part + y);
    }
    if is_part(part, text) {
        let (x, y) = choose|x: Seq<char>, y: Seq<char>| text == #[trigger] (x + part + y);
        let at = x.len() as int;
        assert(text.subrange(at, at + part.len()) =~= part);
        assert(stands_at(text, part, at));
    }
}

/// A name is matched if and only if the query is empty, is the name, or stands anywhere
/// in it in whatever case; exactly, if and only if the query is empty or is the name.
pub proof fn a_query_finds_it_anywhere_in_a_name(name: Seq<char>, query: Seq<char>)
    ensures
        tier_of(name, query) is Some <==> is_hit(name, query),
        tier_of(name, query) == Some(MatchTier::Exact) <==> query.len() == 0 || name == query,
        forall|x: Seq<char>, y: Seq<char>|
            lowercase(name) == #[trigger] (x + lowercase(query) + y) ==> tier_of(name, query) is Some,
{
    lemma_is_part(lowercase(query), lowercase(name));
    assert forall|x: Seq<char>, y: Seq<char>|
        lowercase(name) == #[trigger] (x + lowercase(query) + y) implies tier_of(
        name,
        query,
    ) is Some by {
        assert(is_part(lowercase(query), lowercase(name)));
    }
}

/// One match does not come after another: exact before part, then by path, byte, name
/// and id.
pub open spec fn not_after(x: Symbol, y: Symbol, query: Seq<char>) -> bool {
    let exact = |s: Symbol| query.len() == 0 || s.name@ == query;
    &&& exact(y) ==> exact(x)
    &&& exact(x) == exact(y) ==> !path_precedes(y.file_path@, x.file_path@)
    &&& exact(x) == exact(y) && x.file_path@ == y.file_path@ ==> x.source_range.byte_start
        <= y.source_range.byte_start
    &&& exact(x) == exact(y) && x.file_path@ == y.file_path@ && x.source_range.byte_start
        == y.source_range.byte_start ==> !text_precedes(y.name@, x.name@)
    &&& exact(x) == exact(y) && x.file_path@ == y.file_path@ && x.source_range.byte_start
        == y.source_range.byte_start && x.name@ == y.name@ ==> x.id <= y.id
}

proof fn lemma_not_after(x: Symbol, y: Symbol, query: Seq<char>)
    requires
        !match_key(y, query).precedes(&match_key(x, query)),
        tier_of(x.name@, query) is Some,
        tier_of(y.name@, query) is Some,
    ensures
        not_after(x, y, query),
{
    crate::path::lemma_path_level(x.file_path@, y.file_path@);
    crate::path::lemma_path_asymmetric(x.file_path@, y.file_path@);
    crate::order::lemma_text_level(x.name@, y.name@);
    crate::order::lemma_text_asymmetric(x.name@, y.name@);
    a_query_finds_it_anywhere_in_a_name(x.name@, query);
    a_query_finds_it_anywhere_in_a_name(y.name@, query);
}

/// The places of the symbols that match: every place of a file at which one stands that
/// does, each once.
pub open spec fn are_the_hits(a: Analysis, query: Seq<char>, from: Seq<(int, int)>) -> bool {
    &&& forall|k: int|
        0 <= k < from.len() ==> declares(a, (#[trigger] from[k]).0, from[k].1) && is_hit(
            a.extractions@[from[k].0].symbols@[from[k].1].name@,
            query,
        )
    &&& forall|file: int, at: int| #[trigger]
        declares(a, file, at) && is_hit(a.extractions@[file].symbols@[at].name@, query)
            ==> from.contains((file, at))
    &&& forall|i: int, j: int| 0 <= i < j < from.len() ==> #[trigger] from[i] != #[trigger] from[j]
}

/// The matches of a query are the symbols of the workspace that it hits, every one, in
/// order.
pub proof fn matches_are_every_hit(a: Analysis, query: Seq<char>) -> (from: Seq<(int, int)>)
    ensures
        are_the_hits(a, query, from),
        ordered_matches(a, query).len() == from.len(),
        forall|k: int|
            0 <= k < from.len() ==> #[trigger] ordered_matches(a, query)[k]
                == a.extractions@[from[k].0].symbols@[from[k].1],
        forall|i: int, j: int|
            0 <= i < j < from.len() ==> not_after(
                #[trigger] ordered_matches(a, query)[i],
                #[trigger] ordered_matches(a, query)[j],
                query,
            ),
{
    let slots = symbol_slots(a.extractions@);
    let symbols = all_symbols(a);
    let p = is_match(symbols, query);
    let n = symbols.len() as int;
    let places = places_where(n, p);
    let found = matching(a, query);
    let keys = found.map_values(|symbol: Symbol| match_key(symbol, query));
    let order = stable_order(keys);
    let all = ordered_matches(a, query);
    lemma_places_where(n, p);
    super::findings::symbol_places_are_ordered(a);
    stable_sort_is_a_stable_permutation(keys);
    lemma_stable_prefix(keys, keys.len() as int);
    let from = Seq::new(order.len(), |k: int| slots[places[order[k]]]);
    assert forall|k: int| 0 <= k < from.len() implies declares(a, (#[trigger] from[k]).0, from[k].1)
        && is_hit(a.extractions@[from[k].0].symbols@[from[k].1].name@, query) && all[k]
        == a.extractions@[from[k].0].symbols@[from[k].1] by {
        assert(0 <= order[k] < found.len());
        let place = places[order[k]];
        assert(p(place));
        a_query_finds_it_anywhere_in_a_name(symbols[place].name@, query);
        assert(found[order[k]] == symbols[place]);
    }
    assert forall|file: int, at: int| #[trigger]
        declares(a, file, at) && is_hit(a.extractions@[file].symbols@[at].name@, query) implies from.contains(
        (file, at),
    ) by {
        assert(slots.contains((file, at)));
        let place = choose|place: int| 0 <= place < slots.len() && slots[place] == (file, at);
        a_query_finds_it_anywhere_in_a_name(symbols[place].name@, query);
        assert(p(place));
        assert(places.contains(place));
        let m = choose|m: int| 0 <= m < places.len() && places[m] == place;
        assert(order.contains(m));
        let k = choose|k: int| 0 <= k < order.len() && order[k] == m;
        assert(from[k] == (file, at));
    }
    assert forall|i: int, j: int| 0 <= i < j < from.len() implies #[trigger] from[i]
        != #[trigger] from[j] by {
        let (x, y) = (order[i], order[j]);
        assert(x != y);
        assert(0 <= x < found.len() && 0 <= y < found.len());
        if x < y {
            assert(places[x] < places[y]);
            let (s, t) = (slots[places[x]], slots[places[y]]);
            assert(is_behind(t.0, t.1, s.0, s.1));
        } else {
            assert(places[y] < places[x]);
            let (s, t) = (slots[places[y]], slots[places[x]]);
            assert(is_behind(t.0, t.1, s.0, s.1));
        }
    }
    assert forall|i: int, j: int| 0 <= i < j < from.len() implies not_after(
        #[trigger] all[i],
        #[trigger] all[j],
        query,
    ) by {
        crate::handlers::symbol::matches_come_in_order(a, query, i, j);
        crate::handlers::symbol::matches_are_complete(a, query);
        lemma_not_after(all[i], all[j], query);
    }
    from
}

/// Places of a list, in ascending order, at which exactly the symbols stand whose path
/// has an address.
pub open spec fn are_the_addressed(symbols: Seq<Symbol>, from: Seq<int>) -> bool {
    &&& forall|m: int| 0 <= m < from.len() ==> 0 <= #[trigger] from[m] < symbols.len()
    &&& forall|m: int, k: int| 0 <= m < k < from.len() ==> #[trigger] from[m] < #[trigger] from[k]
    &&& forall|k: int|
        0 <= k < symbols.len() ==> (uri_of_path((#[trigger] symbols[k]).file_path.spelling()) is Some
            <==> from.contains(k))
}

proof fn lemma_addressed(symbols: Seq<Symbol>) -> (from: Seq<int>)
    ensures
        are_the_addressed(symbols, from),
        addressed(symbols).len() == from.len(),
        forall|m: int| 0 <= m < from.len() ==> #[trigger] addressed(symbols)[m] == symbols[from[m]],
    decreases symbols.len(),
{
    if symbols.len() == 0 {
        Seq::empty()
    } else {
        let rest = symbols.drop_last();
        let before = lemma_addressed(rest);
        let last = symbols.len() - 1;
        let from = if uri_of_path(symbols[last].file_path.spelling()) is Some {
            before.push(last)
        } else {
            before
        };
        assert forall|k: int| 0 <= k < symbols.len() implies (uri_of_path(
            (#[trigger] symbols[k]).file_path.spelling(),
        ) is Some <==> from.contains(k)) by {
            if k < rest.len() {
                assert(rest[k] == symbols[k]);
                if before.contains(k) {
                    let m = choose|m: int| 0 <= m < before.len() && before[m] == k;
                    assert(from[m] == k);
                }
                if from.contains(k) {
                    let m = choose|m: int| 0 <= m < from.len() && from[m] == k;
                    assert(before[m] == k);
                }
            } else {
                if from.len() > before.len() {
                    assert(from[before.len() as int] == k);
                }
                if from.contains(k) {
                    let m = choose|m: int| 0 <= m < from.len() && from[m] == k;
                    if m < before.len() {
                        assert(before[m] < rest.len());
                    }
                }
            }
        }
        assert forall|m: int| 0 <= m < from.len() implies #[trigger] addressed(symbols)[m]
            == symbols[from[m]] by {
            if m < before.len() {
                assert(from[m] == before[m]);
                assert(addressed(rest)[m] == rest[before[m]]);
            }
        }
        from
    }
}

/// A workspace symbol answer shows, of the first five hundred and twelve symbols that
/// the query hits, all whose path has an address, in their order: each by its name and
/// kind, at its file and range.
pub proof fn workspace_symbols_show_every_hit(
    entries: Seq<WorkspaceSymbol>,
    a: Analysis,
    texts: Texts,
    query: Seq<char>,
    encoding: Encoding,
) -> (r: (Seq<(int, int)>, Seq<int>))
    requires
        shows_workspace_symbols(
            entries,
            texts,
            addressed(
                crate::handlers::symbol::capped(
                    ordered_matches(a, query),
                    CAP_WORKSPACE_SYMBOLS as nat,
                ),
            ),
            encoding,
        ),
    ensures
        ({
            let (hits, from) = r;
            let total = if hits.len() <= 512 {
                hits.len() as int
            } else {
                512
            };
            let symbols = Seq::new(
                total as nat,
                |k: int| a.extractions@[hits[k].0].symbols@[hits[k].1],
            );
            &&& are_the_hits(a, query, hits)
            &&& forall|i: int, j: int|
                0 <= i < j < total ==> not_after(#[trigger] symbols[i], #[trigger] symbols[j], query)
            &&& are_the_addressed(symbols, from)
            &&& entries.len() == from.len()
            &&& forall|m: int|
                0 <= m < entries.len() ==> {
                    let entry = #[trigger] entries[m];
                    let symbol = symbols[from[m]];
                    &&& entry.name@ == symbol.name@
                    &&& entry.kind == kinds_of(symbol.kind).0
                    &&& shows_location(
                        entry.location,
                        texts,
                        symbol.file_path,
                        symbol.source_range,
                        encoding,
                    )
                }
        }),
{
    let hits = matches_are_every_hit(a, query);
    let total = if hits.len() <= 512 {
        hits.len() as int
    } else {
        512
    };
    let symbols = Seq::new(total as nat, |k: int| a.extractions@[hits[k].0].symbols@[hits[k].1]);
    let first = crate::handlers::symbol::capped(
        ordered_matches(a, query),
        CAP_WORKSPACE_SYMBOLS as nat,
    );
    assert(first =~= symbols) by {
        assert forall|k: int| 0 <= k < total implies first[k] == symbols[k] by {
            assert(ordered_matches(a, query)[k] == a.extractions@[hits[k].0].symbols@[hits[k].1]);
        }
    }
    assert forall|i: int, j: int| 0 <= i < j < total implies not_after(
        #[trigger] symbols[i],
        #[trigger] symbols[j],
        query,
    ) by {
        assert(symbols[i] == ordered_matches(a, query)[i]);
        assert(symbols[j] == ordered_matches(a, query)[j]);
    }
    let from = lemma_addressed(symbols);
    assert forall|m: int| 0 <= m < entries.len() implies {
        let entry = #[trigger] entries[m];
        let symbol = symbols[from[m]];
        &&& entry.name@ == symbol.name@
        &&& entry.kind == kinds_of(symbol.kind).0
        &&& shows_location(entry.location, texts, symbol.file_path, symbol.source_range, encoding)
    } by {
        assert(addressed(symbols)[m] == symbols[from[m]]);
    }
    (hits, from)
}

// ---------------------------------------------------------------------------
// Document symbols and diagnostics

/// The document symbols of an address are the symbols of the last extraction of its path,
/// every one, in their order: each by name, kind and signature, with its range and the
/// range of its name.
pub proof fn document_symbols_show_every_symbol(
    entries: Seq<DocumentSymbol>,
    a: Analysis,
    texts: Texts,
    uri: Seq<char>,
    encoding: Encoding,
)
    requires
        shows_symbols(entries, texts, symbols_in(a, uri), encoding),
    ensures
        uri_parts(uri) is None ==> entries.len() == 0,
        uri_parts(uri) matches Some(path) ==> {
            &&& (forall|f: int|
                0 <= f < a.extractions@.len() ==> (#[trigger] a.extractions@[f]).path@ != path)
                ==> entries.len() == 0
            &&& forall|f: int|
                0 <= f < a.extractions@.len() && (#[trigger] a.extractions@[f]).path@ == path && (
                forall|g: int|
                    f < g < a.extractions@.len() ==> (#[trigger] a.extractions@[g]).path@ != path)
                    ==> shows_all(entries, a.extractions@[f].symbols@, texts, encoding)
        },
{
    if let Some(path) = uri_parts(uri) {
        super::findings::a_path_finds_its_extraction(a, path);
        assert forall|f: int|
            0 <= f < a.extractions@.len() && (#[trigger] a.extractions@[f]).path@ == path && (forall|
                g: int,
            |
                f < g < a.extractions@.len() ==> (#[trigger] a.extractions@[g]).path@
                    != path) implies shows_all(
            entries,
            a.extractions@[f].symbols@,
            texts,
            encoding,
        ) by {
            let place = crate::index::file_place(a, path)->0;
            if place < f {
                assert(a.extractions@[f].path@ != path);
            } else if f < place {
                assert(a.extractions@[place].path@ != path);
            }
        }
    }
}

/// Entries show symbols, one for one.
pub open spec fn shows_all(
    entries: Seq<DocumentSymbol>,
    symbols: Seq<Symbol>,
    texts: Texts,
    encoding: Encoding,
) -> bool {
    &&& entries.len() == symbols.len()
    &&& forall|k: int|
        0 <= k < symbols.len() ==> {
            let (entry, symbol) = (entries[k], #[trigger] symbols[k]);
            &&& entry.name@ == symbol.name@
            &&& entry.kind == kinds_of(symbol.kind).0
            &&& optional_text(entry.detail) == optional_text(symbol.signature)
            &&& texts.contains_key(symbol.file_path@)
            &&& entry.range == range_by(texts, symbol.file_path@, symbol.source_range, encoding)
            &&& entry.selection_range == range_by(
                texts,
                symbol.file_path@,
                (match symbol.name_range {
                    Some(name) => name,
                    None => symbol.source_range,
                }),
                encoding,
            )
        }
}

/// The diagnostics of a document are those of its path, every one, in their order: each
/// by its message and severity, over its range or at the head of the file.
pub proof fn diagnostics_show_every_finding(
    shown: Seq<LspDiagnostic>,
    a: Analysis,
    texts: Texts,
    uri: Seq<char>,
    encoding: Encoding,
) -> (from: Seq<int>)
    requires
        shows_diagnostics(shown, texts, diagnostics_about(a, uri), encoding),
    ensures
        uri_parts(uri) is None ==> shown.len() == 0,
        uri_parts(uri) matches Some(path) ==> {
            &&& forall|m: int| 0 <= m < from.len() ==> 0 <= #[trigger] from[m] < a.diagnostics@.len()
            &&& forall|m: int, k: int|
                0 <= m < k < from.len() ==> #[trigger] from[m] < #[trigger] from[k]
            &&& forall|k: int|
                0 <= k < a.diagnostics@.len() ==> ((#[trigger] a.diagnostics@[k]).path@ == path
                    <==> from.contains(k))
            &&& shown.len() == from.len()
            &&& forall|m: int|
                0 <= m < shown.len() ==> {
                    let (diagnostic, own) = (a.diagnostics@[from[m]], #[trigger] shown[m]);
                    &&& own.message@ == diagnostic.message@
                    &&& own.severity == severity_of(diagnostic.severity)
                    &&& own.source@ == "meta-ast"@
                    &&& texts.contains_key(path)
                    &&& own.range == (match (diagnostic.source_range, texts[path]) {
                        (Some(range), Some(text)) => range_in(text, range, encoding),
                        (Some(range), None) => byte_column_range(range),
                        (None, _) => Range {
                            start: Position { line: 0, character: 0 },
                            end: Position { line: 0, character: 1 },
                        },
                    })
                }
        },
{
    match uri_parts(uri) {
        Some(path) => {
            let p = is_about(a.diagnostics@, path);
            let n = a.diagnostics@.len() as int;
            let from = places_where(n, p);
            lemma_places_where(n, p);
            assert forall|k: int| 0 <= k < n implies ((#[trigger] a.diagnostics@[k]).path@ == path
                <==> from.contains(k)) by {
                assert(p(k) == (a.diagnostics@[k].path@ == path));
                if from.contains(k) {
                    let m = choose|m: int| 0 <= m < from.len() && from[m] == k;
                    assert(p(from[m]));
                }
            }
            assert forall|m: int| 0 <= m < shown.len() implies {
                let (diagnostic, own) = (a.diagnostics@[from[m]], #[trigger] shown[m]);
                &&& own.message@ == diagnostic.message@
                &&& own.severity == severity_of(diagnostic.severity)
                &&& own.source@ == "meta-ast"@
                &&& texts.contains_key(path)
                &&& own.range == (match (diagnostic.source_range, texts[path]) {
                    (Some(range), Some(text)) => range_in(text, range, encoding),
                    (Some(range), None) => byte_column_range(range),
                    (None, _) => Range {
                        start: Position { line: 0, character: 0 },
                        end: Position { line: 0, character: 1 },
                    },
                })
            } by {
                assert(p(from[m]));
                assert(shows_by(shown[m], texts, diagnostics_about(a, uri)[m], encoding));
            }
            from
        },
        None => Seq::empty(),
    }
}

} // verus!
