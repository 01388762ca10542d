//! Completion: what is visible from the cursor and begins with what was typed.

use vstd::prelude::*;

use super::findings::{edges_are_read_in_full, has_edge, is_node_of, is_scope_of};
use crate::convert::kinds_of;
use crate::handlers::complete::{
    bucket_of, chosen_offers, completion_offers, first_offers, is_identifier, matches_prefix,
    offer_key, offered, offers_at, ordered_offers, reference_offers, run_before, run_start,
    scope_offers, shows_offers, Offer,
};
use crate::handlers::Texts;
use crate::index::query::innermost_symbol;
use crate::index::{edges_out, symbol_with, Analysis};
use crate::model::{FileExtraction, FileScope, ScopeName, Target};
use crate::order::{
    lemma_stable_prefix, stable_order, stable_sort_is_a_stable_permutation, text_precedes, SortKey,
};
use crate::path::path_precedes;
use crate::protocol::{optional_text, CompletionItem};
use crate::text::{alphanumeric, char_index_at, decimal_text, lowercase};

verus! {

/// The identifier before a cursor is the longest run of identifier characters that ends
/// there.
pub proof fn the_prefix_is_the_identifier_before(s: Seq<char>, end: int)
    requires
        0 <= end <= s.len(),
    ensures
        ({
            let prefix = run_before(s, end);
            let start = end - prefix.len();
            &&& 0 <= start
            &&& prefix == s.subrange(start, end)
            &&& forall|k: int| start <= k < end ==> alphanumeric(#[trigger] s[k]) || s[k] == '_'
            &&& start > 0 ==> !alphanumeric(s[start - 1]) && s[start - 1] != '_'
        }),
    decreases end,
{
    lemma_run(s, end);
}

proof fn lemma_run(s: Seq<char>, end: int)
    requires
        0 <= end <= s.len(),
    ensures
        0 <= run_start(s, end) <= end,
        forall|k: int| run_start(s, end) <= k < end ==> is_identifier(#[trigger] s[k]),
        run_start(s, end) > 0 ==> !is_identifier(s[run_start(s, end) - 1]),
    decreases end,
{
    if end > 0 && is_identifier(s[end - 1]) {
        lemma_run(s, end - 1);
    }
}

/// A text is another with something behind it.
pub open spec fn continues_with(text: Seq<char>, prefix: Seq<char>) -> bool {
    exists|rest: Seq<char>| text == #[trigger] (prefix + rest)
}

/// A name begins with what was typed, in the same case or in whatever case.
pub open spec fn begins(name: Seq<char>, prefix: Seq<char>, case_sensitive: bool) -> bool {
    prefix.len() == 0 || (if case_sensitive {
        continues_with(name, prefix)
    } else {
        continues_with(lowercase(name), lowercase(prefix))
    })
}

proof fn lemma_begins(name: Seq<char>, prefix: Seq<char>, case_sensitive: bool)
    ensures
        matches_prefix(prefix, name, case_sensitive) <==> begins(name, prefix, case_sensitive),
{
    let (x, y) = if case_sensitive {
        (name, prefix)
    } else {
        (lowercase(name), lowercase(prefix))
    };
    if y.len() <= x.len() && x.take(y.len() as int) == y {
        assert(x =~= y + x.skip(y.len() as int));
    }
    if continues_with(x, y) {
        let rest = choose|rest: Seq<char>| x == #[trigger] (y + rest);
        assert(x.take(y.len() as int) =~= y);
    }
}

/// A name in scope that begins with what was typed lists a target.
pub open spec fn in_scope(
    scope: FileScope,
    prefix: Seq<char>,
    case_sensitive: bool,
    offer: Offer,
) -> bool {
    exists|n: int, t: int| #[trigger] is_entry(scope, prefix, case_sensitive, offer, n, t)
}

/// The target at a place of an entry of a scope makes an offer.
pub open spec fn is_entry(
    scope: FileScope,
    prefix: Seq<char>,
    case_sensitive: bool,
    offer: Offer,
    n: int,
    t: int,
) -> bool {
    &&& 0 <= n < scope.names@.len()
    &&& 0 <= t < scope.names@[n].targets@.len()
    &&& begins(scope.names@[n].name@, prefix, case_sensitive)
    &&& offer.name@ == scope.names@[n].name@
    &&& offer.target == scope.names@[n].targets@[t]
}

/// The symbol around the cursor has an edge to a symbol whose name begins with what was
/// typed.
pub open spec fn is_referenced(
    a: Analysis,
    file: FileExtraction,
    byte: usize,
    prefix: Seq<char>,
    case_sensitive: bool,
    offer: Offer,
) -> bool {
    &&& innermost_symbol(file, byte) matches Some(enclosing) && has_edge(a, enclosing.id, offer.target)
    &&& symbol_with(a, offer.target.id) matches Some(symbol) && offer.name@ == symbol.name@ && begins(
        symbol.name@,
        prefix,
        case_sensitive,
    )
}

/// Something makes an offer at a cursor.
pub open spec fn is_visible(
    a: Analysis,
    file: FileExtraction,
    scope: FileScope,
    byte: usize,
    prefix: Seq<char>,
    case_sensitive: bool,
    offer: Offer,
) -> bool {
    in_scope(scope, prefix, case_sensitive, offer) || is_referenced(
        a,
        file,
        byte,
        prefix,
        case_sensitive,
        offer,
    )
}

/// A list has an offer, by its name and target.
pub open spec fn lists_offer(offers: Seq<Offer>, offer: Offer) -> bool {
    exists|k: int|
        0 <= k < offers.len() && (#[trigger] offers[k]).name@ == offer.name@ && offers[k].target
            == offer.target
}

proof fn lemma_lists_concat(x: Seq<Offer>, y: Seq<Offer>, offer: Offer)
    ensures
        lists_offer(x + y, offer) <==> lists_offer(x, offer) || lists_offer(y, offer),
{
    let all = x + y;
    if lists_offer(all, offer) {
        let k = choose|k: int|
            0 <= k < all.len() && (#[trigger] all[k]).name@ == offer.name@ && all[k].target
                == offer.target;
        if k < x.len() {
            assert(x[k] == all[k]);
        } else {
            assert(y[k - x.len()] == all[k]);
        }
    }
    if lists_offer(x, offer) {
        let k = choose|k: int|
            0 <= k < x.len() && (#[trigger] x[k]).name@ == offer.name@ && x[k].target == offer.target;
        assert(all[k] == x[k]);
    }
    if lists_offer(y, offer) {
        let k = choose|k: int|
            0 <= k < y.len() && (#[trigger] y[k]).name@ == offer.name@ && y[k].target == offer.target;
        assert(all[x.len() + k] == y[k]);
    }
}

proof fn lemma_scope_offers(
    names: Seq<ScopeName>,
    count: int,
    prefix: Seq<char>,
    case_sensitive: bool,
    offer: Offer,
)
    requires
        0 <= count <= names.len(),
    ensures
        lists_offer(scope_offers(names, count, prefix, case_sensitive), offer) <==> exists|
            n: int,
            t: int,
        |
            0 <= n < count && 0 <= t < names[n].targets@.len() && begins(
                names[n].name@,
                prefix,
                case_sensitive,
            ) && offer.name@ == names[n].name@ && offer.target == #[trigger] names[n].targets@[t],
    decreases count,
{
    let all = scope_offers(names, count, prefix, case_sensitive);
    if count > 0 {
        let entry = names[count - 1];
        let before = scope_offers(names, count - 1, prefix, case_sensitive);
        let here = crate::handlers::complete::name_offers(entry, prefix, case_sensitive);
        lemma_scope_offers(names, count - 1, prefix, case_sensitive, offer);
        lemma_begins(entry.name@, prefix, case_sensitive);
        lemma_lists_concat(before, here, offer);
        if lists_offer(here, offer) {
            let t = choose|t: int|
                0 <= t < here.len() && (#[trigger] here[t]).name@ == offer.name@ && here[t].target
                    == offer.target;
            assert(names[count - 1].targets@[t] == offer.target);
        }
        if lists_offer(before, offer) {
            let (n, t) = choose|n: int, t: int|
                0 <= n < count - 1 && 0 <= t < names[n].targets@.len() && begins(
                    names[n].name@,
                    prefix,
                    case_sensitive,
                ) && offer.name@ == names[n].name@ && offer.target == #[trigger] names[n].targets@[t];
            assert(names[n].targets@[t] == offer.target);
        }
        if exists|n: int, t: int|
            0 <= n < count && 0 <= t < names[n].targets@.len() && begins(
                names[n].name@,
                prefix,
                case_sensitive,
            ) && offer.name@ == names[n].name@ && offer.target == #[trigger] names[n].targets@[t] {
            let (n, t) = choose|n: int, t: int|
                0 <= n < count && 0 <= t < names[n].targets@.len() && begins(
                    names[n].name@,
                    prefix,
                    case_sensitive,
                ) && offer.name@ == names[n].name@ && offer.target == #[trigger] names[n].targets@[t];
            if n == count - 1 {
                assert(here[t].target == offer.target);
                assert(lists_offer(here, offer));
            } else {
                assert(names[n].targets@[t] == offer.target);
                assert(lists_offer(before, offer));
            }
        }
    }
}

proof fn lemma_reference_offers(
    a: Analysis,
    references: Seq<Target>,
    count: int,
    prefix: Seq<char>,
    case_sensitive: bool,
    offer: Offer,
)
    requires
        0 <= count <= references.len(),
    ensures
        lists_offer(reference_offers(a, references, count, prefix, case_sensitive), offer) <==> (exists|
            k: int,
        | 0 <= k < count && #[trigger] references[k] == offer.target) && (symbol_with(
            a,
            offer.target.id,
        ) matches Some(symbol) && offer.name@ == symbol.name@ && begins(
            symbol.name@,
            prefix,
            case_sensitive,
        )),
    decreases count,
{
    let all = reference_offers(a, references, count, prefix, case_sensitive);
    if count > 0 {
        let before = reference_offers(a, references, count - 1, prefix, case_sensitive);
        let next = references[count - 1];
        lemma_reference_offers(a, references, count - 1, prefix, case_sensitive, offer);
        if let Some(symbol) = symbol_with(a, next.id) {
            lemma_begins(symbol.name@, prefix, case_sensitive);
        }
        if lists_offer(all, offer) {
            let k = choose|k: int|
                0 <= k < all.len() && (#[trigger] all[k]).name@ == offer.name@ && all[k].target
                    == offer.target;
            if k < before.len() {
                assert(before[k] == all[k]);
                assert(lists_offer(before, offer));
            } else {
                assert(references[count - 1] == offer.target);
            }
        }
        if lists_offer(before, offer) {
            let k = choose|k: int|
                0 <= k < before.len() && (#[trigger] before[k]).name@ == offer.name@
                    && before[k].target == offer.target;
            assert(all[k] == before[k]);
        }
        if exists|k: int| 0 <= k < count && #[trigger] references[k] == offer.target {
            let k = choose|k: int| 0 <= k < count && #[trigger] references[k] == offer.target;
            if k == count - 1 {
                if let Some(symbol) = symbol_with(a, next.id) {
                    if offer.name@ == symbol.name@ && begins(symbol.name@, prefix, case_sensitive) {
                        assert(all[before.len() as int].target == offer.target);
                    }
                }
            }
        }
    }
}

/// What is offered at a cursor is all that is visible there, before repeats are dropped.
pub proof fn everything_visible_is_offered(
    a: Analysis,
    file: FileExtraction,
    scope: FileScope,
    byte: usize,
    prefix: Seq<char>,
    case_sensitive: bool,
    offer: Offer,
)
    ensures
        lists_offer(offers_at(a, file, scope, byte, prefix, case_sensitive), offer) <==> is_visible(
            a,
            file,
            scope,
            byte,
            prefix,
            case_sensitive,
            offer,
        ),
{
    let names = scope.names@;
    let scoped = scope_offers(names, names.len() as int, prefix, case_sensitive);
    lemma_scope_offers(names, names.len() as int, prefix, case_sensitive, offer);
    if in_scope(scope, prefix, case_sensitive, offer) {
        let (n, t) = choose|n: int, t: int| #[trigger]
            is_entry(scope, prefix, case_sensitive, offer, n, t);
        assert(names[n].targets@[t] == offer.target);
    }
    if lists_offer(scoped, offer) {
        let (n, t) = choose|n: int, t: int|
            0 <= n < names.len() && 0 <= t < names[n].targets@.len() && begins(
                names[n].name@,
                prefix,
                case_sensitive,
            ) && offer.name@ == names[n].name@ && offer.target == #[trigger] names[n].targets@[t];
        assert(is_entry(scope, prefix, case_sensitive, offer, n, t));
    }
    if let Some(enclosing) = innermost_symbol(file, byte) {
        let references = edges_out(a, enclosing.id);
        let count = references.len() as int;
        lemma_reference_offers(a, references, count, prefix, case_sensitive, offer);
        lemma_lists_concat(
            scoped,
            reference_offers(a, references, count, prefix, case_sensitive),
            offer,
        );
        edges_are_read_in_full(a, enclosing.id, offer.target);
        if references.contains(offer.target) {
            let k = choose|k: int| 0 <= k < references.len() && references[k] == offer.target;
            assert(references[k] == offer.target);
        }
    }
}

/// A target of a known symbol is visible at a cursor.
pub open spec fn is_offered(
    a: Analysis,
    file: FileExtraction,
    scope: FileScope,
    byte: usize,
    prefix: Seq<char>,
    case_sensitive: bool,
    id: u32,
) -> bool {
    symbol_with(a, id) is Some && exists|offer: Offer|
        offer.target.id == id && #[trigger] is_visible(
            a,
            file,
            scope,
            byte,
            prefix,
            case_sensitive,
            offer,
        )
}

proof fn lemma_first_offers(a: Analysis, offers: Seq<Offer>)
    ensures
        forall|k: int|
            0 <= k < first_offers(a, offers).len() ==> offers.contains(
                #[trigger] first_offers(a, offers)[k],
            ),
    decreases offers.len(),
{
    if offers.len() > 0 {
        let rest = offers.drop_last();
        lemma_first_offers(a, rest);
        let kept = first_offers(a, rest);
        let now = first_offers(a, offers);
        assert forall|k: int| 0 <= k < now.len() implies offers.contains(#[trigger] now[k]) by {
            if k < kept.len() {
                assert(now[k] == kept[k]);
                let i = choose|i: int| 0 <= i < rest.len() && rest[i] == kept[k];
                assert(offers[i] == now[k]);
            } else {
                assert(offers[offers.len() - 1] == now[k]);
            }
        }
    }
}

proof fn lemma_offered(
    a: Analysis,
    file: FileExtraction,
    scope: FileScope,
    byte: usize,
    prefix: Seq<char>,
    case_sensitive: bool,
    id: u32,
)
    ensures
        offered(first_offers(a, offers_at(a, file, scope, byte, prefix, case_sensitive)), id)
            <==> is_offered(a, file, scope, byte, prefix, case_sensitive, id),
{
    let offers = offers_at(a, file, scope, byte, prefix, case_sensitive);
    let first = first_offers(a, offers);
    lemma_first_offers(a, offers);
    crate::handlers::complete::a_target_is_offered_once(a, offers);
    if offered(first, id) {
        let k = choose|k: int| 0 <= k < first.len() && (#[trigger] first[k]).target.id == id;
        let i = choose|i: int| 0 <= i < offers.len() && offers[i] == first[k];
        everything_visible_is_offered(a, file, scope, byte, prefix, case_sensitive, first[k]);
        assert(lists_offer(offers, first[k]));
    }
    if is_offered(a, file, scope, byte, prefix, case_sensitive, id) {
        let offer = choose|offer: Offer|
            offer.target.id == id && #[trigger] is_visible(
                a,
                file,
                scope,
                byte,
                prefix,
                case_sensitive,
                offer,
            );
        everything_visible_is_offered(a, file, scope, byte, prefix, case_sensitive, offer);
        let k = choose|k: int|
            0 <= k < offers.len() && (#[trigger] offers[k]).name@ == offer.name@ && offers[k].target
                == offer.target;
        crate::handlers::complete::every_known_offer_is_kept(a, offers, k);
    }
}

/// Something begins with what was typed, in the same case.
pub open spec fn has_exact(
    a: Analysis,
    file: FileExtraction,
    scope: FileScope,
    byte: usize,
    prefix: Seq<char>,
) -> bool {
    exists|id: u32| is_offered(a, file, scope, byte, prefix, true, id)
}

/// The offers of a request are for exactly the targets that a name in scope or an edge
/// of the symbol around the cursor makes visible: those in the typed case, or where there
/// is none, those in whatever case. Each is for one of these, and no target is offered
/// twice.
pub proof fn chosen_offers_are_the_visible_targets(
    a: Analysis,
    file: FileExtraction,
    scope: FileScope,
    byte: usize,
    prefix: Seq<char>,
)
    ensures
        forall|id: u32|
            offered(chosen_offers(a, file, scope, byte, prefix), id) <==> is_offered(
                a,
                file,
                scope,
                byte,
                prefix,
                has_exact(a, file, scope, byte, prefix),
                id,
            ),
        forall|k: int|
            0 <= k < chosen_offers(a, file, scope, byte, prefix).len() ==> is_visible(
                a,
                file,
                scope,
                byte,
                prefix,
                has_exact(a, file, scope, byte, prefix),
                #[trigger] chosen_offers(a, file, scope, byte, prefix)[k],
            ),
        forall|i: int, j: int|
            0 <= i < j < chosen_offers(a, file, scope, byte, prefix).len() ==> (
            #[trigger] chosen_offers(a, file, scope, byte, prefix)[i]).target.id != (
            #[trigger] chosen_offers(a, file, scope, byte, prefix)[j]).target.id,
{
    let exact = first_offers(a, offers_at(a, file, scope, byte, prefix, true));
    let chosen = chosen_offers(a, file, scope, byte, prefix);
    let case_sensitive = has_exact(a, file, scope, byte, prefix);
    if exact.len() > 0 {
        assert(offered(exact, exact[0].target.id));
        lemma_offered(a, file, scope, byte, prefix, true, exact[0].target.id);
    }
    if case_sensitive {
        let id = choose|id: u32| is_offered(a, file, scope, byte, prefix, true, id);
        lemma_offered(a, file, scope, byte, prefix, true, id);
    }
    assert(case_sensitive <==> exact.len() > 0);
    let offers = offers_at(a, file, scope, byte, prefix, case_sensitive);
    assert(chosen == first_offers(a, offers));
    assert forall|id: u32| offered(chosen, id) <==> is_offered(
        a,
        file,
        scope,
        byte,
        prefix,
        case_sensitive,
        id,
    ) by {
        lemma_offered(a, file, scope, byte, prefix, case_sensitive, id);
    }
    lemma_first_offers(a, offers);
    crate::handlers::complete::a_target_is_offered_once(a, offers);
    assert forall|k: int| 0 <= k < chosen.len() implies is_visible(
        a,
        file,
        scope,
        byte,
        prefix,
        case_sensitive,
        #[trigger] chosen[k],
    ) by {
        let i = choose|i: int| 0 <= i < offers.len() && offers[i] == chosen[k];
        assert(lists_offer(offers, chosen[k]));
        everything_visible_is_offered(a, file, scope, byte, prefix, case_sensitive, chosen[k]);
    }
}

/// One entry of a scope stands before another: an earlier name, or an earlier target of
/// the name.
pub open spec fn is_earlier(n: int, t: int, m: int, u: int) -> bool {
    n < m || n == m && t < u
}

/// The first entry of a scope that makes a target visible.
pub open spec fn is_first_entry(
    scope: FileScope,
    prefix: Seq<char>,
    case_sensitive: bool,
    offer: Offer,
    n: int,
    t: int,
) -> bool {
    &&& is_entry(scope, prefix, case_sensitive, offer, n, t)
    &&& forall|other: Offer, m: int, u: int| #[trigger]
        is_entry(scope, prefix, case_sensitive, other, m, u) && other.target.id == offer.target.id
            ==> !is_earlier(m, u, n, t)
}

/// The first edge from a symbol to the one with an id.
pub open spec fn is_first_edge(a: Analysis, source: u32, target: Target, e: int) -> bool {
    &&& 0 <= e < a.edges@.len()
    &&& a.edges@[e].source == source && a.edges@[e].target == target
    &&& forall|d: int|
        0 <= d < e && (#[trigger] a.edges@[d]).source == source ==> a.edges@[d].target.id != target.id
}

spec fn scope_slots(names: Seq<ScopeName>, count: int, prefix: Seq<char>, case_sensitive: bool) -> Seq<
    (int, int),
>
    decreases count,
{
    if count <= 0 {
        Seq::empty()
    } else {
        let before = scope_slots(names, count - 1, prefix, case_sensitive);
        if matches_prefix(prefix, names[count - 1].name@, case_sensitive) {
            before + Seq::new(names[count - 1].targets@.len(), |t: int| (count - 1, t))
        } else {
            before
        }
    }
}

proof fn lemma_scope_slots(names: Seq<ScopeName>, count: int, prefix: Seq<char>, case_sensitive: bool)
    requires
        0 <= count <= names.len(),
    ensures
        ({
            let slots = scope_slots(names, count, prefix, case_sensitive);
            let offers = scope_offers(names, count, prefix, case_sensitive);
            &&& slots.len() == offers.len()
            &&& forall|k: int|
                0 <= k < slots.len() ==> {
                    let (n, t) = #[trigger] slots[k];
                    &&& 0 <= n < count && 0 <= t < names[n].targets@.len()
                    &&& matches_prefix(prefix, names[n].name@, case_sensitive)
                    &&& offers[k] == (Offer { name: names[n].name, target: names[n].targets@[t] })
                }
            &&& forall|j: int, k: int|
                0 <= j < k < slots.len() ==> {
                    let (x, y) = (#[trigger] slots[j], #[trigger] slots[k]);
                    is_earlier(x.0, x.1, y.0, y.1)
                }
        }),
    decreases count,
{
    if count > 0 {
        lemma_scope_slots(names, count - 1, prefix, case_sensitive);
        let slots = scope_slots(names, count, prefix, case_sensitive);
        let before = scope_slots(names, count - 1, prefix, case_sensitive);
        let offers = scope_offers(names, count, prefix, case_sensitive);
        let less = scope_offers(names, count - 1, prefix, case_sensitive);
        assert forall|k: int| 0 <= k < slots.len() implies {
            let (n, t) = #[trigger] slots[k];
            &&& 0 <= n < count && 0 <= t < names[n].targets@.len()
            &&& matches_prefix(prefix, names[n].name@, case_sensitive)
            &&& offers[k] == (Offer { name: names[n].name, target: names[n].targets@[t] })
        } by {
            if k < before.len() {
                assert(slots[k] == before[k]);
                assert(offers[k] == less[k]);
            }
        }
        assert forall|j: int, k: int| 0 <= j < k < slots.len() implies {
            let (x, y) = (#[trigger] slots[j], #[trigger] slots[k]);
            is_earlier(x.0, x.1, y.0, y.1)
        } by {
            if k < before.len() {
                assert(slots[j] == before[j] && slots[k] == before[k]);
            } else if j < before.len() {
                assert(slots[j] == before[j]);
            }
        }
    }
}

spec fn edge_slots(
    a: Analysis,
    references: Seq<Target>,
    count: int,
    prefix: Seq<char>,
    case_sensitive: bool,
) -> Seq<int>
    decreases count,
{
    if count <= 0 {
        Seq::empty()
    } else {
        let before = edge_slots(a, references, count - 1, prefix, case_sensitive);
        if symbol_with(a, references[count - 1].id) matches Some(symbol) && matches_prefix(
            prefix,
            symbol.name@,
            case_sensitive,
        ) {
            before.push(count - 1)
        } else {
            before
        }
    }
}

proof fn lemma_edge_slots(
    a: Analysis,
    references: Seq<Target>,
    count: int,
    prefix: Seq<char>,
    case_sensitive: bool,
)
    requires
        0 <= count <= references.len(),
    ensures
        ({
            let slots = edge_slots(a, references, count, prefix, case_sensitive);
            let offers = reference_offers(a, references, count, prefix, case_sensitive);
            &&& slots.len() == offers.len()
            &&& forall|k: int|
                0 <= k < slots.len() ==> 0 <= #[trigger] slots[k] < count && offers[k].target
                    == references[slots[k]]
            &&& forall|j: int, k: int|
                0 <= j < k < slots.len() ==> #[trigger] slots[j] < #[trigger] slots[k]
            &&& forall|i: int|
                0 <= i < count && (symbol_with(a, (#[trigger] references[i]).id) matches Some(symbol)
                    && matches_prefix(prefix, symbol.name@, case_sensitive)) ==> slots.contains(i)
        }),
    decreases count,
{
    if count > 0 {
        lemma_edge_slots(a, references, count - 1, prefix, case_sensitive);
        let slots = edge_slots(a, references, count, prefix, case_sensitive);
        let before = edge_slots(a, references, count - 1, prefix, case_sensitive);
        let offers = reference_offers(a, references, count, prefix, case_sensitive);
        let less = reference_offers(a, references, count - 1, prefix, case_sensitive);
        assert forall|k: int| 0 <= k < slots.len() implies 0 <= #[trigger] slots[k] < count
            && offers[k].target == references[slots[k]] by {
            if k < before.len() {
                assert(slots[k] == before[k] && offers[k] == less[k]);
            }
        }
        assert forall|i: int|
            0 <= i < count && (symbol_with(a, (#[trigger] references[i]).id) matches Some(symbol)
                && matches_prefix(prefix, symbol.name@, case_sensitive)) implies slots.contains(i) by {
            if i < count - 1 {
                assert(before.contains(i));
                let k = choose|k: int| 0 <= k < before.len() && before[k] == i;
                assert(slots[k] == i);
            } else {
                assert(slots[before.len() as int] == i);
            }
        }
    }
}

proof fn lemma_first_mention(a: Analysis, offers: Seq<Offer>, k: int) -> (p: int)
    requires
        0 <= k < first_offers(a, offers).len(),
    ensures
        0 <= p < offers.len(),
        offers[p] == first_offers(a, offers)[k],
        symbol_with(a, offers[p].target.id) is Some,
        forall|q: int| 0 <= q < p ==> (#[trigger] offers[q]).target.id != offers[p].target.id,
    decreases offers.len(),
{
    let rest = offers.drop_last();
    let kept = first_offers(a, rest);
    if k < kept.len() {
        let p = lemma_first_mention(a, rest, k);
        assert forall|q: int| 0 <= q < p implies (#[trigger] offers[q]).target.id
            != offers[p].target.id by {
            assert(rest[q] == offers[q]);
        }
        p
    } else {
        let p = offers.len() - 1;
        let id = offers[p].target.id;
        assert forall|q: int| 0 <= q < p implies (#[trigger] offers[q]).target.id != id by {
            if offers[q].target.id == id {
                assert(rest[q] == offers[q]);
                crate::handlers::complete::every_known_offer_is_kept(a, rest, q);
            }
        }
        p
    }
}

/// A target that several names or edges make visible is offered for the first of them: a
/// name in scope before an edge, names and edges in their order.
pub proof fn the_first_mention_is_offered(
    a: Analysis,
    file: FileExtraction,
    scope: FileScope,
    byte: usize,
    prefix: Seq<char>,
    k: int,
)
    requires
        0 <= k < chosen_offers(a, file, scope, byte, prefix).len(),
    ensures
        ({
            let case_sensitive = has_exact(a, file, scope, byte, prefix);
            let chosen = chosen_offers(a, file, scope, byte, prefix)[k];
            ||| exists|n: int, t: int| #[trigger]
                is_first_entry(scope, prefix, case_sensitive, chosen, n, t)
            ||| {
                &&& forall|other: Offer| #[trigger]
                    in_scope(scope, prefix, case_sensitive, other) ==> other.target.id
                        != chosen.target.id
                &&& innermost_symbol(file, byte) matches Some(enclosing) && exists|e: int| #[trigger]
                    is_first_edge(a, enclosing.id, chosen.target, e)
            }
        }),
{
    chosen_offers_are_the_visible_targets(a, file, scope, byte, prefix);
    let case_sensitive = has_exact(a, file, scope, byte, prefix);
    let exact = first_offers(a, offers_at(a, file, scope, byte, prefix, true));
    if exact.len() > 0 {
        assert(offered(exact, exact[0].target.id));
        lemma_offered(a, file, scope, byte, prefix, true, exact[0].target.id);
    }
    if case_sensitive {
        let id = choose|id: u32| is_offered(a, file, scope, byte, prefix, true, id);
        lemma_offered(a, file, scope, byte, prefix, true, id);
    }
    let offers = offers_at(a, file, scope, byte, prefix, case_sensitive);
    let chosen = chosen_offers(a, file, scope, byte, prefix)[k];
    let p = lemma_first_mention(a, offers, k);
    let names = scope.names@;
    let count = names.len() as int;
    let scoped = scope_offers(names, count, prefix, case_sensitive);
    let slots = scope_slots(names, count, prefix, case_sensitive);
    lemma_scope_slots(names, count, prefix, case_sensitive);
    assert forall|other: Offer, m: int, u: int| #[trigger]
        is_entry(scope, prefix, case_sensitive, other, m, u) implies exists|q: int|
        0 <= q < slots.len() && #[trigger] slots[q] == (m, u) by {
        lemma_begins(names[m].name@, prefix, case_sensitive);
        lemma_scope_slot_found(names, count, prefix, case_sensitive, m, u);
    }
    if p < scoped.len() {
        assert(offers[p] == scoped[p]);
        let (n, t) = slots[p];
        lemma_begins(names[n].name@, prefix, case_sensitive);
        assert(is_entry(scope, prefix, case_sensitive, chosen, n, t));
        assert forall|other: Offer, m: int, u: int| #[trigger]
            is_entry(scope, prefix, case_sensitive, other, m, u) && other.target.id
                == chosen.target.id implies !is_earlier(m, u, n, t) by {
            let q = choose|q: int| 0 <= q < slots.len() && #[trigger] slots[q] == (m, u);
            assert(scoped[q].target == other.target);
            assert(offers[q] == scoped[q]);
            if q < p {
                assert(offers[q].target.id != offers[p].target.id);
            } else if p < q {
                assert(is_earlier(slots[p].0, slots[p].1, slots[q].0, slots[q].1));
            }
        }
        assert(is_first_entry(scope, prefix, case_sensitive, chosen, n, t));
    } else {
        assert forall|other: Offer| #[trigger]
            in_scope(scope, prefix, case_sensitive, other) implies other.target.id
            != chosen.target.id by {
            let (m, u) = choose|m: int, u: int| #[trigger]
                is_entry(scope, prefix, case_sensitive, other, m, u);
            let q = choose|q: int| 0 <= q < slots.len() && #[trigger] slots[q] == (m, u);
            assert(offers[q] == scoped[q]);
            assert(offers[q].target.id != offers[p].target.id);
        }
        let enclosing = innermost_symbol(file, byte)->0;
        let references = edges_out(a, enclosing.id);
        let total = references.len() as int;
        let referenced = reference_offers(a, references, total, prefix, case_sensitive);
        let edges = edge_slots(a, references, total, prefix, case_sensitive);
        lemma_edge_slots(a, references, total, prefix, case_sensitive);
        lemma_reference_offers(a, references, total, prefix, case_sensitive, chosen);
        let at = p - scoped.len();
        assert(referenced[at] == chosen);
        assert(lists_offer(referenced, chosen));
        assert(symbol_with(a, chosen.target.id) is Some);
        lemma_begins(symbol_with(a, chosen.target.id)->0.name@, prefix, case_sensitive);
        let i = edges[at];
        assert(references[i] == chosen.target);
        assert forall|h: int| 0 <= h < i implies (#[trigger] references[h]).id != chosen.target.id by {
            if references[h].id == chosen.target.id {
                assert(edges.contains(h));
                let q = choose|q: int| 0 <= q < edges.len() && edges[q] == h;
                if q >= at {
                    if at < q {
                        assert(edges[at] < edges[q]);
                    }
                }
                assert(q < at);
                assert(referenced[q].target == references[h]);
                assert(offers[scoped.len() + q] == referenced[q]);
                assert(offers[scoped.len() + q].target.id != offers[p].target.id);
            }
        }
        let own = super::findings::starts_at(a.edges@, enclosing.id);
        let n = a.edges@.len() as int;
        let found = crate::lookup::places_where(n, own);
        super::findings::edges_stand_in_order(a, enclosing.id);
        crate::lookup::lemma_places_where(n, own);
        let e = found[i];
        assert(a.edges@[e].target == references[i]);
        assert forall|d: int| 0 <= d < e && (#[trigger] a.edges@[d]).source
            == enclosing.id implies a.edges@[d].target.id != chosen.target.id by {
            assert(own(d));
            assert(found.contains(d));
            let h = choose|h: int| 0 <= h < found.len() && found[h] == d;
            if i < h {
                assert(found[i] < found[h]);
            }
            assert(h < i);
            assert(references[h] == a.edges@[d].target);
        }
        assert(own(e));
        assert(is_first_edge(a, enclosing.id, chosen.target, e));
    }
}

proof fn lemma_scope_slot_found(
    names: Seq<ScopeName>,
    count: int,
    prefix: Seq<char>,
    case_sensitive: bool,
    m: int,
    u: int,
)
    requires
        0 <= m < count <= names.len(),
        0 <= u < names[m].targets@.len(),
        matches_prefix(prefix, names[m].name@, case_sensitive),
    ensures
        exists|q: int|
            0 <= q < scope_slots(names, count, prefix, case_sensitive).len()
                && #[trigger] scope_slots(names, count, prefix, case_sensitive)[q] == (m, u),
    decreases count,
{
    let slots = scope_slots(names, count, prefix, case_sensitive);
    let before = scope_slots(names, count - 1, prefix, case_sensitive);
    if m < count - 1 {
        lemma_scope_slot_found(names, count - 1, prefix, case_sensitive, m, u);
        let q = choose|q: int| 0 <= q < before.len() && #[trigger] before[q] == (m, u);
        assert(slots[q] == (m, u));
    } else {
        assert(slots[before.len() + u] == (m, u));
    }
}

/// One offer does not come after another: by tier, label, path, byte and id.
pub open spec fn not_after(a: Analysis, x: Offer, y: Offer) -> bool {
    let (sx, sy) = (symbol_with(a, x.target.id)->0, symbol_with(a, y.target.id)->0);
    let (tx, ty) = (bucket_of(x.target.confidence.tier), bucket_of(y.target.confidence.tier));
    &&& tx <= ty
    &&& tx == ty ==> !text_precedes(y.name@, x.name@)
    &&& tx == ty && x.name@ == y.name@ ==> !path_precedes(sy.file_path@, sx.file_path@)
    &&& tx == ty && x.name@ == y.name@ && sx.file_path@ == sy.file_path@
        ==> sx.source_range.byte_start <= sy.source_range.byte_start
    &&& tx == ty && x.name@ == y.name@ && sx.file_path@ == sy.file_path@
        && sx.source_range.byte_start == sy.source_range.byte_start ==> x.target.id <= y.target.id
}

/// A completion answer shows, up to a thousand, exactly the chosen offers for the
/// identifier before the cursor in the scope of the file, ordered by tier, label and
/// declaration; each with the label, kind, detail and keys of its target. A file without
/// a text, a graph id or a scope gets none.
pub proof fn completion_shows_the_chosen_offers(
    items: Seq<CompletionItem>,
    a: Analysis,
    texts: Texts,
    file: FileExtraction,
    byte: usize,
    i: int,
    s: int,
) -> (offers: Seq<Offer>)
    requires
        shows_offers(items, a, completion_offers(a, texts, file, byte)),
    ensures
        texts[file.path@] is None ==> items.len() == 0,
        (forall|k: int| !#[trigger] is_node_of(a, file.path@, k)) ==> items.len() == 0,
        is_node_of(a, file.path@, i) && (forall|k: int| !#[trigger] is_scope_of(a, a.files@[i].id, k))
            ==> items.len() == 0,
        is_node_of(a, file.path@, i) && is_scope_of(a, a.files@[i].id, s) ==> (texts[file.path@]
            matches Some(text) ==> {
            let prefix = run_before(text, char_index_at(text, byte as int));
            let chosen = chosen_offers(a, file, a.scope@[s], byte, prefix);
            &&& offers.len() == chosen.len()
            &&& forall|k: int| 0 <= k < chosen.len() ==> offers.contains(#[trigger] chosen[k])
            &&& forall|k: int| 0 <= k < offers.len() ==> chosen.contains(#[trigger] offers[k])
            &&& forall|m: int, k: int|
                0 <= m < k < offers.len() ==> not_after(
                    a,
                    #[trigger] offers[m],
                    #[trigger] offers[k],
                )
            &&& items.len() == (if offers.len() <= 1000 {
                offers.len() as int
            } else {
                1000
            })
            &&& forall|k: int|
                0 <= k < items.len() ==> {
                    let item = #[trigger] items[k];
                    let symbol = symbol_with(a, offers[k].target.id)->0;
                    let tier = bucket_of(offers[k].target.confidence.tier);
                    &&& item.label@ == offers[k].name@
                    &&& item.filter_text@ == offers[k].name@
                    &&& item.kind == kinds_of(symbol.kind).1
                    &&& optional_text(item.detail) == optional_text(symbol.signature)
                    &&& item.sort_text@ == decimal_text(tier as nat) + offers[k].name@
                }
        }),
{
    super::findings::a_path_finds_its_graph_id(a, file.path@);
    if is_node_of(a, file.path@, i) {
        super::findings::a_file_finds_its_scope(a, a.files@[i].id);
    }
    match texts[file.path@] {
        Some(text) => {
            if is_node_of(a, file.path@, i) && is_scope_of(a, a.files@[i].id, s) {
                super::findings::a_path_finds_its_graph_id(a, file.path@);
                super::findings::a_file_finds_its_scope(a, a.files@[i].id);
                let prefix = run_before(text, char_index_at(text, byte as int));
                let chosen = chosen_offers(a, file, a.scope@[s], byte, prefix);
                let offers = ordered_offers(a, chosen);
                let keys = chosen.map_values(|offer: Offer| offer_key(a, offer));
                let order = stable_order(keys);
                stable_sort_is_a_stable_permutation(keys);
                lemma_stable_prefix(keys, keys.len() as int);
                assert forall|k: int| 0 <= k < chosen.len() implies offers.contains(
                    #[trigger] chosen[k],
                ) by {
                    crate::handlers::complete::ordering_keeps_every_offer(a, chosen, k);
                }
                assert forall|k: int| 0 <= k < offers.len() implies chosen.contains(
                    #[trigger] offers[k],
                ) by {
                    assert(0 <= order[k] < chosen.len());
                    assert(offers[k] == chosen[order[k]]);
                }
                assert forall|m: int, k: int| 0 <= m < k < offers.len() implies not_after(
                    a,
                    #[trigger] offers[m],
                    #[trigger] offers[k],
                ) by {
                    crate::handlers::complete::offers_come_in_order(a, chosen, m, k);
                    let (x, y) = (offers[m], offers[k]);
                    let (kx, ky) = (offer_key(a, x), offer_key(a, y));
                    assert(!ky.precedes(&kx));
                    crate::order::lemma_text_asymmetric(x.name@, y.name@);
                    crate::order::lemma_text_level(x.name@, y.name@);
                    let (sx, sy) = (
                        symbol_with(a, x.target.id)->0,
                        symbol_with(a, y.target.id)->0,
                    );
                    crate::path::lemma_path_asymmetric(sx.file_path@, sy.file_path@);
                    crate::path::lemma_path_level(sx.file_path@, sy.file_path@);
                }
                offers
            } else {
                Seq::empty()
            }
        },
        None => Seq::empty(),
    }
}

} // verus!
