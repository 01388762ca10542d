//! textDocument/completion.

use vstd::prelude::*;
use vstd::std_specs::iter::IteratorSpec;
use vstd::string::*;

use super::symbol::capped;
use super::{cursor, cursor_of, grows, has_looked, QueryCtx, Texts};
use crate::convert::{completion_kind, kinds_of};
use crate::index::query::{innermost_symbol, smallest_symbol_at};
use crate::index::snapshot::IndexSnapshot;
use crate::index::{
    edges_out, node_id, scope_place, symbol_with, Analysis, SourceText, Tables,
};
use crate::model::{ConfidenceTier, FileExtraction, FileScope, ScopeName, Symbol, Target};
use crate::order::{
    gather, lemma_same_order, lemma_stable_prefix, sort_by_keys, stable_order,
    stable_sort_is_a_stable_permutation, SortKey,
};
use crate::path::DocPath;
use crate::position::offsets_are_boundaries;
use crate::protocol::{copy_text, optional_text, CompletionItem, Position};
use crate::text::{
    alphanumeric, begins_with, byte_len, byte_offset, char_index_at, decimal, decimal_text,
    fold_case, is_alphanumeric, is_boundary, lemma_byte_offset_ends, lemma_byte_offset_monotone,
    lemma_byte_offset_step, lemma_char_index_at, lemma_char_index_of_offset, lowercase, split_text,
    starts_with, text_len, utf8_width_of,
};
use crate::types::DocUri;

verus! {

/// Most items that one completion query returns.
pub const CAP_COMPLETION: usize = 1000;

// ---------------------------------------------------------------------------
// Tiers

/// The bucket of a confidence tier: own or direct first, then transitive, then
/// cross-language or global, computed and unknown last.
pub open spec fn bucket_of(tier: ConfidenceTier) -> u8 {
    match tier {
        ConfidenceTier::OwnOrDirect => 0,
        ConfidenceTier::DefUse => 0,
        ConfidenceTier::Transitive => 1,
        ConfidenceTier::CrossLanguage => 2,
        ConfidenceTier::ClientMultiGlobal => 2,
        ConfidenceTier::Computed => 3,
        ConfidenceTier::Unknown => 3,
    }
}

/// The bucket of a confidence tier.
pub fn tier_rank(tier: ConfidenceTier) -> (r: u8)
    ensures
        r == bucket_of(tier),
{
    match tier {
        ConfidenceTier::OwnOrDirect => 0,
        ConfidenceTier::DefUse => 0,
        ConfidenceTier::Transitive => 1,
        ConfidenceTier::CrossLanguage => 2,
        ConfidenceTier::ClientMultiGlobal => 2,
        ConfidenceTier::Computed => 3,
        ConfidenceTier::Unknown => 3,
    }
}

// ---------------------------------------------------------------------------
// Prefixes

/// A character of an identifier.
pub open spec fn is_identifier(c: char) -> bool {
    alphanumeric(c) || c == '_'
}

/// The begin of the run of identifier characters that ends at a place.
pub open spec fn run_start(s: Seq<char>, end: int) -> int
    decreases end,
{
    if end <= 0 || !is_identifier(s[end - 1]) {
        end
    } else {
        run_start(s, end - 1)
    }
}

/// The run of identifier characters that ends at a place.
pub open spec fn run_before(s: Seq<char>, end: int) -> Seq<char> {
    s.subrange(run_start(s, end), end)
}

/// The identifier characters right before a byte.
pub fn identifier_prefix(text: &str, byte: usize) -> (r: String)
    requires
        is_boundary(text@, byte as int),
    ensures
        r@ == run_before(text@, char_index_at(text@, byte as int)),
{
    let ghost s = text@;
    let ghost end = char_index_at(s, byte as int);
    proof {
        lemma_char_index_at(s, byte as int);
    }
    let head: &str = split_text(text, byte).0;
    let len: usize = text_len(head);
    let mut it = head.chars();
    let mut at: usize = 0;
    let mut start: usize = 0;
    let ghost mut i: int = 0;
    proof {
        assert(head@.skip(0) =~= head@);
        lemma_byte_offset_ends(head@);
    }
    loop
        invariant
            head@ == s.take(end),
            0 <= end <= s.len(),
            0 <= i <= head@.len(),
            len == byte_len(head@),
            it.remaining() == head@.skip(i),
            it.obeys_prophetic_iter_laws(),
            it.decrease() is Some,
            at == byte_offset(head@, i),
            0 <= run_start(s, i) <= i,
            start == byte_offset(head@, run_start(s, i)),
        ensures
            i == head@.len(),
        decreases it.decrease()->0,
    {
        match it.next() {
            None => {
                break;
            },
            Some(c) => {
                proof {
                    assert(c == s[i]);
                    assert(head@.skip(i).drop_first() =~= head@.skip(i + 1));
                    lemma_byte_offset_step(head@, i);
                    lemma_byte_offset_ends(head@);
                    lemma_byte_offset_monotone(head@, i + 1, head@.len() as int);
                    i = i + 1;
                }
                at += utf8_width_of(c);
                if !(is_alphanumeric(c) || c == '_') {
                    start = at;
                }
            },
        }
    }
    proof {
        lemma_char_index_of_offset(head@, run_start(s, end));
        assert(head@.skip(run_start(s, end)) =~= s.subrange(run_start(s, end), end));
    }
    split_text(head, start).1.to_owned()
}

/// Whether a name matches a prefix; an empty prefix matches every name.
pub open spec fn matches_prefix(prefix: Seq<char>, name: Seq<char>, case_sensitive: bool) -> bool {
    if prefix.len() == 0 {
        true
    } else if case_sensitive {
        begins_with(name, prefix)
    } else {
        begins_with(lowercase(name), lowercase(prefix))
    }
}

/// A prefix with its folded form.
#[derive(Debug)]
pub struct Prefix {
    raw: String,
    folded: String,
}

impl View for Prefix {
    type V = Seq<char>;

    closed spec fn view(&self) -> Seq<char> {
        self.raw@
    }
}

impl Prefix {
    #[verifier::type_invariant]
    spec fn is_folded(&self) -> bool {
        self.folded@ == lowercase(self.raw@)
    }

    pub fn new(raw: String) -> (r: Prefix)
        ensures
            r@ == raw@,
    {
        let folded: String = fold_case(raw.as_str());
        Prefix { raw, folded }
    }

    /// Whether a name matches.
    pub fn matches(&self, name: &str, case_sensitive: bool) -> (r: bool)
        ensures
            r == matches_prefix(self@, name@, case_sensitive),
    {
        proof {
            use_type_invariant(self);
        }
        if self.raw.as_str().is_empty() {
            return true;
        }
        if case_sensitive {
            starts_with(name, self.raw.as_str())
        } else {
            starts_with(fold_case(name).as_str(), self.folded.as_str())
        }
    }
}

// ---------------------------------------------------------------------------
// Offers

/// A name offered for a target.
pub struct Offer {
    pub name: String,
    pub target: Target,
}

/// The offers of one name of a scope.
pub open spec fn name_offers(entry: ScopeName, prefix: Seq<char>, case_sensitive: bool) -> Seq<Offer> {
    if matches_prefix(prefix, entry.name@, case_sensitive) {
        entry.targets@.map_values(|target: Target| Offer { name: entry.name, target })
    } else {
        Seq::empty()
    }
}

/// The offers of the first `n` names of a scope.
pub open spec fn scope_offers(
    names: Seq<ScopeName>,
    n: int,
    prefix: Seq<char>,
    case_sensitive: bool,
) -> Seq<Offer>
    decreases n,
{
    if n <= 0 {
        Seq::empty()
    } else {
        scope_offers(names, n - 1, prefix, case_sensitive) + name_offers(
            names[n - 1],
            prefix,
            case_sensitive,
        )
    }
}

/// The offers of the first `n` symbols that the enclosing one references.
pub open spec fn reference_offers(
    a: Analysis,
    references: Seq<Target>,
    n: int,
    prefix: Seq<char>,
    case_sensitive: bool,
) -> Seq<Offer>
    decreases n,
{
    if n <= 0 {
        Seq::empty()
    } else {
        let before = reference_offers(a, references, n - 1, prefix, case_sensitive);
        match symbol_with(a, references[n - 1].id) {
            Some(symbol) => if matches_prefix(prefix, symbol.name@, case_sensitive) {
                before.push(Offer { name: symbol.name, target: references[n - 1] })
            } else {
                before
            },
            None => before,
        }
    }
}

/// Everything offered at a byte of a file: the names in scope, then what the
/// enclosing symbol references.
pub open spec fn offers_at(
    a: Analysis,
    file: FileExtraction,
    scope: FileScope,
    byte: usize,
    prefix: Seq<char>,
    case_sensitive: bool,
) -> Seq<Offer> {
    let scoped = scope_offers(scope.names@, scope.names@.len() as int, prefix, case_sensitive);
    match innermost_symbol(file, byte) {
        Some(symbol) => {
            let references = edges_out(a, symbol.id);
            scoped + reference_offers(
                a,
                references,
                references.len() as int,
                prefix,
                case_sensitive,
            )
        },
        None => scoped,
    }
}

/// An offer for an id is in a list.
pub open spec fn offered(offers: Seq<Offer>, id: u32) -> bool {
    exists|i: int| 0 <= i < offers.len() && (#[trigger] offers[i]).target.id == id
}

/// The first offer for each id that a symbol is known for.
pub open spec fn first_offers(a: Analysis, offers: Seq<Offer>) -> Seq<Offer>
    decreases offers.len(),
{
    if offers.len() == 0 {
        offers
    } else {
        let kept = first_offers(a, offers.drop_last());
        let next = offers.last();
        if symbol_with(a, next.target.id) is Some && !offered(kept, next.target.id) {
            kept.push(next)
        } else {
            kept
        }
    }
}

/// The offers that a request gets: those that match in case, or if there are none
/// those that match without.
pub open spec fn chosen_offers(
    a: Analysis,
    file: FileExtraction,
    scope: FileScope,
    byte: usize,
    prefix: Seq<char>,
) -> Seq<Offer> {
    let exact = first_offers(a, offers_at(a, file, scope, byte, prefix, true));
    if exact.len() > 0 {
        exact
    } else {
        first_offers(a, offers_at(a, file, scope, byte, prefix, false))
    }
}

/// The key of an offer: tier, label, path, declaration byte, id.
pub open spec fn offer_key(a: Analysis, offer: Offer) -> (
    u32,
    (String, (DocPath, (usize, u32))),
) {
    let symbol = symbol_with(a, offer.target.id)->0;
    (
        bucket_of(offer.target.confidence.tier) as u32,
        (
            offer.name,
            (symbol.file_path, (symbol.source_range.byte_start, offer.target.id)),
        ),
    )
}

/// Offers ordered by their keys.
pub open spec fn ordered_offers(a: Analysis, offers: Seq<Offer>) -> Seq<Offer> {
    gather(offers, stable_order(offers.map_values(|offer: Offer| offer_key(a, offer))))
}

/// The offers that a completion request at a byte of a file is answered with.
pub open spec fn completion_offers(
    a: Analysis,
    texts: Texts,
    file: FileExtraction,
    byte: usize,
) -> Seq<Offer> {
    match (texts[file.path@], node_id(a, file.path@)) {
        (Some(text), Some(file_id)) => match scope_place(a, file_id) {
            Some(i) => capped(
                ordered_offers(
                    a,
                    chosen_offers(
                        a,
                        file,
                        a.scope@[i],
                        byte,
                        run_before(text, char_index_at(text, byte as int)),
                    ),
                ),
                CAP_COMPLETION as nat,
            ),
            None => Seq::empty(),
        },
        _ => Seq::empty(),
    }
}

/// An item shows an offer.
pub open spec fn shows_offer(item: CompletionItem, a: Analysis, offer: Offer) -> bool {
    let symbol = symbol_with(a, offer.target.id)->0;
    &&& item.label@ == offer.name@
    &&& item.kind == kinds_of(symbol.kind).1
    &&& optional_text(item.detail) == optional_text(symbol.signature)
    &&& item.filter_text@ == offer.name@
    &&& item.sort_text@ == decimal_text(bucket_of(offer.target.confidence.tier) as nat) + offer.name@
}

/// Items show offers, one for one.
pub open spec fn shows_offers(items: Seq<CompletionItem>, a: Analysis, offers: Seq<Offer>) -> bool {
    &&& items.len() == offers.len()
    &&& forall|i: int| 0 <= i < items.len() ==> shows_offer(#[trigger] items[i], a, offers[i])
}

// ---------------------------------------------------------------------------
// Candidates

struct Candidate {
    id: u32,
    key: (u32, (String, (DocPath, (usize, u32)))),
    item: CompletionItem,
}

/// A candidate stands for an offer.
spec fn stands_for_offer(candidate: Candidate, a: Analysis, offer: Offer) -> bool {
    let key = offer_key(a, offer);
    &&& candidate.id == offer.target.id
    &&& candidate.key.0 == key.0
    &&& candidate.key.1.0 == key.1.0
    &&& candidate.key.1.1.0@ == key.1.1.0@
    &&& candidate.key.1.1.1 == key.1.1.1
    &&& shows_offer(candidate.item, a, offer)
}

spec fn stand_for_offers(candidates: Seq<Candidate>, a: Analysis, offers: Seq<Offer>) -> bool {
    &&& candidates.len() == offers.len()
    &&& forall|i: int|
        0 <= i < candidates.len() ==> stands_for_offer(#[trigger] candidates[i], a, offers[i])
}

fn has_candidate(candidates: &Vec<Candidate>, id: u32, Ghost(a): Ghost<Analysis>, Ghost(offers): Ghost<Seq<Offer>>) -> (r: bool)
    requires
        stand_for_offers(candidates@, a, offers),
    ensures
        r == offered(offers, id),
{
    let mut i: usize = 0;
    while i < candidates.len()
        invariant
            i <= candidates@.len(),
            stand_for_offers(candidates@, a, offers),
            forall|k: int| 0 <= k < i ==> (#[trigger] offers[k]).target.id != id,
        decreases candidates.len() - i,
    {
        assert(stands_for_offer(candidates@[i as int], a, offers[i as int]));
        if candidates[i].id == id {
            assert(offers[i as int].target.id == id);
            return true;
        }
        i += 1;
    }
    false
}

/// Take one more offer.
fn push_candidate(
    candidates: &mut Vec<Candidate>,
    tables: &Tables,
    name: &String,
    target: Target,
    Ghost(offers): Ghost<Seq<Offer>>,
)
    requires
        stand_for_offers(old(candidates)@, tables@, first_offers(tables@, offers)),
    ensures
        stand_for_offers(
            final(candidates)@,
            tables@,
            first_offers(tables@, offers.push(Offer { name: *name, target })),
        ),
{
    let ghost a = tables@;
    let ghost kept = first_offers(a, offers);
    let ghost next = Offer { name: *name, target };
    assert(offers.push(next).drop_last() =~= offers);
    if has_candidate(candidates, target.id, Ghost(a), Ghost(kept)) {
        return;
    }
    let symbol: &Symbol = match tables.symbol_by_id(target.id) {
        Some(symbol) => symbol,
        None => {
            return;
        },
    };
    let tier: u8 = tier_rank(target.confidence.tier);
    let mut sort_text: String = decimal(tier as u64);
    sort_text.append(name.as_str());
    let ghost before = candidates@;
    candidates.push(
        Candidate {
            id: target.id,
            key: (
                tier as u32,
                (
                    name.clone(),
                    (symbol.file_path.clone(), (symbol.source_range.byte_start, target.id)),
                ),
            ),
            item: CompletionItem {
                label: name.clone(),
                kind: completion_kind(symbol.kind),
                detail: copy_text(&symbol.signature),
                filter_text: name.clone(),
                sort_text,
            },
        },
    );
    proof {
        let now = first_offers(a, offers.push(next));
        assert(now == kept.push(next));
        assert forall|i: int| 0 <= i < candidates@.len() implies stands_for_offer(
            #[trigger] candidates@[i],
            a,
            now[i],
        ) by {
            if i < before.len() {
                assert(candidates@[i] == before[i]);
            }
        }
    }
}

fn collect_scope_completions(
    tables: &Tables,
    scope: &FileScope,
    prefix: &Prefix,
    case_sensitive: bool,
) -> (r: Vec<Candidate>)
    ensures
        stand_for_offers(
            r@,
            tables@,
            first_offers(
                tables@,
                scope_offers(scope.names@, scope.names@.len() as int, prefix@, case_sensitive),
            ),
        ),
{
    let mut candidates: Vec<Candidate> = Vec::new();
    let mut n: usize = 0;
    while n < scope.names.len()
        invariant
            n <= scope.names@.len(),
            stand_for_offers(
                candidates@,
                tables@,
                first_offers(
                    tables@,
                    scope_offers(scope.names@, n as int, prefix@, case_sensitive),
                ),
            ),
        decreases scope.names.len() - n,
    {
        let entry = &scope.names[n];
        let ghost earlier = scope_offers(scope.names@, n as int, prefix@, case_sensitive);
        let ghost here = name_offers(*entry, prefix@, case_sensitive);
        if prefix.matches(entry.name.as_str(), case_sensitive) {
            let mut k: usize = 0;
            assert(earlier + here.take(0) =~= earlier);
            while k < entry.targets.len()
                invariant
                    k <= entry.targets@.len(),
                    here == entry.targets@.map_values(
                        |target: Target| Offer { name: entry.name, target },
                    ),
                    stand_for_offers(
                        candidates@,
                        tables@,
                        first_offers(tables@, earlier + here.take(k as int)),
                    ),
                decreases entry.targets.len() - k,
            {
                let target: Target = entry.targets[k];
                push_candidate(
                    &mut candidates,
                    tables,
                    &entry.name,
                    target,
                    Ghost(earlier + here.take(k as int)),
                );
                assert(earlier + here.take(k as int + 1) =~= (earlier + here.take(k as int)).push(
                    Offer { name: entry.name, target },
                ));
                k += 1;
            }
            assert(here.take(k as int) =~= here);
        } else {
            assert(earlier + here =~= earlier);
        }
        n += 1;
    }
    candidates
}

fn collect_reference_completions(
    candidates: &mut Vec<Candidate>,
    tables: &Tables,
    references: &Vec<Target>,
    prefix: &Prefix,
    case_sensitive: bool,
    Ghost(earlier): Ghost<Seq<Offer>>,
)
    requires
        stand_for_offers(old(candidates)@, tables@, first_offers(tables@, earlier)),
    ensures
        stand_for_offers(
            final(candidates)@,
            tables@,
            first_offers(
                tables@,
                earlier + reference_offers(
                    tables@,
                    references@,
                    references@.len() as int,
                    prefix@,
                    case_sensitive,
                ),
            ),
        ),
{
    let mut n: usize = 0;
    assert(earlier + reference_offers(tables@, references@, 0, prefix@, case_sensitive) =~= earlier);
    while n < references.len()
        invariant
            n <= references@.len(),
            stand_for_offers(
                candidates@,
                tables@,
                first_offers(
                    tables@,
                    earlier + reference_offers(
                        tables@,
                        references@,
                        n as int,
                        prefix@,
                        case_sensitive,
                    ),
                ),
            ),
        decreases references.len() - n,
    {
        let target: Target = references[n];
        let ghost before = reference_offers(
            tables@,
            references@,
            n as int,
            prefix@,
            case_sensitive,
        );
        n += 1;
        if let Some(symbol) = tables.symbol_by_id(target.id) {
            if prefix.matches(symbol.name.as_str(), case_sensitive) {
                push_candidate(candidates, tables, &symbol.name, target, Ghost(earlier + before));
                assert(earlier + before.push(Offer { name: symbol.name, target }) =~= (earlier
                    + before).push(Offer { name: symbol.name, target }));
            }
        }
    }
}

fn collect_candidates(
    tables: &Tables,
    file: &FileExtraction,
    scope: &FileScope,
    byte: usize,
    prefix: &Prefix,
    case_sensitive: bool,
) -> (r: Vec<Candidate>)
    ensures
        stand_for_offers(
            r@,
            tables@,
            first_offers(tables@, offers_at(tables@, *file, *scope, byte, prefix@, case_sensitive)),
        ),
{
    let mut candidates = collect_scope_completions(tables, scope, prefix, case_sensitive);
    let ghost scoped = scope_offers(
        scope.names@,
        scope.names@.len() as int,
        prefix@,
        case_sensitive,
    );
    if let Some(enclosing) = smallest_symbol_at(file, byte) {
        let references = tables.references_out(enclosing.id);
        collect_reference_completions(
            &mut candidates,
            tables,
            &references,
            prefix,
            case_sensitive,
            Ghost(scoped),
        );
    }
    candidates
}

/// Candidates in order, capped, as items.
fn finish_candidates(
    candidates: Vec<Candidate>,
    Ghost(a): Ghost<Analysis>,
    Ghost(offers): Ghost<Seq<Offer>>,
) -> (r: Vec<CompletionItem>)
    requires
        stand_for_offers(candidates@, a, offers),
    ensures
        shows_offers(r@, a, capped(ordered_offers(a, offers), CAP_COMPLETION as nat)),
{
    let ghost all = candidates@;
    let ghost wanted = offers.map_values(|offer: Offer| offer_key(a, offer));
    let mut candidates = candidates;
    let mut keys: Vec<(u32, (String, (DocPath, (usize, u32))))> = Vec::new();
    let mut items: Vec<CompletionItem> = Vec::new();
    let mut backward: Vec<Candidate> = Vec::new();
    while candidates.len() > 0
        invariant
            candidates@ + Seq::new(backward@.len(), |k: int| backward@[backward@.len() - 1 - k])
                == all,
        decreases candidates.len(),
    {
        let ghost before = candidates@ + Seq::new(
            backward@.len(),
            |k: int| backward@[backward@.len() - 1 - k],
        );
        if let Some(candidate) = candidates.pop() {
            backward.push(candidate);
        }
        assert(candidates@ + Seq::new(backward@.len(), |k: int| backward@[backward@.len() - 1 - k])
            =~= before);
    }
    let ghost n = all.len() as int;
    assert forall|k: int| 0 <= k < n implies #[trigger] backward@[n - 1 - k] == all[k] by {
        let back = candidates@ + Seq::new(
            backward@.len(),
            |k: int| backward@[backward@.len() - 1 - k],
        );
        assert(back[k] == backward@[n - 1 - k]);
    }
    assert(backward@.len() == n);
    while backward.len() > 0
        invariant
            n == all.len() == offers.len() == wanted.len(),
            backward@.len() + items@.len() == n,
            keys@.len() == items@.len(),
            stand_for_offers(all, a, offers),
            wanted == offers.map_values(|offer: Offer| offer_key(a, offer)),
            forall|k: int| items@.len() <= k < n ==> #[trigger] backward@[n - 1 - k] == all[k],
            forall|k: int| 0 <= k < items@.len() ==> shows_offer(#[trigger] items@[k], a, offers[k]),
            forall|k: int|
                0 <= k < keys@.len() ==> {
                    &&& (#[trigger] keys@[k]).0 == wanted[k].0
                    &&& keys@[k].1.0 == wanted[k].1.0
                    &&& keys@[k].1.1.0@ == wanted[k].1.1.0@
                    &&& keys@[k].1.1.1 == wanted[k].1.1.1
                },
        decreases backward.len(),
    {
        let ghost held = backward@;
        let ghost done = items@.len() as int;
        if let Some(candidate) = backward.pop() {
            proof {
                assert(held[n - 1 - done] == all[done]);
                assert(stands_for_offer(all[done], a, offers[done]));
                assert(wanted[done] == offer_key(a, offers[done]));
            }
            keys.push(candidate.key);
            items.push(candidate.item);
        }
    }
    proof {
        assert forall|i: int, j: int| 0 <= i < keys@.len() && 0 <= j < keys@.len() implies #[trigger] keys@[i].precedes(
            &keys@[j],
        ) == wanted[i].precedes(&wanted[j]) by {}
        lemma_same_order(keys@, wanted);
        lemma_stable_prefix(keys@, keys@.len() as int);
    }
    let ghost shown = items@;
    let mut r = sort_by_keys(items, &keys);
    proof {
        let order = stable_order(keys@);
        let ordered = ordered_offers(a, offers);
        assert forall|i: int| 0 <= i < r@.len() implies shows_offer(#[trigger] r@[i], a, ordered[i]) by {
            assert(0 <= order[i] < shown.len());
            assert(r@[i] == shown[order[i]]);
        }
    }
    if r.len() > CAP_COMPLETION {
        r.truncate(CAP_COMPLETION);
    }
    r
}

/// Names visible from the cursor, ordered by tier and then by name and site.
pub fn completion_at<'a, S: SourceText>(ctx: &mut QueryCtx<'a, S>, uri: &DocUri, pos: Position) -> (r:
    Vec<CompletionItem>)
    ensures
        final(ctx).continues(old(ctx)),
        has_looked(final(ctx).findings(), final(ctx).texts(), uri@),
        match cursor_of(
            final(ctx).findings(),
            final(ctx).texts(),
            uri@,
            pos,
            final(ctx).spec_encoding(),
        ) {
            Some((file, byte)) => shows_offers(
                r@,
                final(ctx).findings(),
                completion_offers(final(ctx).findings(), final(ctx).texts(), file, byte),
            ),
            None => r@.len() == 0,
        },
{
    let (file, byte) = match cursor(ctx, uri, pos) {
        Some(found) => found,
        None => {
            return Vec::new();
        },
    };
    let ghost before = ctx.texts();
    let text: String = match ctx.text(&file.path) {
        Some(text) => text,
        None => {
            return Vec::new();
        },
    };
    let snapshot: &'a IndexSnapshot = ctx.snapshot();
    let tables = snapshot.tables();
    let ghost a = ctx.findings();
    proof {
        assert(grows(before, ctx.texts()));
        assert(before[file.path@] == Some(text@));
    }
    let _len: usize = text_len(text.as_str());
    proof {
        offsets_are_boundaries(text@, pos, ctx.spec_encoding());
    }
    let prefix = Prefix::new(identifier_prefix(text.as_str(), byte));
    let file_id: u32 = match tables.file_id(&file.path) {
        Some(file_id) => file_id,
        None => {
            return Vec::new();
        },
    };
    let place: usize = match tables.scope(file_id) {
        Some(place) => place,
        None => {
            return Vec::new();
        },
    };
    let scope = &tables.findings().scope[place];
    let exact = collect_candidates(tables, file, scope, byte, &prefix, true);
    if exact.len() > 0 {
        return finish_candidates(
            exact,
            Ghost(a),
            Ghost(first_offers(a, offers_at(a, *file, *scope, byte, prefix@, true))),
        );
    }
    let folded = collect_candidates(tables, file, scope, byte, &prefix, false);
    finish_candidates(
        folded,
        Ghost(a),
        Ghost(first_offers(a, offers_at(a, *file, *scope, byte, prefix@, false))),
    )
}

// ---------------------------------------------------------------------------
// Laws

/// No target is offered twice, and each has a symbol.
pub proof fn a_target_is_offered_once(a: Analysis, offers: Seq<Offer>)
    ensures
        forall|i: int, j: int|
            0 <= i < j < first_offers(a, offers).len() ==> (#[trigger] first_offers(
                a,
                offers,
            )[i]).target.id != (#[trigger] first_offers(a, offers)[j]).target.id,
        forall|i: int|
            0 <= i < first_offers(a, offers).len() ==> symbol_with(
                a,
                (#[trigger] first_offers(a, offers)[i]).target.id,
            ) is Some,
    decreases offers.len(),
{
    if offers.len() > 0 {
        a_target_is_offered_once(a, offers.drop_last());
    }
}

/// Every offered target with a symbol is kept.
pub proof fn every_known_offer_is_kept(a: Analysis, offers: Seq<Offer>, i: int)
    requires
        0 <= i < offers.len(),
        symbol_with(a, offers[i].target.id) is Some,
    ensures
        offered(first_offers(a, offers), offers[i].target.id),
    decreases offers.len(),
{
    let rest = offers.drop_last();
    let kept = first_offers(a, rest);
    let now = first_offers(a, offers);
    let id = offers[i].target.id;
    if i < rest.len() {
        every_known_offer_is_kept(a, rest, i);
    }
    if offered(kept, id) {
        let k = choose|k: int| 0 <= k < kept.len() && (#[trigger] kept[k]).target.id == id;
        assert(now[k] == kept[k]);
    } else {
        assert(now[kept.len() as int].target.id == id);
    }
}

/// Completion order: by tier, then label, path, declaration byte and id.
pub proof fn offers_come_in_order(a: Analysis, offers: Seq<Offer>, i: int, j: int)
    requires
        0 <= i < j < ordered_offers(a, offers).len(),
    ensures
        !offer_key(a, ordered_offers(a, offers)[j]).precedes(
            &offer_key(a, ordered_offers(a, offers)[i]),
        ),
        bucket_of(ordered_offers(a, offers)[i].target.confidence.tier) <= bucket_of(
            ordered_offers(a, offers)[j].target.confidence.tier,
        ),
{
    let keys = offers.map_values(|offer: Offer| offer_key(a, offer));
    let order = stable_order(keys);
    stable_sort_is_a_stable_permutation(keys);
    lemma_stable_prefix(keys, keys.len() as int);
    let (p, q) = (order[i], order[j]);
    assert(0 <= p < offers.len() && 0 <= q < offers.len());
    assert(!keys[q].precedes(&keys[p]));
    assert(keys[p] == offer_key(a, offers[p]) && keys[q] == offer_key(a, offers[q]));
}

/// Ordering drops no offer.
pub proof fn ordering_keeps_every_offer(a: Analysis, offers: Seq<Offer>, p: int)
    requires
        0 <= p < offers.len(),
    ensures
        ordered_offers(a, offers).len() == offers.len(),
        ordered_offers(a, offers).contains(offers[p]),
{
    let keys = offers.map_values(|offer: Offer| offer_key(a, offer));
    let order = stable_order(keys);
    stable_sort_is_a_stable_permutation(keys);
    assert(order.contains(p));
    let i = choose|i: int| 0 <= i < order.len() && order[i] == p;
    assert(ordered_offers(a, offers)[i] == offers[p]);
}

} // verus!
