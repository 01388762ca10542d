//! Request cancellation tokens. Only an in-flight request is cancellable: the
//! transport is FIFO, so a remembered cancel set would be unbounded state.

use vstd::prelude::*;

use crate::protocol::{IdView, RequestId};

verus! {

/// Whether one request was cancelled.
#[derive(Debug)]
pub struct CancelToken {
    cancelled: bool,
}

impl View for CancelToken {
    type V = bool;

    closed spec fn view(&self) -> bool {
        self.cancelled
    }
}

impl Default for CancelToken {
    fn default() -> (r: Self)
        ensures
            !r@,
    {
        CancelToken { cancelled: false }
    }
}

impl CancelToken {
    pub fn is_cancelled(&self) -> (r: bool)
        ensures
            r == self@,
    {
        self.cancelled
    }

    pub fn cancel(&mut self)
        ensures
            final(self)@,
    {
        self.cancelled = true;
    }
}

/// Handle of one in-flight request; released when the request is answered.
#[derive(Debug)]
pub struct Registration {
    id: RequestId,
    slot: usize,
}

impl View for Registration {
    type V = IdView;

    closed spec fn view(&self) -> IdView {
        self.id@
    }
}

impl Registration {
    /// Where the registry holds the registration's share of the token.
    pub closed spec fn slot(&self) -> int {
        self.slot as int
    }

    /// Whether the request was cancelled while it was in flight.
    pub fn is_cancelled(&self, registry: &Cancellation) -> (r: bool)
        ensures
            r == is_cancelled_at(registry.shares(), self.slot()),
    {
        if self.slot >= registry.held.len() {
            return false;
        }
        match &registry.held[self.slot] {
            Some(share) => share.token.is_cancelled(),
            None => false,
        }
    }
}

/// A registration's share of the token of a request, as a value.
pub struct ShareView {
    pub id: IdView,
    pub cancelled: bool,
    /// The id still leads to this token: none of its registrations was released.
    pub live: bool,
}

/// The shares that registrations hold; a slot that is free holds none.
pub type Shares = Seq<Option<ShareView>>;

/// A share is held at a slot, and its token was cancelled.
pub open spec fn is_cancelled_at(shares: Shares, slot: int) -> bool {
    0 <= slot < shares.len() && (shares[slot] matches Some(share) && share.cancelled)
}

/// Nothing is held at a slot.
pub open spec fn is_free_at(shares: Shares, slot: int) -> bool {
    0 <= slot <= shares.len() && (slot < shares.len() ==> shares[slot] is None)
}

/// A share, put into a free slot.
pub open spec fn with_share(shares: Shares, slot: int, share: ShareView) -> Shares {
    if slot < shares.len() {
        shares.update(slot, Some(share))
    } else {
        shares.push(Some(share))
    }
}

/// A share after a cancel of `id`: every live one of the id is cancelled.
pub open spec fn cancelled_share(share: Option<ShareView>, id: IdView) -> Option<ShareView> {
    match share {
        Some(share) => if share.live && share.id == id {
            Some(ShareView { cancelled: true, ..share })
        } else {
            Some(share)
        },
        None => None,
    }
}

/// A share after the release of another registration of `id`: the id leads to its
/// token no more.
pub open spec fn parted_share(share: Option<ShareView>, id: IdView) -> Option<ShareView> {
    match share {
        Some(share) => if share.id == id {
            Some(ShareView { live: false, ..share })
        } else {
            Some(share)
        },
        None => None,
    }
}

/// The shares after a cancel of `id`.
pub open spec fn cancelled_shares(shares: Shares, id: IdView) -> Shares {
    shares.map_values(|share: Option<ShareView>| cancelled_share(share, id))
}

/// The shares after the release of the registration of `id` that held `slot`.
pub open spec fn released_shares(shares: Shares, id: IdView, slot: int) -> Shares {
    let parted = shares.map_values(|share: Option<ShareView>| parted_share(share, id));
    if 0 <= slot < shares.len() {
        parted.update(slot, None)
    } else {
        parted
    }
}

/// Every live share has the token of its id.
pub open spec fn have_tokens(shares: Shares, tokens: Map<IdView, bool>) -> bool {
    forall|slot: int|
        0 <= slot < shares.len() ==> ((#[trigger] shares[slot]) matches Some(share) ==> (share.live
            ==> tokens.contains_key(share.id) && tokens[share.id] == share.cancelled))
}

#[derive(Debug)]
struct InFlight {
    id: RequestId,
    token: CancelToken,
}

/// One registration's share of a token. Shares of one token are cancelled together.
#[derive(Debug)]
struct Share {
    id: RequestId,
    token: CancelToken,
    live: bool,
}

impl View for Share {
    type V = ShareView;

    closed spec fn view(&self) -> ShareView {
        ShareView { id: self.id@, cancelled: self.token@, live: self.live }
    }
}

spec fn share_view(share: Option<Share>) -> Option<ShareView> {
    match share {
        Some(share) => Some(share@),
        None => None,
    }
}

spec fn share_views(held: Seq<Option<Share>>) -> Shares {
    held.map_values(|share: Option<Share>| share_view(share))
}

/// The requests in flight, and the shares that their registrations hold.
#[derive(Debug)]
pub struct Cancellation {
    entries: Vec<InFlight>,
    held: Vec<Option<Share>>,
}

spec fn tokens_of(entries: Seq<InFlight>) -> Map<IdView, bool>
    decreases entries.len(),
{
    if entries.len() == 0 {
        Map::empty()
    } else {
        tokens_of(entries.drop_last()).insert(entries.last().id@, entries.last().token@)
    }
}

spec fn ids_differ(entries: Seq<InFlight>) -> bool {
    forall|i: int, j: int|
        0 <= i < j < entries.len() ==> (#[trigger] entries[i]).id@ != (#[trigger] entries[j]).id@
}

proof fn lemma_tokens(entries: Seq<InFlight>)
    requires
        ids_differ(entries),
    ensures
        forall|i: int|
            0 <= i < entries.len() ==> tokens_of(entries).contains_key((#[trigger] entries[i]).id@)
                && tokens_of(entries)[entries[i].id@] == entries[i].token@,
        forall|id: IdView| #[trigger]
            tokens_of(entries).contains_key(id) ==> exists|i: int|
                0 <= i < entries.len() && (#[trigger] entries[i]).id@ == id,
        tokens_of(entries).dom().finite(),
        tokens_of(entries).len() == entries.len(),
    decreases entries.len(),
{
    if entries.len() > 0 {
        let rest = entries.drop_last();
        let last = entries.len() - 1;
        assert forall|i: int, j: int| 0 <= i < j < rest.len() implies (#[trigger] rest[i]).id@ != (
        #[trigger] rest[j]).id@ by {
            assert(rest[i] == entries[i] && rest[j] == entries[j]);
        }
        lemma_tokens(rest);
        assert(!tokens_of(rest).contains_key(entries[last].id@)) by {
            if tokens_of(rest).contains_key(entries[last].id@) {
                let i = choose|i: int|
                    0 <= i < rest.len() && (#[trigger] rest[i]).id@ == entries[last].id@;
                assert(entries[i].id@ != entries[last].id@);
            }
        }
        assert forall|i: int| 0 <= i < entries.len() implies tokens_of(entries).contains_key(
            (#[trigger] entries[i]).id@,
        ) && tokens_of(entries)[entries[i].id@] == entries[i].token@ by {
            if i < last {
                assert(rest[i] == entries[i]);
                assert(entries[i].id@ != entries[last].id@);
            }
        }
        assert forall|id: IdView| #[trigger]
            tokens_of(entries).contains_key(id) implies exists|i: int|
            0 <= i < entries.len() && (#[trigger] entries[i]).id@ == id by {
            if id == entries[last].id@ {
            } else {
                assert(tokens_of(rest).contains_key(id));
                let i = choose|i: int| 0 <= i < rest.len() && (#[trigger] rest[i]).id@ == id;
                assert(entries[i].id@ == id);
            }
        }
    }
}

impl View for Cancellation {
    type V = Map<IdView, bool>;

    /// The requests in flight, and whether each was cancelled.
    closed spec fn view(&self) -> Map<IdView, bool> {
        tokens_of(self.entries@)
    }
}

impl Default for Cancellation {
    fn default() -> (r: Self)
        ensures
            r@ == Map::<IdView, bool>::empty(),
            r.shares() == Shares::empty(),
    {
        let r = Cancellation { entries: Vec::new(), held: Vec::new() };
        assert(r.shares() =~= Shares::empty());
        r
    }
}

impl Cancellation {
    #[verifier::type_invariant]
    spec fn distinct(&self) -> bool {
        ids_differ(self.entries@)
    }

    /// The shares that registrations hold.
    pub closed spec fn shares(&self) -> Shares {
        share_views(self.held@)
    }

    /// The first free slot, or one behind the last.
    fn free_slot(&self) -> (r: usize)
        ensures
            is_free_at(self.shares(), r as int),
    {
        let mut i: usize = 0;
        while i < self.held.len()
            invariant
                i <= self.held@.len(),
            decreases self.held.len() - i,
        {
            if self.held[i].is_none() {
                return i;
            }
            i += 1;
        }
        i
    }

    fn place(&self, id: &RequestId) -> (r: Option<usize>)
        ensures
            ids_differ(self.entries@),
            match r {
                Some(i) => i < self.entries@.len() && self.entries@[i as int].id@ == id@
                    && self@.contains_key(id@) && self@[id@] == self.entries@[i as int].token@,
                None => !self@.contains_key(id@) && forall|k: int|
                    0 <= k < self.entries@.len() ==> (#[trigger] self.entries@[k]).id@ != id@,
            },
    {
        proof {
            use_type_invariant(self);
            lemma_tokens(self.entries@);
        }
        let mut i: usize = 0;
        while i < self.entries.len()
            invariant
                i <= self.entries@.len(),
                ids_differ(self.entries@),
                forall|k: int|
                    0 <= k < self.entries@.len() ==> tokens_of(self.entries@).contains_key(
                        (#[trigger] self.entries@[k]).id@,
                    ) && tokens_of(self.entries@)[self.entries@[k].id@] == self.entries@[k].token@,
                forall|k: int| 0 <= k < i ==> (#[trigger] self.entries@[k]).id@ != id@,
            decreases self.entries.len() - i,
        {
            if self.entries[i].id.same(id) {
                return Some(i);
            }
            i += 1;
        }
        None
    }

    /// Put a request in flight. One that already is keeps its token, and its
    /// registrations share it.
    pub fn register(&mut self, id: &RequestId) -> (r: Registration)
        ensures
            r@ == id@,
            final(self)@ == (if old(self)@.contains_key(id@) {
                old(self)@
            } else {
                old(self)@.insert(id@, false)
            }),
            is_free_at(old(self).shares(), r.slot()),
            final(self).shares() == with_share(
                old(self).shares(),
                r.slot(),
                ShareView { id: id@, cancelled: final(self)@[id@], live: true },
            ),
    {
        let mut token = CancelToken::default();
        if let Some(i) = self.place(id) {
            if self.entries[i].token.is_cancelled() {
                token.cancel();
            }
        } else {
            let mut entries: Vec<InFlight> = Vec::new();
            let ghost before = self.entries@;
            std::mem::swap(&mut entries, &mut self.entries);
            entries.push(InFlight { id: id.clone(), token: CancelToken::default() });
            proof {
                assert(entries@.drop_last() =~= before);
                assert forall|i: int, j: int| 0 <= i < j < entries@.len() implies (
                #[trigger] entries@[i]).id@ != (#[trigger] entries@[j]).id@ by {
                    assert(entries@[i] == before[i]);
                    if j < before.len() {
                        assert(entries@[j] == before[j]);
                    }
                }
            }
            self.entries = entries;
        }
        assert(token@ == self@[id@]);
        let ghost before = self.held@;
        let slot: usize = self.free_slot();
        let share = Share { id: id.clone(), token, live: true };
        let ghost view = share@;
        let mut held: Vec<Option<Share>> = Vec::new();
        std::mem::swap(&mut held, &mut self.held);
        if slot < held.len() {
            held.set(slot, Some(share));
        } else {
            held.push(Some(share));
        }
        self.held = held;
        assert(self.shares() =~= with_share(share_views(before), slot as int, view));
        Registration { id: id.clone(), slot }
    }

    fn cancel_shares(&mut self, id: &RequestId)
        ensures
            final(self).entries == old(self).entries,
            final(self).shares() == cancelled_shares(old(self).shares(), id@),
    {
        proof {
            use_type_invariant(&*self);
        }
        let ghost before = self.held@;
        let mut held: Vec<Option<Share>> = Vec::new();
        std::mem::swap(&mut held, &mut self.held);
        let mut now: Vec<Option<Share>> = Vec::new();
        let mut i: usize = 0;
        while i < held.len()
            invariant
                i <= held@.len(),
                held@ == before,
                now@.len() == i,
                forall|k: int|
                    0 <= k < i ==> share_view(#[trigger] now@[k]) == cancelled_share(
                        share_view(before[k]),
                        id@,
                    ),
            decreases held.len() - i,
        {
            let next: Option<Share> = match &held[i] {
                Some(share) => {
                    let mut token = CancelToken::default();
                    if share.token.is_cancelled() || share.live && share.id.same(id) {
                        token.cancel();
                    }
                    Some(Share { id: share.id.clone(), token, live: share.live })
                },
                None => None,
            };
            now.push(next);
            i += 1;
        }
        self.held = now;
        assert(self.shares() =~= cancelled_shares(share_views(before), id@));
    }

    /// Mark an in-flight request as cancelled; any other id is a no-op.
    pub fn cancel(&mut self, id: &RequestId)
        ensures
            final(self)@ == (if old(self)@.contains_key(id@) {
                old(self)@.insert(id@, true)
            } else {
                old(self)@
            }),
            final(self).shares() == cancelled_shares(old(self).shares(), id@),
    {
        self.cancel_shares(id);
        if let Some(place) = self.place(id) {
            let mut entries: Vec<InFlight> = Vec::new();
            let ghost before = self.entries@;
            std::mem::swap(&mut entries, &mut self.entries);
            let mut token = CancelToken::default();
            token.cancel();
            entries.set(place, InFlight { id: id.clone(), token });
            proof {
                assert(ids_differ(entries@));
                lemma_tokens(before);
                lemma_tokens(entries@);
                let now = tokens_of(entries@);
                let was = tokens_of(before);
                assert forall|key: IdView| now.contains_key(key) <==> was.insert(id@, true).contains_key(
                    key,
                ) by {
                    if was.contains_key(key) {
                        let i = choose|i: int| 0 <= i < before.len() && (#[trigger] before[i]).id@ == key;
                        assert(entries@[i].id@ == key);
                    }
                    if now.contains_key(key) {
                        let i = choose|i: int|
                            0 <= i < entries@.len() && (#[trigger] entries@[i]).id@ == key;
                        assert(before[i].id@ == key);
                    }
                }
                assert forall|key: IdView| now.contains_key(key) implies now[key] == was.insert(
                    id@,
                    true,
                )[key] by {
                    let i = choose|i: int|
                        0 <= i < entries@.len() && (#[trigger] entries@[i]).id@ == key;
                    assert(before[i].id@ == key);
                    if i == place {
                        assert(entries@[place as int].token@);
                    }
                }
                assert(now =~= was.insert(id@, true));
            }
            self.entries = entries;
        }
    }

    fn release_shares(&mut self, id: &RequestId, slot: usize)
        ensures
            final(self).entries == old(self).entries,
            final(self).shares() == released_shares(old(self).shares(), id@, slot as int),
    {
        proof {
            use_type_invariant(&*self);
        }
        let ghost before = self.held@;
        let mut held: Vec<Option<Share>> = Vec::new();
        std::mem::swap(&mut held, &mut self.held);
        let mut now: Vec<Option<Share>> = Vec::new();
        let mut i: usize = 0;
        while i < held.len()
            invariant
                i <= held@.len(),
                held@ == before,
                now@.len() == i,
                forall|k: int|
                    0 <= k < i ==> share_view(#[trigger] now@[k]) == (if k == slot {
                        None
                    } else {
                        parted_share(share_view(before[k]), id@)
                    }),
            decreases held.len() - i,
        {
            let next: Option<Share> = match &held[i] {
                Some(share) => if i == slot {
                    None
                } else {
                    let mut token = CancelToken::default();
                    if share.token.is_cancelled() {
                        token.cancel();
                    }
                    let live: bool = share.live && !share.id.same(id);
                    Some(Share { id: share.id.clone(), token, live })
                },
                None => None,
            };
            now.push(next);
            i += 1;
        }
        self.held = now;
        assert(self.shares() =~= released_shares(share_views(before), id@, slot as int));
    }

    /// Take a request out of flight. Other registrations of its id keep their token
    /// as it is.
    pub fn release(&mut self, registration: Registration)
        ensures
            final(self)@ == old(self)@.remove(registration@),
            final(self).shares() == released_shares(
                old(self).shares(),
                registration@,
                registration.slot(),
            ),
    {
        self.release_shares(&registration.id, registration.slot);
        let id = registration.id;
        match self.place(&id) {
            None => {
                assert(self@.remove(id@) =~= self@);
            },
            Some(place) => {
                let mut entries: Vec<InFlight> = Vec::new();
                let ghost before = self.entries@;
                std::mem::swap(&mut entries, &mut self.entries);
                entries.remove(place);
                proof {
                    assert forall|i: int, j: int| 0 <= i < j < entries@.len() implies (
                    #[trigger] entries@[i]).id@ != (#[trigger] entries@[j]).id@ by {
                        let a = if i < place {
                            i
                        } else {
                            i + 1
                        };
                        let b = if j < place {
                            j
                        } else {
                            j + 1
                        };
                        assert(entries@[i] == before[a] && entries@[j] == before[b]);
                    }
                    lemma_tokens(before);
                    lemma_tokens(entries@);
                    let now = tokens_of(entries@);
                    let was = tokens_of(before);
                    assert forall|key: IdView| now.contains_key(key) <==> was.remove(
                        id@,
                    ).contains_key(key) by {
                        if was.contains_key(key) && key != id@ {
                            let i = choose|i: int|
                                0 <= i < before.len() && (#[trigger] before[i]).id@ == key;
                            if i < place {
                                assert(entries@[i] == before[i]);
                            } else {
                                assert(entries@[i - 1] == before[i]);
                            }
                        }
                        if now.contains_key(key) {
                            let i = choose|i: int|
                                0 <= i < entries@.len() && (#[trigger] entries@[i]).id@ == key;
                            let a = if i < place {
                                i
                            } else {
                                i + 1
                            };
                            assert(entries@[i] == before[a]);
                            assert(before[place as int].id@ != before[a].id@);
                        }
                    }
                    assert forall|key: IdView| now.contains_key(key) implies now[key] == was.remove(
                        id@,
                    )[key] by {
                        let i = choose|i: int|
                            0 <= i < entries@.len() && (#[trigger] entries@[i]).id@ == key;
                        let a = if i < place {
                            i
                        } else {
                            i + 1
                        };
                        assert(entries@[i] == before[a]);
                    }
                    assert(now =~= was.remove(id@));
                }
                self.entries = entries;
            },
        }
    }

    /// Number of requests in flight.
    pub fn len(&self) -> (r: usize)
        ensures
            r == self@.len(),
    {
        proof {
            use_type_invariant(self);
            lemma_tokens(self.entries@);
        }
        self.entries.len()
    }

    pub fn is_empty(&self) -> (r: bool)
        ensures
            r == (self@.len() == 0),
    {
        self.len() == 0
    }
}

// ---------------------------------------------------------------------------
// Laws

/// A registry after a cancel of `id`.
pub open spec fn after_cancel(registry: Map<IdView, bool>, id: IdView) -> Map<IdView, bool> {
    if registry.contains_key(id) {
        registry.insert(id, true)
    } else {
        registry
    }
}

/// A cancel changes nothing for any other request, and never puts one in flight.
pub proof fn cancel_affects_only_its_request(registry: Map<IdView, bool>, id: IdView, other: IdView)
    requires
        other != id,
    ensures
        after_cancel(registry, id).dom() == registry.dom(),
        registry.contains_key(other) ==> after_cancel(registry, id)[other] == registry[other],
        !registry.contains_key(id) ==> after_cancel(registry, id) == registry,
{
    assert(after_cancel(registry, id).dom() =~= registry.dom());
}

/// A second cancel of a request changes nothing.
pub proof fn cancel_is_idempotent(registry: Map<IdView, bool>, id: IdView)
    ensures
        after_cancel(after_cancel(registry, id), id) == after_cancel(registry, id),
{
    assert(after_cancel(after_cancel(registry, id), id) =~= after_cancel(registry, id));
}

/// The operations keep every live share at the token of its id: a new registration,
/// a cancel and a release do.
pub proof fn shares_keep_their_tokens(
    shares: Shares,
    tokens: Map<IdView, bool>,
    id: IdView,
    slot: int,
)
    requires
        have_tokens(shares, tokens),
    ensures
        is_free_at(shares, slot) ==> ({
            let now = if tokens.contains_key(id) {
                tokens
            } else {
                tokens.insert(id, false)
            };
            have_tokens(
                with_share(shares, slot, ShareView { id, cancelled: now[id], live: true }),
                now,
            )
        }),
        have_tokens(cancelled_shares(shares, id), after_cancel(tokens, id)),
        have_tokens(released_shares(shares, id, slot), tokens.remove(id)),
{
    assert forall|k: int| 0 <= k < shares.len() implies ((
    #[trigger] cancelled_shares(shares, id)[k]) matches Some(share) ==> (share.live ==> after_cancel(
        tokens,
        id,
    ).contains_key(share.id) && after_cancel(tokens, id)[share.id] == share.cancelled)) by {
        assert(shares[k] is Some ==> (shares[k]->0.live ==> tokens.contains_key(shares[k]->0.id)));
    }
    assert forall|k: int| 0 <= k < shares.len() implies ((
    #[trigger] released_shares(shares, id, slot)[k]) matches Some(share) ==> (share.live
        ==> tokens.remove(id).contains_key(share.id) && tokens.remove(id)[share.id]
        == share.cancelled)) by {
        assert(shares[k] is Some ==> (shares[k]->0.live ==> tokens.contains_key(shares[k]->0.id)));
    }
    if is_free_at(shares, slot) {
        let now = if tokens.contains_key(id) {
            tokens
        } else {
            tokens.insert(id, false)
        };
        let more = with_share(shares, slot, ShareView { id, cancelled: now[id], live: true });
        assert forall|k: int| 0 <= k < more.len() implies ((#[trigger] more[k]) matches Some(share)
            ==> (share.live ==> now.contains_key(share.id) && now[share.id] == share.cancelled)) by {
            if k != slot {
                assert(more[k] == shares[k]);
            }
        }
    }
}

/// Registrations of one request share its token: none is cancelled before a cancel of
/// the id, and a cancel reaches all of them and no other.
pub proof fn registrations_share_the_token(
    shares: Shares,
    tokens: Map<IdView, bool>,
    id: IdView,
    i: int,
    j: int,
)
    requires
        have_tokens(shares, tokens),
        0 <= i < shares.len(),
        0 <= j < shares.len(),
        shares[i] matches Some(share) && share.live && share.id == id,
        shares[j] is Some,
    ensures
        shares[j]->0.live && shares[j]->0.id == id ==> is_cancelled_at(shares, i)
            == is_cancelled_at(shares, j),
        is_cancelled_at(cancelled_shares(shares, id), i),
        is_cancelled_at(cancelled_shares(shares, id), j) == (is_cancelled_at(shares, j)
            || shares[j]->0.live && shares[j]->0.id == id),
{
}

/// What is cancelled stays so, whatever is registered, cancelled or released later,
/// until its own registration is released.
pub proof fn a_cancelled_token_stays_cancelled(
    shares: Shares,
    i: int,
    id: IdView,
    slot: int,
    share: ShareView,
)
    requires
        is_cancelled_at(shares, i),
    ensures
        is_free_at(shares, slot) ==> is_cancelled_at(with_share(shares, slot, share), i),
        is_cancelled_at(cancelled_shares(shares, id), i),
        slot != i ==> is_cancelled_at(released_shares(shares, id, slot), i),
{
}

} // verus!
