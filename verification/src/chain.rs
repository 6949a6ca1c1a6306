//! Fork-aware header tree with cumulative-work tracking, a bounded block-body
//! cache, and deterministic active-tip selection.

use vstd::prelude::*;
use std::collections::HashMap;

verus! {

broadcast use vstd::std_specs::hash::group_hash_axioms, vstd::set::group_set_axioms, vstd::map::group_map_axioms;

/// A block header as the core reads it: its own identifier, the identifier of
/// its parent, and its intrinsic proof-of-work weight. Parsing and
/// cryptographic validation happen outside this core; headers arrive as plain
/// values.
#[derive(Clone, Copy, Debug, PartialEq, Eq, Structural)]
pub struct Header {
    /// Identifier of this header.
    pub id: u64,
    /// Identifier of the parent header.
    pub prev: u64,
    /// Intrinsic work contributed by this single header.
    pub work: u64,
}

/// A full block body: its header plus opaque payload bytes.
#[derive(Clone, Debug)]
pub struct Block {
    /// The block's header.
    pub header: Header,
    /// The block's payload, opaque to the core.
    pub payload: Vec<u8>,
}

/// A header enriched with the metadata derived when it was accepted: its
/// height (distance from genesis) and the cumulative work from genesis
/// through this header.
#[derive(Clone, Copy, Debug, PartialEq, Eq, Structural)]
pub struct CachedHeader {
    /// The accepted header.
    pub header: Header,
    /// Distance from genesis along the parent chain.
    pub height: u64,
    /// Sum of the intrinsic work of this header and all its ancestors.
    pub work: u128,
}

/// The successful outcomes of [`BlockchainState::add_header`].
#[derive(Clone, Copy, Debug, PartialEq, Eq, Structural)]
pub enum AddHeaderResult {
    /// The header was new and has been cached.
    HeaderAdded(CachedHeader),
    /// The header was already cached; the cached entry is returned unchanged.
    HeaderAlreadyExists(CachedHeader),
}

/// The failures of [`BlockchainState::add_header`].
#[derive(Clone, Copy, Debug, PartialEq, Eq, Structural)]
pub enum AddHeaderError {
    /// The validity predicate rejected the header; carries the header's id.
    InvalidHeader(u64),
    /// The header's parent is not cached; carries the header's id.
    PrevHeaderNotCached(u64),
}

/// The failures of [`BlockchainState::add_block`].
#[derive(Clone, Copy, Debug, PartialEq, Eq, Structural)]
pub enum AddBlockError {
    /// The block-level validity predicate rejected the body; carries the
    /// block's id.
    InvalidBlock(u64),
    /// Adding the block's header failed.
    Header(AddHeaderError),
}

/// Injected validity capability: the core treats header and block validation
/// as pluggable predicates so that it stays independent of any particular
/// consensus rules.
pub trait ValidationPolicy: Sized {
    /// What the header predicate decides, as a mathematical predicate.
    spec fn header_ok(&self, h: Header) -> bool;

    /// What the block predicate decides, as a mathematical predicate.
    spec fn block_ok(&self, b: Block) -> bool;

    /// Decide whether a header is acceptable.
    fn is_header_valid(&self, h: &Header) -> (r: bool)
        ensures
            r == self.header_ok(*h),
    ;

    /// Decide whether a block body is structurally acceptable.
    fn is_block_valid(&self, b: &Block) -> (r: bool)
        ensures
            r == self.block_ok(*b),
    ;
}

/// A policy that accepts every header and block, mirroring a core that runs
/// before real validation rules are wired in.
#[derive(Clone, Copy, Debug, PartialEq, Eq, Structural)]
pub struct AcceptAllValidation;

impl ValidationPolicy for AcceptAllValidation {
    open spec fn header_ok(&self, h: Header) -> bool {
        true
    }

    open spec fn block_ok(&self, b: Block) -> bool {
        true
    }

    fn is_header_valid(&self, h: &Header) -> (r: bool) {
        true
    }

    fn is_block_valid(&self, b: &Block) -> (r: bool) {
        true
    }
}

/// A deterministic policy that rejects exactly the listed header and block
/// ids; used to exercise the failure paths.
#[derive(Clone, Debug)]
pub struct RejectListValidation {
    /// Header ids the header predicate rejects.
    pub rejected_headers: Vec<u64>,
    /// Block ids the block predicate rejects.
    pub rejected_blocks: Vec<u64>,
}

impl ValidationPolicy for RejectListValidation {
    open spec fn header_ok(&self, h: Header) -> bool {
        !self.rejected_headers@.contains(h.id)
    }

    open spec fn block_ok(&self, b: Block) -> bool {
        !self.rejected_blocks@.contains(b.header.id)
    }

    fn is_header_valid(&self, h: &Header) -> (r: bool) {
        !contains_id(&self.rejected_headers, h.id)
    }

    fn is_block_valid(&self, b: &Block) -> (r: bool) {
        !contains_id(&self.rejected_blocks, b.header.id)
    }
}

/// Linear membership scan over a list of ids.
pub fn contains_id(ids: &Vec<u64>, id: u64) -> (r: bool)
    ensures
        r == ids@.contains(id),
{
    let mut i: usize = 0;
    while i < ids.len()
        invariant
            0 <= i <= ids@.len(),
            forall|j: int| 0 <= j < i ==> ids@[j] != id,
        decreases ids@.len() - i,
    {
        if ids[i] == id {
            return true;
        }
        i = i + 1;
    }
    false
}

/// The mathematical model of a [`BlockchainState`]: the header tree, the
/// children relation, the block-body cache, the tracked tips and the genesis
/// entry.
pub ghost struct StoreModel {
    /// Header id to cached header.
    pub headers: Map<u64, CachedHeader>,
    /// Header id to the ids of its known children, in insertion order.
    pub children: Map<u64, Seq<u64>>,
    /// Header id to cached block body.
    pub blocks: Map<u64, Block>,
    /// The tracked candidate chain heads, in first-seen order.
    pub tips: Seq<CachedHeader>,
    /// The genesis entry the store was seeded with.
    pub genesis: CachedHeader,
}

/// Well-formedness of a store model: the genesis entry is cached at height 0;
/// cache keys match the ids of the entries they hold; every non-genesis entry
/// sits one level above its cached parent with the parent's work plus its
/// own; heights stay below the cache size and cumulative work stays below
/// `(height + 1)` times the largest intrinsic work; every tracked tip and
/// every recorded child is cached, and tips have distinct ids.
pub open spec fn model_wf(m: StoreModel) -> bool {
    &&& m.headers.dom().finite()
    &&& m.children.dom().finite()
    &&& m.blocks.dom().finite()
    &&& m.headers.len() <= u64::MAX as int
    &&& m.headers.contains_key(m.genesis.header.id)
    &&& m.headers[m.genesis.header.id] == m.genesis
    &&& m.genesis.height == 0
    &&& m.genesis.work == m.genesis.header.work as u128
    &&& forall|id: u64| m.headers.contains_key(id) ==> (#[trigger] m.headers[id]).header.id == id
    &&& forall|id: u64|
        m.headers.contains_key(id) && id != m.genesis.header.id ==> {
            let ch = #[trigger] m.headers[id];
            &&& m.headers.contains_key(ch.header.prev)
            &&& ch.height == m.headers[ch.header.prev].height + 1
            &&& ch.work == m.headers[ch.header.prev].work + ch.header.work
        }
    &&& forall|id: u64|
        m.headers.contains_key(id) ==> (#[trigger] m.headers[id]).height < m.headers.len()
    &&& forall|id: u64|
        m.headers.contains_key(id) ==> (#[trigger] m.headers[id]).work <= (m.headers[id].height
            + 1) * (u64::MAX as int)
    &&& m.tips.len() >= 1
    &&& forall|i: int|
        0 <= i < m.tips.len() ==> m.headers.contains_key((#[trigger] m.tips[i]).header.id)
            && m.headers[m.tips[i].header.id] == m.tips[i]
    &&& forall|i: int, j: int|
        0 <= i < j < m.tips.len() ==> (#[trigger] m.tips[i]).header.id != (
        #[trigger] m.tips[j]).header.id
    &&& forall|p: u64, i: int|
        m.children.contains_key(p) && 0 <= i < m.children[p].len() ==> m.headers.contains_key(
            #[trigger] m.children[p][i],
        )
    &&& forall|p: u64| #[trigger] m.children.contains_key(p) ==> m.headers.contains_key(p)
    &&& forall|id: u64|
        #[trigger] m.headers.contains_key(id) ==> (model_has_tip(m, id) <==> !(
        m.children.contains_key(id) && m.children[id].len() > 0))
    &&& forall|k: u64| #[trigger] m.blocks.contains_key(k) ==> m.headers.contains_key(k)
        && m.blocks[k].header.id == k
}

/// The entry that a newly accepted header gets: one level above its parent,
/// with the parent's cumulative work plus its own intrinsic work.
pub open spec fn model_new_cached(m: StoreModel, h: Header) -> CachedHeader {
    CachedHeader {
        header: h,
        height: (m.headers[h.prev].height + 1) as u64,
        work: (m.headers[h.prev].work + h.work) as u128,
    }
}

/// Whether some tracked tip has the given id.
pub open spec fn model_has_tip(m: StoreModel, id: u64) -> bool {
    exists|i: int| 0 <= i < m.tips.len() && m.tips[i].header.id == id
}

/// The position of the tracked tip with the given id (unique in a
/// well-formed store).
pub open spec fn model_tip_idx(m: StoreModel, id: u64) -> int {
    choose|i: int| 0 <= i < m.tips.len() && m.tips[i].header.id == id
}

/// The transition that accepting one header makes on the store model, given
/// what the validity predicate decides for it. An already-cached header
/// changes nothing; a rejected or disconnected header changes nothing and
/// fails; otherwise the header is cached, recorded as a child of its parent,
/// and replaces its parent among the tips, or becomes a new tip if its parent
/// was not tracked as one.
pub open spec fn model_add_header(m: StoreModel, h: Header, valid: bool) -> (StoreModel, Result<
    AddHeaderResult,
    AddHeaderError,
>) {
    if m.headers.contains_key(h.id) {
        (m, Ok(AddHeaderResult::HeaderAlreadyExists(m.headers[h.id])))
    } else if !valid {
        (m, Err(AddHeaderError::InvalidHeader(h.id)))
    } else if !m.headers.contains_key(h.prev) {
        (m, Err(AddHeaderError::PrevHeaderNotCached(h.id)))
    } else {
        let ch = model_new_cached(m, h);
        let kids = if m.children.contains_key(h.prev) {
            m.children[h.prev]
        } else {
            Seq::<u64>::empty()
        };
        let tips2 = if model_has_tip(m, h.prev) {
            m.tips.update(model_tip_idx(m, h.prev), ch)
        } else {
            m.tips.push(ch)
        };
        (
            StoreModel {
                headers: m.headers.insert(h.id, ch),
                children: m.children.insert(h.prev, kids.push(h.id)),
                blocks: m.blocks,
                tips: tips2,
                genesis: m.genesis,
            },
            Ok(AddHeaderResult::HeaderAdded(ch)),
        )
    }
}

/// The transition that a whole batch of headers makes on the store model:
/// headers are applied in order and the batch stops at the first failure. The
/// result carries the final model, the entries newly added before the
/// failure, and the failure itself, if any.
pub open spec fn model_add_headers(m: StoreModel, hs: Seq<Header>, ok: spec_fn(Header) -> bool) -> (
    StoreModel,
    Seq<CachedHeader>,
    Option<AddHeaderError>,
)
    decreases hs.len(),
{
    if hs.len() == 0 {
        (m, Seq::<CachedHeader>::empty(), None)
    } else {
        let step = model_add_header(m, hs[0], ok(hs[0]));
        match step.1 {
            Ok(AddHeaderResult::HeaderAdded(ch)) => {
                let rest = model_add_headers(step.0, hs.drop_first(), ok);
                (rest.0, seq![ch] + rest.1, rest.2)
            },
            Ok(AddHeaderResult::HeaderAlreadyExists(_)) => model_add_headers(
                step.0,
                hs.drop_first(),
                ok,
            ),
            Err(e) => (step.0, Seq::<CachedHeader>::empty(), Some(e)),
        }
    }
}

/// The transition that accepting one block makes on the store model: the
/// block's header is accepted first (surfacing its errors), then the block
/// body is checked, and only if both succeed the body is cached. A rejected
/// body leaves the already-accepted header in place.
pub open spec fn model_add_block(m: StoreModel, b: Block, hvalid: bool, bvalid: bool) -> (
    StoreModel,
    Result<u64, AddBlockError>,
) {
    let step = model_add_header(m, b.header, hvalid);
    match step.1 {
        Err(e) => (step.0, Err(AddBlockError::Header(e))),
        Ok(hres) => if !bvalid {
            (step.0, Err(AddBlockError::InvalidBlock(b.header.id)))
        } else {
            let height = match hres {
                AddHeaderResult::HeaderAdded(c) => c.height,
                AddHeaderResult::HeaderAlreadyExists(c) => c.height,
            };
            (
                StoreModel {
                    headers: step.0.headers,
                    children: step.0.children,
                    blocks: step.0.blocks.insert(b.header.id, b),
                    tips: step.0.tips,
                    genesis: step.0.genesis,
                },
                Ok(height),
            )
        },
    }
}

/// The tip a left-to-right scan with a strict-improvement rule selects: the
/// first tip, in first-seen order, whose cumulative work is maximal.
pub open spec fn spec_active_tip(tips: Seq<CachedHeader>) -> CachedHeader
    decreases tips.len(),
{
    if tips.len() <= 1 {
        tips[0]
    } else {
        let rest = spec_active_tip(tips.drop_last());
        if tips.last().work > rest.work {
            tips.last()
        } else {
            rest
        }
    }
}

/// The selected active tip carries the maximum work over all tips, and is
/// one of them: the first one, in first-seen order, with that work.
pub proof fn lemma_active_tip_is_max(tips: Seq<CachedHeader>)
    requires
        tips.len() >= 1,
    ensures
        exists|i: int|
            0 <= i < tips.len() && tips[i] == spec_active_tip(tips) && (forall|j: int|
                0 <= j < i ==> (#[trigger] tips[j]).work < spec_active_tip(tips).work),
        forall|j: int| 0 <= j < tips.len() ==> (#[trigger] tips[j]).work <= spec_active_tip(
            tips,
        ).work,
    decreases tips.len(),
{
    if tips.len() == 1 {
        assert(tips[0] == spec_active_tip(tips));
    } else {
        lemma_active_tip_is_max(tips.drop_last());
        let rest = spec_active_tip(tips.drop_last());
        let i0 = choose|i: int|
            0 <= i < tips.drop_last().len() && tips.drop_last()[i] == rest && (forall|j: int|
                0 <= j < i ==> (#[trigger] tips.drop_last()[j]).work < rest.work);
        assert forall|j: int| 0 <= j < tips.len() - 1 implies (#[trigger] tips[j]).work
            <= rest.work by {
            assert(tips.drop_last()[j] == tips[j]);
        }
        if tips.last().work > rest.work {
            let i = tips.len() - 1;
            assert(tips[i] == spec_active_tip(tips));
            assert(forall|j: int|
                0 <= j < i ==> (#[trigger] tips[j]).work < spec_active_tip(tips).work);
        } else {
            assert(tips.drop_last()[i0] == tips[i0]);
            assert(tips[i0] == spec_active_tip(tips));
            assert forall|j: int| 0 <= j < i0 implies (#[trigger] tips[j]).work < spec_active_tip(
                tips,
            ).work by {
                assert(tips.drop_last()[j] == tips[j]);
            }
        }
    }
}

/// Height/work law: in a well-formed store, every non-genesis cached header
/// sits exactly one level above its cached parent, and its cumulative work is
/// the parent's cumulative work plus its own intrinsic work.
pub proof fn lemma_height_work_invariant(m: StoreModel, id: u64)
    requires
        model_wf(m),
        m.headers.contains_key(id),
        id != m.genesis.header.id,
    ensures
        m.headers.contains_key(m.headers[id].header.prev),
        m.headers[id].height == m.headers[m.headers[id].header.prev].height + 1,
        m.headers[id].work == m.headers[m.headers[id].header.prev].work
            + m.headers[id].header.work,
{
}

/// Idempotence law: accepting the same header twice yields `HeaderAdded`
/// first and `HeaderAlreadyExists` of the same entry second, and the second
/// acceptance leaves the store unchanged.
pub proof fn lemma_add_header_idempotent(m: StoreModel, h: Header, valid: bool)
    requires
        !m.headers.contains_key(h.id),
        valid,
        m.headers.contains_key(h.prev),
    ensures
        ({
            let first = model_add_header(m, h, valid);
            let second = model_add_header(first.0, h, valid);
            let ch = model_new_cached(m, h);
            &&& first.1 == Ok::<AddHeaderResult, AddHeaderError>(AddHeaderResult::HeaderAdded(ch))
            &&& second.0 == first.0
            &&& second.1 == Ok::<AddHeaderResult, AddHeaderError>(
                AddHeaderResult::HeaderAlreadyExists(ch),
            )
        }),
{
    broadcast use vstd::map::group_map_axioms;

}

/// The id standing `k` parent steps above `id` in the header cache.
pub open spec fn ancestor_at(m: StoreModel, id: u64, k: nat) -> u64
    decreases k,
{
    if k == 0 {
        id
    } else {
        ancestor_at(m, m.headers[id].header.prev, (k - 1) as nat)
    }
}

/// Whether the cached parent chain from `id` extends at least `k` steps:
/// `id` and its first `k` iterated parents are all cached.
pub open spec fn chain_extends(m: StoreModel, id: u64, k: nat) -> bool
    decreases k,
{
    if k == 0 {
        m.headers.contains_key(id)
    } else {
        m.headers.contains_key(id) && chain_extends(m, m.headers[id].header.prev, (k - 1) as nat)
    }
}

/// Walking one more step lands on the previous ancestor's parent, and the
/// chain extends one step further exactly when that parent is cached.
pub proof fn lemma_chain_snoc(m: StoreModel, id: u64, k: nat)
    ensures
        ancestor_at(m, id, (k + 1) as nat) == m.headers[ancestor_at(m, id, k)].header.prev,
        chain_extends(m, id, (k + 1) as nat) == (chain_extends(m, id, k)
            && m.headers.contains_key(ancestor_at(m, id, (k + 1) as nat))),
    decreases k,
{
    let prev = m.headers[id].header.prev;
    if k == 0 {
        assert(ancestor_at(m, id, 1) == ancestor_at(m, prev, 0));
        assert(chain_extends(m, id, 1) == (m.headers.contains_key(id) && chain_extends(
            m,
            prev,
            0,
        )));
    } else {
        lemma_chain_snoc(m, prev, (k - 1) as nat);
        assert(ancestor_at(m, id, (k + 1) as nat) == ancestor_at(m, prev, k));
        assert(ancestor_at(m, id, k) == ancestor_at(m, prev, (k - 1) as nat));
        assert(chain_extends(m, id, (k + 1) as nat) == (m.headers.contains_key(id)
            && chain_extends(m, prev, k)));
        assert(chain_extends(m, id, k) == (m.headers.contains_key(id) && chain_extends(
            m,
            prev,
            (k - 1) as nat,
        )));
    }
}

/// A chain that extends `k` steps extends any smaller number of steps.
pub proof fn lemma_chain_mono(m: StoreModel, id: u64, j: nat, k: nat)
    requires
        chain_extends(m, id, k),
        j <= k,
    ensures
        chain_extends(m, id, j),
    decreases k - j,
{
    if j < k {
        lemma_chain_snoc(m, id, (k - 1) as nat);
        lemma_chain_mono(m, id, j, (k - 1) as nat);
    }
}

/// The distance from the tip at which the locator's `i`-th entry stands:
/// the first nine entries are the nine most recent ancestors, and each
/// further entry doubles the gap to the one before it.
pub open spec fn locator_distance(i: nat) -> nat
    decreases i,
{
    if i <= 8 {
        i
    } else {
        locator_distance((i - 1) as nat) + vstd::arithmetic::power2::pow2((i - 8) as nat)
    }
}

/// Where the locator walk stops, scanning onward from entry `i`: the first
/// position whose distance the cached chain no longer covers, and 22 at
/// most.
pub open spec fn locator_emit_count_from(m: StoreModel, tip: u64, i: int) -> int
    decreases 22 - i,
{
    if i >= 22 {
        22
    } else if !chain_extends(m, tip, locator_distance(i as nat)) {
        i
    } else {
        locator_emit_count_from(m, tip, i + 1)
    }
}

/// How many entries the locator walk emits: 22, or fewer when the cached
/// chain runs out first.
pub open spec fn locator_emit_count(m: StoreModel, tip: u64) -> int {
    locator_emit_count_from(m, tip, 1)
}

/// The emitted count is the position of the first distance the chain fails
/// to cover.
pub proof fn lemma_locator_emit_count(m: StoreModel, tip: u64, k: int)
    requires
        1 <= k <= 22,
        forall|j: int|
            1 <= j < k ==> chain_extends(m, tip, #[trigger] locator_distance(j as nat)),
        k < 22 ==> !chain_extends(m, tip, locator_distance(k as nat)),
    ensures
        locator_emit_count(m, tip) == k,
{
    lemma_locator_emit_count_from(m, tip, k, 1);
}

/// Helper induction for [`lemma_locator_emit_count`].
proof fn lemma_locator_emit_count_from(m: StoreModel, tip: u64, k: int, i: int)
    requires
        1 <= i <= k <= 22,
        forall|j: int|
            i <= j < k ==> chain_extends(m, tip, #[trigger] locator_distance(j as nat)),
        k < 22 ==> !chain_extends(m, tip, locator_distance(k as nat)),
    ensures
        locator_emit_count_from(m, tip, i) == k,
    decreases 22 - i,
{
    if i < k {
        lemma_locator_emit_count_from(m, tip, k, i + 1);
    }
}

/// What [`BlockchainState::locator_hashes`] promises of its result: a
/// nonempty list of at most 23 cached header ids that starts at the active
/// tip and ends at genesis. The walk emits [`locator_emit_count`] entries,
/// each the exact ancestor at the recent-eight-then-doubling distance of
/// [`locator_distance`] for its position — 22 entries unless the cached
/// chain runs out first — and genesis is appended only when it was not
/// already the last entry emitted.
pub open spec fn is_locator_sample(m: StoreModel, lh: Seq<u64>) -> bool {
    let tip = spec_active_tip(m.tips).header.id;
    let e = locator_emit_count(m, tip);
    &&& 1 <= lh.len() <= 23
    &&& lh[0] == tip
    &&& lh[lh.len() - 1] == m.genesis.header.id
    &&& forall|i: int| 0 <= i < lh.len() ==> m.headers.contains_key(#[trigger] lh[i])
    &&& (lh.len() == e || lh.len() == e + 1)
    &&& (forall|i: int|
        0 <= i < e ==> chain_extends(m, tip, #[trigger] locator_distance(i as nat)))
    &&& (forall|i: int|
        0 <= i < e ==> #[trigger] lh[i] == ancestor_at(m, tip, locator_distance(i as nat)))
    &&& (lh.len() == e + 1 ==> lh[e] == m.genesis.header.id && lh[e - 1] != m.genesis.header.id)
    &&& (e == 22 && lh.len() == 22 ==> lh[21] == m.genesis.header.id)
}

/// The model of a freshly seeded store: one genesis entry at height 0 with
/// its intrinsic work, as the sole tip, and empty children and block caches.
pub open spec fn model_new_store(genesis: Header) -> StoreModel {
    let g = CachedHeader { header: genesis, height: 0, work: genesis.work as u128 };
    StoreModel {
        headers: Map::<u64, CachedHeader>::empty().insert(genesis.id, g),
        children: Map::<u64, Seq<u64>>::empty(),
        blocks: Map::<u64, Block>::empty(),
        tips: seq![g],
        genesis: g,
    }
}

/// Cache of a blockchain: all accepted headers, the child relationships
/// between them, a subset of full block bodies, and the set of candidate
/// chain tips.
pub struct BlockchainState<V: ValidationPolicy> {
    validator: V,
    header_cache: HashMap<u64, CachedHeader>,
    block_cache: HashMap<u64, Block>,
    children: HashMap<u64, Vec<u64>>,
    cached_genesis: CachedHeader,
    tips: Vec<CachedHeader>,
}

impl<V: ValidationPolicy> View for BlockchainState<V> {
    type V = StoreModel;

    closed spec fn view(&self) -> StoreModel {
        StoreModel {
            headers: self.header_cache@,
            children: self.children@.map_values(|v: Vec<u64>| v@),
            blocks: self.block_cache@,
            tips: self.tips@,
            genesis: self.cached_genesis,
        }
    }
}

impl<V: ValidationPolicy> BlockchainState<V> {
    /// The injected validation policy.
    pub closed spec fn policy(self) -> V {
        self.validator
    }

    /// The id of the genesis header.
    pub open spec fn genesis_id(self) -> u64 {
        self@.genesis.header.id
    }

    /// Well-formedness of the store; see [`model_wf`].
    pub open spec fn wf(self) -> bool {
        model_wf(self@)
    }

    /// Seed the store with one genesis header at height 0, carrying its
    /// intrinsic work, as the sole tip.
    pub fn new(genesis: Header, validator: V) -> (r: Self)
        ensures
            r.wf(),
            r.policy() == validator,
            r@.genesis == (CachedHeader {
                header: genesis,
                height: 0,
                work: genesis.work as u128,
            }),
            r@.headers == Map::<u64, CachedHeader>::empty().insert(genesis.id, r@.genesis),
            r@.children == Map::<u64, Seq<u64>>::empty(),
            r@.blocks == Map::<u64, Block>::empty(),
            r@.tips == seq![r@.genesis],
            r@ == model_new_store(genesis),
    {
        let cached_genesis = CachedHeader { header: genesis, height: 0, work: genesis.work as u128 };
        let mut header_cache: HashMap<u64, CachedHeader> = HashMap::new();
        header_cache.insert(genesis.id, cached_genesis);
        let block_cache: HashMap<u64, Block> = HashMap::new();
        let children: HashMap<u64, Vec<u64>> = HashMap::new();
        let mut tips: Vec<CachedHeader> = Vec::new();
        tips.push(cached_genesis);
        let r = BlockchainState { validator, header_cache, block_cache, children, cached_genesis, tips };
        proof {
            assert(r@.children =~= Map::<u64, Seq<u64>>::empty());
            assert(r@.tips =~= seq![r@.genesis]);
            assert forall|id: u64| #[trigger] r@.headers.contains_key(id) implies (model_has_tip(
                r@,
                id,
            ) <==> !(r@.children.contains_key(id) && r@.children[id].len() > 0)) by {
                assert(id == genesis.id);
                assert(r@.tips[0].header.id == genesis.id);
                assert(model_has_tip(r@, id));
            }
        }
        r
    }

    /// The tracked tips, in first-seen order.
    pub fn tips(&self) -> (r: &Vec<CachedHeader>)
        ensures
            r@ == self@.tips,
    {
        &self.tips
    }

    /// The genesis entry the store was initialized with.
    pub fn genesis(&self) -> (r: &CachedHeader)
        ensures
            *r == self@.genesis,
    {
        &self.cached_genesis
    }

    /// Look up the cached entry for a header id.
    pub fn get_header(&self, hash: &u64) -> (r: Option<&CachedHeader>)
        ensures
            match r {
                Some(c) => self@.headers.contains_key(*hash) && *c == self@.headers[*hash],
                None => !self@.headers.contains_key(*hash),
            },
    {
        self.header_cache.get(hash)
    }

    /// Look up the recorded children of a header id.
    pub fn get_children(&self, hash: &u64) -> (r: Option<&Vec<u64>>)
        ensures
            match r {
                Some(v) => self@.children.contains_key(*hash) && v@ == self@.children[*hash],
                None => !self@.children.contains_key(*hash),
            },
    {
        let r = self.children.get(hash);
        proof {
            assert(self@.children.dom() =~= self.children@.dom());
        }
        r
    }

    /// Whether a header id is cached.
    pub fn is_block_hash_known(&self, block_hash: &u64) -> (r: bool)
        ensures
            r == self@.headers.contains_key(*block_hash),
    {
        self.header_cache.contains_key(block_hash)
    }

    /// Look up the cached body for a header id.
    pub fn get_block(&self, block_hash: &u64) -> (r: Option<&Block>)
        ensures
            match r {
                Some(b) => self@.blocks.contains_key(*block_hash) && *b == self@.blocks[*block_hash],
                None => !self@.blocks.contains_key(*block_hash),
            },
    {
        self.block_cache.get(block_hash)
    }

    /// Accept one header: reject it if the validity predicate refuses it or
    /// its parent is unknown, return the cached entry unchanged if it is
    /// already known, and otherwise cache it one level above its parent and
    /// update the tip set.
    pub fn add_header(&mut self, header: Header) -> (r: Result<AddHeaderResult, AddHeaderError>)
        requires
            old(self).wf(),
        ensures
            final(self).wf(),
            final(self).policy() == old(self).policy(),
            ({
                let (m2, res) = model_add_header(
                    old(self)@,
                    header,
                    old(self).policy().header_ok(header),
                );
                final(self)@ == m2 && r == res
            }),
    {
        let block_hash = header.id;
        if let Some(cached_header) = self.header_cache.get(&block_hash) {
            return Ok(AddHeaderResult::HeaderAlreadyExists(*cached_header));
        }
        if !self.validator.is_header_valid(&header) {
            return Err(AddHeaderError::InvalidHeader(block_hash));
        }
        let prev_header = match self.header_cache.get(&header.prev) {
            Some(p) => *p,
            None => {
                return Err(AddHeaderError::PrevHeaderNotCached(block_hash));
            },
        };
        let cache_size = self.header_cache.len();
        proof {
            assert(prev_header.height < cache_size);
            assert(prev_header.work <= (prev_header.height + 1) * (u64::MAX as int));
            assert((prev_header.height + 1) * (u64::MAX as int) <= (u64::MAX as int) * (
            u64::MAX as int)) by (nonlinear_arith)
                requires
                    prev_header.height + 1 <= u64::MAX as int,
            ;
            assert((u64::MAX as int) * (u64::MAX as int) + (u64::MAX as int) <= u128::MAX as int)
                by (nonlinear_arith);
        }
        let height = prev_header.height + 1;
        let work = prev_header.work + header.work as u128;
        let cached_header = CachedHeader { header, height, work };
        self.header_cache.insert(block_hash, cached_header);
        let cache_size_after = self.header_cache.len();
        proof {
            assert(self.header_cache@.dom() =~= old(self).header_cache@.dom().insert(block_hash));
            assert(cache_size_after == old(self).header_cache@.len() + 1);
            assert(old(self)@.headers.len() < u64::MAX as int);
        }

        let mut kids: Vec<u64> = match self.children.remove(&header.prev) {
            Some(v) => v,
            None => Vec::new(),
        };
        kids.push(block_hash);
        self.children.insert(header.prev, kids);

        let mut idx: usize = 0;
        let mut found = false;
        while idx < self.tips.len() && !found
            invariant
                0 <= idx <= self.tips@.len(),
                found ==> idx < self.tips@.len() && self.tips@[idx as int].header.id
                    == header.prev,
                forall|j: int| 0 <= j < idx ==> (#[trigger] self.tips@[j]).header.id != header.prev,
            decreases self.tips@.len() - idx + (if found { 0int } else { 1int }),
        {
            if self.tips[idx].header.id == header.prev {
                found = true;
            } else {
                idx = idx + 1;
            }
        }
        if found {
            self.tips.set(idx, cached_header);
        } else {
            self.tips.push(cached_header);
        }

        proof {
            let m = old(self)@;
            let valid = old(self).policy().header_ok(header);
            let (m2, res) = model_add_header(m, header, valid);
            let ch = model_new_cached(m, header);
            assert(cached_header == ch);
            assert(self@.headers =~= m2.headers);
            let kids0 = if m.children.contains_key(header.prev) {
                m.children[header.prev]
            } else {
                Seq::<u64>::empty()
            };
            assert(kids@ =~= kids0.push(header.id));
            assert(self@.children =~= m2.children);
            if found {
                assert(model_has_tip(m, header.prev));
                let i = model_tip_idx(m, header.prev);
                assert(0 <= i < m.tips.len() && m.tips[i].header.id == header.prev);
                assert(i == idx as int);
                assert(self@.tips =~= m2.tips);
            } else {
                assert(!model_has_tip(m, header.prev));
                assert(self@.tips =~= m2.tips);
            }
            assert(self@ == m2);
            lemma_model_wf_after_add(m, header, valid);
        }
        Ok(AddHeaderResult::HeaderAdded(cached_header))
    }

    /// Accept a batch of headers in order, stopping at the first failure;
    /// returns the entries newly added before the failure together with the
    /// failure itself, if any. Headers must come parent-before-child;
    /// out-of-order input surfaces as `PrevHeaderNotCached` on the offending
    /// header.
    pub fn add_headers(&mut self, headers: &Vec<Header>) -> (r: (
        Vec<CachedHeader>,
        Option<AddHeaderError>,
    ))
        requires
            old(self).wf(),
        ensures
            final(self).wf(),
            final(self).policy() == old(self).policy(),
            ({
                let full = model_add_headers(
                    old(self)@,
                    headers@,
                    |h: Header| old(self).policy().header_ok(h),
                );
                final(self)@ == full.0 && r.0@ == full.1 && r.1 == full.2
            }),
    {
        let ghost ok = |h: Header| old(self).policy().header_ok(h);
        let ghost full = model_add_headers(old(self)@, headers@, ok);
        let mut added_headers: Vec<CachedHeader> = Vec::new();
        let mut i: usize = 0;
        proof {
            assert(headers@.skip(0) =~= headers@);
            assert(added_headers@ + full.1 =~= full.1);
        }
        while i < headers.len()
            invariant
                old(self).wf(),
                self.wf(),
                self.policy() == old(self).policy(),
                0 <= i <= headers@.len(),
                ok == (|h: Header| old(self).policy().header_ok(h)),
                full == model_add_headers(old(self)@, headers@, ok),
                ({
                    let rest = model_add_headers(self@, headers@.skip(i as int), ok);
                    full.0 == rest.0 && full.1 == added_headers@ + rest.1 && full.2 == rest.2
                }),
            decreases headers@.len() - i,
        {
            let ghost pre = self@;
            let ghost rest_pre = model_add_headers(pre, headers@.skip(i as int), ok);
            proof {
                assert(headers@.skip(i as int).len() > 0);
                assert(headers@.skip(i as int)[0] == headers@[i as int]);
                assert(headers@.skip(i as int).drop_first() =~= headers@.skip(i as int + 1));
            }
            match self.add_header(headers[i]) {
                Ok(AddHeaderResult::HeaderAdded(cached_header)) => {
                    added_headers.push(cached_header);
                    proof {
                        let rest_post = model_add_headers(self@, headers@.skip(i as int + 1), ok);
                        assert(rest_pre.1 == seq![cached_header] + rest_post.1);
                        assert(added_headers@ + rest_post.1 =~= added_headers@.drop_last() + rest_pre.1);
                    }
                },
                Ok(AddHeaderResult::HeaderAlreadyExists(_)) => {},
                Err(err) => {
                    proof {
                        assert(rest_pre.1 =~= Seq::<CachedHeader>::empty());
                        assert(full.1 =~= added_headers@);
                    }
                    return (added_headers, Some(err));
                },
            }
            i = i + 1;
        }
        proof {
            assert(headers@.skip(i as int) =~= Seq::<Header>::empty());
            assert(full.1 =~= added_headers@);
        }
        (added_headers, None)
    }

    /// Accept a block body: its header is accepted first (surfacing header
    /// errors), the body is then checked structurally, and only if both
    /// succeed the body is cached. Returns the height of the block's header.
    pub fn add_block(&mut self, block: Block) -> (r: Result<u64, AddBlockError>)
        requires
            old(self).wf(),
        ensures
            final(self).wf(),
            final(self).policy() == old(self).policy(),
            ({
                let full = model_add_block(
                    old(self)@,
                    block,
                    old(self).policy().header_ok(block.header),
                    old(self).policy().block_ok(block),
                );
                final(self)@ == full.0 && r == full.1
            }),
    {
        let block_hash = block.header.id;
        let result = match self.add_header(block.header) {
            Ok(res) => res,
            Err(e) => {
                return Err(AddBlockError::Header(e));
            },
        };
        if !self.validator.is_block_valid(&block) {
            return Err(AddBlockError::InvalidBlock(block_hash));
        }
        let height = match result {
            AddHeaderResult::HeaderAdded(cached) => cached.height,
            AddHeaderResult::HeaderAlreadyExists(cached) => cached.height,
        };
        self.block_cache.insert(block_hash, block);
        Ok(height)
    }

    /// The tip with the highest cumulative work; ties keep the tip seen
    /// first.
    pub fn get_active_chain_tip(&self) -> (r: &CachedHeader)
        requires
            self.wf(),
        ensures
            *r == spec_active_tip(self@.tips),
    {
        let mut max_index: usize = 0;
        let mut max_work: u128 = 0;
        let mut i: usize = 0;
        while i < self.tips.len()
            invariant
                self@.tips.len() >= 1,
                0 <= i <= self@.tips.len(),
                i == 0 ==> max_index == 0 && max_work == 0,
                i >= 1 ==> max_index < i && max_work == self@.tips[max_index as int].work
                    && self@.tips[max_index as int] == spec_active_tip(self@.tips.take(i as int)),
            decreases self@.tips.len() - i,
        {
            proof {
                if i >= 1 {
                    assert(self@.tips.take(i as int + 1).drop_last() =~= self@.tips.take(i as int));
                    assert(self@.tips.take(i as int + 1).last() == self@.tips[i as int]);
                } else {
                    assert(self@.tips.take(1).len() == 1);
                    assert(self@.tips.take(1)[0] == self@.tips[0]);
                }
            }
            if self.tips[i].work > max_work {
                max_index = i;
                max_work = self.tips[i].work;
            }
            i = i + 1;
        }
        proof {
            assert(self@.tips.take(self@.tips.len() as int) =~= self@.tips);
        }
        &self.tips[max_index]
    }

    /// Remove the cached bodies for the given ids from the block cache; the
    /// header tree, the children relation and the tips are untouched.
    pub fn prune_old_blocks(&mut self, block_hashes: &Vec<u64>)
        requires
            old(self).wf(),
        ensures
            final(self).wf(),
            final(self).policy() == old(self).policy(),
            final(self)@ == (StoreModel {
                blocks: old(self)@.blocks.remove_keys(block_hashes@.to_set()),
                ..old(self)@
            }),
    {
        let mut i: usize = 0;
        proof {
            assert(block_hashes@.take(0).to_set() =~= Set::<u64>::empty());
            assert(old(self)@.blocks.remove_keys(Set::<u64>::empty()) =~= old(self)@.blocks);
        }
        while i < block_hashes.len()
            invariant
                old(self).wf(),
                self.policy() == old(self).policy(),
                0 <= i <= block_hashes@.len(),
                self@ == (StoreModel {
                    blocks: old(self)@.blocks.remove_keys(block_hashes@.take(i as int).to_set()),
                    ..old(self)@
                }),
            decreases block_hashes@.len() - i,
        {
            self.block_cache.remove(&block_hashes[i]);
            proof {
                let s = block_hashes@;
                assert(s.take(i as int + 1) =~= s.take(i as int).push(s[i as int]));
                Seq::<u64>::lemma_push_to_set_commute(s.take(i as int), s[i as int]);
                assert(self@.blocks =~= old(self)@.blocks.remove_keys(
                    s.take(i as int + 1).to_set(),
                ));
            }
            i = i + 1;
        }
        proof {
            assert(block_hashes@.take(block_hashes@.len() as int) =~= block_hashes@);
            assert(self@.blocks.dom().finite());
            assert(self.wf());
        }
    }

    /// Locator hashes for the active chain: the active tip and its most
    /// recent ancestors one by one, then exponentially spaced ancestors (the
    /// step doubling with each further entry), ending with genesis. A peer
    /// can use this logarithmic sample to find the most recent common
    /// ancestor cheaply. The list always starts at the active tip, never
    /// exceeds 23 entries, mentions only cached headers, and its final entry
    /// is genesis.
    pub fn locator_hashes(&self) -> (r: Vec<u64>)
        requires
            self.wf(),
        ensures
            is_locator_sample(self@, r@),
    {
        let mut hashes: Vec<u64> = Vec::new();
        let tip = *self.get_active_chain_tip();
        let tip_id = tip.header.id;
        let mut current_header: CachedHeader = tip;
        let mut step: u32 = 1;
        let mut last_hash: u64 = tip.header.id;
        let genesis_hash = self.cached_genesis.header.id;
        let ghost mut dist: nat = 0;
        proof {
            assert(self@.headers.contains_key(tip.header.id) && self@.headers[tip.header.id]
                == tip) by {
                lemma_active_tip_is_max(self@.tips);
            }
        }
        let mut i: usize = 0;
        while i < 22
            invariant
                self.wf(),
                tip == spec_active_tip(self@.tips),
                tip_id == tip.header.id,
                genesis_hash == self@.genesis.header.id,
                0 <= i <= 22,
                hashes@.len() == i,
                i <= 7 ==> step == 1,
                i >= 8 ==> step as int == vstd::arithmetic::power2::pow2((i - 7) as nat),
                dist == locator_distance(i as nat),
                chain_extends(self@, tip_id, dist),
                current_header.header.id == ancestor_at(self@, tip_id, dist),
                self@.headers.contains_key(current_header.header.id),
                self@.headers[current_header.header.id] == current_header,
                i >= 1 ==> hashes@[0] == tip.header.id,
                i >= 1 ==> hashes@[i - 1] == last_hash,
                forall|j2: int|
                    0 <= j2 < i ==> chain_extends(
                        self@,
                        tip_id,
                        #[trigger] locator_distance(j2 as nat),
                    ),
                forall|j2: int|
                    0 <= j2 < i ==> #[trigger] hashes@[j2] == ancestor_at(
                        self@,
                        tip_id,
                        locator_distance(j2 as nat),
                    ),
                forall|j2: int| 0 <= j2 < i ==> self@.headers.contains_key(#[trigger] hashes@[j2]),
            decreases 22 - i,
        {
            let current_hash = current_header.header.id;
            last_hash = current_hash;
            let ghost pre_hashes = hashes@;
            hashes.push(current_hash);
            proof {
                assert(hashes@ =~= pre_hashes.push(current_hash));
                // the next entry's distance is one step further along
                vstd::arithmetic::power2::lemma2_to64();
                if i >= 8 {
                    vstd::arithmetic::power2::lemma_pow2_unfold((i - 7) as nat);
                }
                assert(locator_distance((i + 1) as nat) == locator_distance(i as nat)
                    + step as nat);
                assert forall|j2: int|
                    0 <= j2 < i + 1 implies chain_extends(
                    self@,
                    tip_id,
                    #[trigger] locator_distance(j2 as nat),
                ) by {}
                assert forall|j2: int|
                    0 <= j2 < i + 1 implies #[trigger] hashes@[j2] == ancestor_at(
                    self@,
                    tip_id,
                    locator_distance(j2 as nat),
                ) by {
                    if j2 < i {
                        assert(hashes@[j2] == pre_hashes[j2]);
                    } else {
                        assert(hashes@[j2] == current_hash);
                    }
                }
            }
            let mut j: u32 = 0;
            while j < step
                invariant
                    self.wf(),
                    tip == spec_active_tip(self@.tips),
                    tip_id == tip.header.id,
                    genesis_hash == self@.genesis.header.id,
                    0 <= j <= step,
                    0 <= i <= 21,
                    hashes@.len() == i + 1,
                    hashes@[0] == tip.header.id,
                    hashes@[hashes@.len() - 1] == last_hash,
                    dist == locator_distance(i as nat) + j,
                    locator_distance((i + 1) as nat) == locator_distance(i as nat) + step as nat,
                    chain_extends(self@, tip_id, dist),
                    current_header.header.id == ancestor_at(self@, tip_id, dist),
                    self@.headers.contains_key(current_header.header.id),
                    self@.headers[current_header.header.id] == current_header,
                    forall|j2: int|
                        0 <= j2 < i + 1 ==> chain_extends(
                            self@,
                            tip_id,
                            #[trigger] locator_distance(j2 as nat),
                        ),
                    forall|j2: int|
                        0 <= j2 < i + 1 ==> #[trigger] hashes@[j2] == ancestor_at(
                            self@,
                            tip_id,
                            locator_distance(j2 as nat),
                        ),
                    forall|jj: int|
                        0 <= jj < hashes@.len() ==> self@.headers.contains_key(
                            #[trigger] hashes@[jj],
                        ),
                decreases step - j,
            {
                let prev_hash = current_header.header.prev;
                proof {
                    lemma_chain_snoc(self@, tip_id, dist);
                    assert(ancestor_at(self@, tip_id, (dist + 1) as nat)
                        == self@.headers[current_header.header.id].header.prev);
                }
                match self.header_cache.get(&prev_hash) {
                    Some(h) => {
                        current_header = *h;
                        proof {
                            dist = (dist + 1) as nat;
                        }
                    },
                    None => {
                        let ghost e = i as int + 1;
                        proof {
                            // the cached chain ran out: it does not extend to
                            // the next entry's distance
                            assert(!chain_extends(self@, tip_id, (dist + 1) as nat));
                            if chain_extends(self@, tip_id, locator_distance((i + 1) as nat)) {
                                lemma_chain_mono(
                                    self@,
                                    tip_id,
                                    (dist + 1) as nat,
                                    locator_distance((i + 1) as nat),
                                );
                                assert(false);
                            }
                        }
                        if last_hash != genesis_hash {
                            let ghost pre_hashes = hashes@;
                            hashes.push(genesis_hash);
                            proof {
                                assert(hashes@ =~= pre_hashes.push(genesis_hash));
                                assert forall|j2: int|
                                    0 <= j2 < e implies #[trigger] hashes@[j2] == ancestor_at(
                                    self@,
                                    tip_id,
                                    locator_distance(j2 as nat),
                                ) by {
                                    assert(hashes@[j2] == pre_hashes[j2]);
                                }
                                assert forall|j2: int|
                                    0 <= j2 < hashes@.len() implies self@.headers.contains_key(
                                    #[trigger] hashes@[j2],
                                ) by {
                                    if j2 < pre_hashes.len() {
                                        assert(hashes@[j2] == pre_hashes[j2]);
                                    }
                                }
                                assert(hashes@[e - 1] == last_hash) by {
                                    assert(hashes@[e - 1] == pre_hashes[e - 1]);
                                }
                                assert(!chain_extends(
                                    self@,
                                    tip_id,
                                    locator_distance(e as nat),
                                ));
                                let tipg = spec_active_tip(self@.tips).header.id;
                                assert(tipg == tip_id);
                                assert(hashes@[0] == tip_id) by {
                                    assert(hashes@[0] == pre_hashes[0]);
                                }
                                if e < 22 {
                                    lemma_locator_emit_count(self@, tipg, e);
                                } else {
                                    lemma_locator_emit_count(self@, tipg, 22);
                                }
                                assert(is_locator_sample(self@, hashes@));
                            }
                        } else {
                            proof {
                                assert(!chain_extends(
                                    self@,
                                    tip_id,
                                    locator_distance(e as nat),
                                ));
                                let tipg = spec_active_tip(self@.tips).header.id;
                                assert(tipg == tip_id);
                                if e < 22 {
                                    lemma_locator_emit_count(self@, tipg, e);
                                } else {
                                    lemma_locator_emit_count(self@, tipg, 22);
                                }
                                assert(is_locator_sample(self@, hashes@));
                            }
                        }
                        return hashes;
                    },
                }
                j = j + 1;
            }
            proof {
                vstd::arithmetic::power2::lemma2_to64();
            }
            if i >= 7 {
                proof {
                    if i >= 8 {
                        if i - 7 < 14 {
                            vstd::arithmetic::power2::lemma_pow2_strictly_increases(
                                (i - 7) as nat,
                                14nat,
                            );
                        }
                    }
                    vstd::arithmetic::power2::lemma_pow2_unfold((i - 6) as nat);
                }
                step = step * 2;
            }
            i = i + 1;
        }
        let ghost e = 22int;
        proof {
            assert(chain_extends(self@, tip_id, locator_distance(e as nat)) || !chain_extends(
                self@,
                tip_id,
                locator_distance(e as nat),
            ));
        }
        if last_hash != genesis_hash {
            let ghost pre_hashes = hashes@;
            hashes.push(genesis_hash);
            proof {
                assert(hashes@ =~= pre_hashes.push(genesis_hash));
                assert forall|j2: int|
                    0 <= j2 < e implies #[trigger] hashes@[j2] == ancestor_at(
                    self@,
                    tip_id,
                    locator_distance(j2 as nat),
                ) by {
                    assert(hashes@[j2] == pre_hashes[j2]);
                }
                assert forall|j2: int|
                    0 <= j2 < hashes@.len() implies self@.headers.contains_key(
                    #[trigger] hashes@[j2],
                ) by {
                    if j2 < pre_hashes.len() {
                        assert(hashes@[j2] == pre_hashes[j2]);
                    }
                }
                assert(hashes@[e - 1] == last_hash) by {
                    assert(hashes@[e - 1] == pre_hashes[e - 1]);
                }
                let tipg = spec_active_tip(self@.tips).header.id;
                assert(tipg == tip_id);
                assert(hashes@[0] == tip_id) by {
                    assert(hashes@[0] == pre_hashes[0]);
                }
                assert(hashes@.len() == 23);
                assert(hashes@[22] == genesis_hash);
                assert(forall|i2: int|
                    0 <= i2 < 22 ==> chain_extends(
                        self@,
                        tipg,
                        #[trigger] locator_distance(i2 as nat),
                    ));
                assert(forall|i2: int|
                    0 <= i2 < 22 ==> #[trigger] hashes@[i2] == ancestor_at(
                        self@,
                        tipg,
                        locator_distance(i2 as nat),
                    ));
                lemma_locator_emit_count(self@, tipg, 22);
                assert(is_locator_sample(self@, hashes@));
            }
        } else {
            proof {
                let tipg = spec_active_tip(self@.tips).header.id;
                assert(tipg == tip_id);
                assert(hashes@.len() == 22);
                assert(hashes@[21] == last_hash);
                assert(hashes@[0] == tip_id);
                assert(forall|i2: int|
                    0 <= i2 < 22 ==> chain_extends(
                        self@,
                        tipg,
                        #[trigger] locator_distance(i2 as nat),
                    ));
                assert(forall|i2: int|
                    0 <= i2 < 22 ==> #[trigger] hashes@[i2] == ancestor_at(
                        self@,
                        tipg,
                        locator_distance(i2 as nat),
                    ));
                assert(chain_extends(self@, tipg, locator_distance(22nat)) || !chain_extends(
                    self@,
                    tipg,
                    locator_distance(22nat),
                ));
                lemma_locator_emit_count(self@, tipg, 22);
                assert(is_locator_sample(self@, hashes@));
            }
        }
        hashes
    }
}

/// Accepting a fresh, valid, connected header preserves well-formedness of
/// the store model.
pub proof fn lemma_model_wf_after_add(m: StoreModel, h: Header, valid: bool)
    requires
        model_wf(m),
        m.headers.len() < u64::MAX as int,
        !m.headers.contains_key(h.id),
        valid,
        m.headers.contains_key(h.prev),
    ensures
        model_wf(model_add_header(m, h, valid).0),
{
    broadcast use vstd::set::group_set_axioms, vstd::map::group_map_axioms;

    let m2 = model_add_header(m, h, valid).0;
    let ch = model_new_cached(m, h);
    assert(m.headers.contains_key(m.genesis.header.id));
    assert(h.id != m.genesis.header.id);
    assert(m2.headers.dom() =~= m.headers.dom().insert(h.id));
    assert(m2.headers.len() == m.headers.len() + 1);
    assert forall|id: u64| m2.headers.contains_key(id) implies (
    #[trigger] m2.headers[id]).height < m2.headers.len() by {
        if id == h.id {
            assert(m.headers[h.prev].height < m.headers.len());
        } else {
            assert(m2.headers[id] == m.headers[id]);
        }
    }
    assert forall|id: u64| m2.headers.contains_key(id) && id != m2.genesis.header.id implies {
        let c = #[trigger] m2.headers[id];
        &&& m2.headers.contains_key(c.header.prev)
        &&& c.height == m2.headers[c.header.prev].height + 1
        &&& c.work == m2.headers[c.header.prev].work + c.header.work
    } by {
        if id == h.id {
            assert(m.headers[h.prev].height + 1 <= m.headers.len());
            assert(ch.height == m.headers[h.prev].height + 1);
            assert(m.headers[h.prev].work <= (m.headers[h.prev].height + 1) * (u64::MAX as int));
            assert((m.headers[h.prev].height + 1) * (u64::MAX as int) <= (u64::MAX as int) * (
            u64::MAX as int)) by (nonlinear_arith)
                requires
                    m.headers[h.prev].height + 1 <= u64::MAX as int,
            ;
            assert((u64::MAX as int) * (u64::MAX as int) + (u64::MAX as int) <= u128::MAX as int)
                by (nonlinear_arith);
            assert(ch.work == m.headers[h.prev].work + h.work);
        } else {
            let c = m2.headers[id];
            assert(c == m.headers[id]);
            assert(m.headers.contains_key(c.header.prev));
            assert(c.header.prev != h.id);
        }
    }
    assert forall|id: u64| m2.headers.contains_key(id) implies (#[trigger] m2.headers[id]).work <= (
    m2.headers[id].height + 1) * (u64::MAX as int) by {
        if id == h.id {
            let ph = m.headers[h.prev].height as int;
            let pw = m.headers[h.prev].work as int;
            assert(pw <= (ph + 1) * (u64::MAX as int));
            assert((ph + 1) * (u64::MAX as int) + (u64::MAX as int) == (ph + 2) * (u64::MAX as int))
                by (nonlinear_arith);
            assert(ch.work <= (ph + 2) * (u64::MAX as int));
        } else {
            assert(m2.headers[id] == m.headers[id]);
        }
    }
    if model_has_tip(m, h.prev) {
        let i = model_tip_idx(m, h.prev);
        assert(0 <= i < m.tips.len() && m.tips[i].header.id == h.prev);
        assert forall|a: int, b: int| 0 <= a < b < m2.tips.len() implies (
        #[trigger] m2.tips[a]).header.id != (#[trigger] m2.tips[b]).header.id by {
            assert(m.tips[a].header.id != m.tips[b].header.id);
        }
    }
    // the tips stay exactly the childless headers
    assert(h.prev != h.id);
    assert(!m.children.contains_key(h.id));
    assert forall|id: u64| #[trigger] m2.headers.contains_key(id) implies (model_has_tip(m2, id)
        <==> !(m2.children.contains_key(id) && m2.children[id].len() > 0)) by {
        if id == h.id {
            if model_has_tip(m, h.prev) {
                let i = model_tip_idx(m, h.prev);
                assert(m2.tips[i] == ch);
                assert(model_has_tip(m2, h.id)) by {
                    assert(m2.tips[i].header.id == h.id);
                }
            } else {
                assert(m2.tips[m2.tips.len() - 1].header.id == h.id);
                assert(model_has_tip(m2, h.id));
            }
            assert(!m2.children.contains_key(h.id));
        } else if id == h.prev {
            assert(m2.children.contains_key(h.prev) && m2.children[h.prev].len() > 0);
            if model_has_tip(m2, h.prev) {
                let i2 = choose|i2: int|
                    0 <= i2 < m2.tips.len() && m2.tips[i2].header.id == h.prev;
                if model_has_tip(m, h.prev) {
                    let i = model_tip_idx(m, h.prev);
                    if i2 == i {
                        assert(m2.tips[i2].header.id == h.id);
                        assert(false);
                    } else {
                        assert(m2.tips[i2] == m.tips[i2]);
                        assert(m.tips[i2].header.id != m.tips[i].header.id);
                        assert(false);
                    }
                } else {
                    if i2 == m2.tips.len() - 1 {
                        assert(m2.tips[i2].header.id == h.id);
                        assert(false);
                    } else {
                        assert(m2.tips[i2] == m.tips[i2]);
                        assert(model_has_tip(m, h.prev)) by {
                            assert(m.tips[i2].header.id == h.prev);
                        }
                        assert(false);
                    }
                }
            }
        } else {
            assert(m.headers.contains_key(id));
            assert(m2.children.contains_key(id) == m.children.contains_key(id));
            if m.children.contains_key(id) {
                assert(m2.children[id] == m.children[id]);
            }
            if model_has_tip(m, id) {
                let i = choose|i: int| 0 <= i < m.tips.len() && m.tips[i].header.id == id;
                if model_has_tip(m, h.prev) {
                    let ri = model_tip_idx(m, h.prev);
                    if i == ri {
                        assert(m.tips[i].header.id == h.prev);
                        assert(false);
                    }
                    assert(m2.tips[i] == m.tips[i]);
                } else {
                    assert(m2.tips[i] == m.tips[i]);
                }
                assert(model_has_tip(m2, id)) by {
                    assert(m2.tips[i].header.id == id);
                }
            }
            if model_has_tip(m2, id) {
                let i = choose|i: int| 0 <= i < m2.tips.len() && m2.tips[i].header.id == id;
                if model_has_tip(m, h.prev) {
                    let ri = model_tip_idx(m, h.prev);
                    if i == ri {
                        assert(m2.tips[i].header.id == h.id);
                        assert(false);
                    }
                    assert(m.tips[i].header.id == id);
                    assert(model_has_tip(m, id));
                } else {
                    if i == m2.tips.len() - 1 {
                        assert(m2.tips[i].header.id == h.id);
                        assert(false);
                    }
                    assert(m.tips[i].header.id == id);
                    assert(model_has_tip(m, id));
                }
            }
        }
    }
    assert(model_wf(m2));
}

/// Tip-set law: in a well-formed store, the tracked tips are exactly the
/// cached headers with no recorded children.
pub proof fn lemma_tips_are_childless(m: StoreModel, id: u64)
    requires
        model_wf(m),
        m.headers.contains_key(id),
    ensures
        model_has_tip(m, id) <==> !(m.children.contains_key(id) && m.children[id].len() > 0),
{
}

} // verus!
