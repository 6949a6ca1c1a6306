//! Peer-synchronization coordinator: per-peer request state, per-fetch
//! bookkeeping, inbound message handling, timeout recovery and the
//! load-balanced, sampled dispatch of body-fetch requests.

use vstd::prelude::*;
use crate::chain::{
    AddHeaderError, Block, BlockchainState, CachedHeader, Header, StoreModel, ValidationPolicy,
    contains_id, is_locator_sample, model_add_block, model_add_headers, model_new_store, model_wf,
};

verus! {

broadcast use vstd::set::group_set_axioms, vstd::map::group_map_axioms;

/// Seconds an outstanding body-fetch request may stay unanswered before it
/// expires.
pub const GETDATA_REQUEST_TIMEOUT_SECS: u64 = 30;

/// Largest header batch the protocol allows in one message.
pub const MAX_HEADERS_SIZE: usize = 2000;

/// Largest header batch accepted from a peer with no outstanding request.
pub const MAX_UNSOLICITED_HEADERS: usize = 20;

/// Most body-fetch requests kept in flight to one peer at a time.
pub const INV_PER_GET_DATA_REQUEST: u32 = 8;

/// How many levels of successors a client query prefetches.
pub const FUTURE_SUCCESSORS_DEPTH: u32 = 5;

/// Largest inventory message the protocol allows.
pub const MAX_INV_SIZE: usize = 50000;

/// What to do when a request sent to a peer times out.
#[derive(Clone, Copy, Debug, PartialEq, Eq, Structural)]
pub enum OnTimeout {
    /// Disconnect the peer.
    Disconnect,
    /// Give up on the request and do nothing else.
    Ignore,
}

/// A header-locator request: starting hashes and an optional stop hash.
#[derive(Clone, Debug)]
pub struct Locators {
    /// Ids the receiving peer should try to find in its own chain.
    pub hashes: Vec<u64>,
    /// Id at which the peer should stop, if any.
    pub stop: Option<u64>,
}

/// A typed reference a peer advertises as available.
#[derive(Clone, Copy, Debug, PartialEq, Eq, Structural)]
pub enum InventoryItem {
    /// A block with the given id.
    Block(u64),
    /// Anything else; the coordinator ignores it.
    Other,
}

/// The body of a `getheaders` request.
#[derive(Clone, Debug)]
pub struct GetHeadersMessage {
    /// Locator hashes, most recent first.
    pub locator_hashes: Vec<u64>,
    /// Id at which the peer should stop, if any.
    pub stop_hash: Option<u64>,
}

/// A protocol message, inbound or outbound.
#[derive(Clone, Debug)]
pub enum NetworkMessage {
    /// Inventory advertised by a peer.
    Inv(Vec<InventoryItem>),
    /// A batch of headers.
    Headers(Vec<Header>),
    /// A full block body.
    Block(Block),
    /// A header-locator request.
    GetHeaders(GetHeadersMessage),
    /// A body-fetch request.
    GetData(Vec<InventoryItem>),
    /// Anything else; the coordinator ignores it.
    Other,
}

/// An outbound command: a message addressed to one peer.
#[derive(Clone, Debug)]
pub struct Command {
    /// The peer the message goes to.
    pub address: u64,
    /// The message itself.
    pub message: NetworkMessage,
}

/// An inbound event delivered by the surrounding system.
#[derive(Clone, Debug)]
pub struct StreamEvent {
    /// The peer the event came from.
    pub address: u64,
    /// What arrived.
    pub kind: StreamEventKind,
}

/// The kinds of inbound events.
#[derive(Clone, Debug)]
pub enum StreamEventKind {
    /// A protocol message.
    Message(NetworkMessage),
    /// Anything else; the coordinator ignores it.
    Other,
}

/// The one signal the event caller sees when an inbound message was dropped.
#[derive(Clone, Copy, Debug, PartialEq, Eq, Structural)]
pub enum ProcessEventError {
    /// The message was invalid or could not be applied; the caller may
    /// penalize the peer.
    InvalidMessage,
}

/// Failures of [`BlockchainManager::received_headers_message`].
#[derive(Clone, Copy, Debug, PartialEq, Eq, Structural)]
pub enum ReceivedHeadersMessageError {
    /// The message came from an untracked peer.
    UnknownPeer,
    /// The batch exceeds the protocol maximum.
    ReceivedTooManyHeaders,
    /// The batch exceeds the unsolicited limit and no request was
    /// outstanding.
    ReceivedTooManyUnsolicitedHeaders,
    /// A header in the batch failed the validity predicate.
    ReceivedInvalidHeader,
}

/// Failures of [`BlockchainManager::received_inv_message`].
#[derive(Clone, Copy, Debug, PartialEq, Eq, Structural)]
pub enum ReceivedInvMessageError {
    /// The message came from an untracked peer.
    UnknownPeer,
    /// The message holds more inventory than the protocol allows.
    TooMuchInventory,
}

/// Failures of [`BlockchainManager::received_block_message`].
#[derive(Clone, Copy, Debug, PartialEq, Eq, Structural)]
pub enum ReceivedBlockMessageError {
    /// The message came from an untracked peer.
    UnknownPeer,
    /// The block could not be added to the store.
    BlockNotAdded,
}

/// Synchronization state kept for one connected peer.
#[derive(Clone, Debug)]
pub struct PeerInfo {
    /// The peer's address.
    pub addr: u64,
    /// Height of the tallest header attributed to this peer so far.
    pub height: u64,
    /// Id of the tip header reported by this peer.
    pub tip: u64,
    /// The locator request last sent to this peer, if any.
    pub last_asked: Option<Locators>,
    /// When that request was sent.
    pub sent_at: Option<u64>,
    /// What to do if that request times out.
    pub on_timeout: OnTimeout,
    /// Body-fetch requests sent to this peer and not yet answered or
    /// expired.
    pub num_of_outstanding_get_data_requests: u32,
}

/// One outstanding body-fetch request.
#[derive(Clone, Copy, Debug, PartialEq, Eq, Structural)]
pub struct GetDataRequestInfo {
    /// The peer the request was sent to.
    pub addr: u64,
    /// The id of the block body being fetched.
    pub inventory: u64,
    /// When the request was sent.
    pub sent_at: u64,
    /// What to do if the request times out.
    pub on_timeout: OnTimeout,
}

/// Injected sampling capability: picks distinct positions from a range, so
/// that dispatch can be randomized in production and deterministic in tests.
pub trait Sampler: Sized {
    /// Pick `min(k, n)` distinct positions below `n`.
    fn sample_indices(&mut self, n: usize, k: usize) -> (r: Vec<usize>)
        ensures
            r@.len() == if k <= n {
                k as int
            } else {
                n as int
            },
            forall|i: int| 0 <= i < r@.len() ==> r@[i] < n,
            forall|i: int, j: int| 0 <= i < j < r@.len() ==> r@[i] != r@[j],
    ;
}

/// A deterministic sampler that picks the first `min(k, n)` positions.
#[derive(Clone, Copy, Debug, PartialEq, Eq, Structural)]
pub struct FirstKSampler;

impl Sampler for FirstKSampler {
    fn sample_indices(&mut self, n: usize, k: usize) -> (r: Vec<usize>)
    {
        let count = if k <= n {
            k
        } else {
            n
        };
        let mut r: Vec<usize> = Vec::new();
        let mut i: usize = 0;
        while i < count
            invariant
                0 <= i <= count,
                count <= n,
                r@.len() == i,
                forall|j: int| 0 <= j < i ==> r@[j] == j,
            decreases count - i,
        {
            r.push(i);
            i = i + 1;
        }
        r
    }
}

/// The mathematical model of a [`BlockchainManager`]: the store model plus
/// the tracked peers, the outstanding fetches, the fetch frontier and the
/// queued outbound commands.
pub ghost struct SyncModel {
    /// The chain store's model.
    pub store: StoreModel,
    /// Tracked peers, in the order they were added.
    pub peers: Seq<PeerInfo>,
    /// Outstanding body-fetch requests.
    pub pending: Seq<GetDataRequestInfo>,
    /// Ids of block bodies known to exist and not yet fetched.
    pub frontier: Seq<u64>,
    /// Outbound commands queued for the next flush.
    pub queue: Seq<Command>,
}

/// Whether some tracked peer has the given address.
pub open spec fn has_peer(ps: Seq<PeerInfo>, addr: u64) -> bool {
    exists|i: int| 0 <= i < ps.len() && ps[i].addr == addr
}

/// The position of the tracked peer with the given address (unique in a
/// well-formed coordinator).
pub open spec fn peer_idx(ps: Seq<PeerInfo>, addr: u64) -> int {
    choose|i: int| 0 <= i < ps.len() && ps[i].addr == addr
}

/// Whether some outstanding fetch targets the given block id.
pub open spec fn has_pending(pend: Seq<GetDataRequestInfo>, inv: u64) -> bool {
    exists|i: int| 0 <= i < pend.len() && pend[i].inventory == inv
}

/// The position of the outstanding fetch for the given block id (unique in a
/// well-formed coordinator).
pub open spec fn pending_idx(pend: Seq<GetDataRequestInfo>, inv: u64) -> int {
    choose|i: int| 0 <= i < pend.len() && pend[i].inventory == inv
}

/// Subtraction clipped at zero.
pub open spec fn spec_sat_sub(a: int, b: int) -> int {
    if a >= b {
        a - b
    } else {
        0
    }
}

/// Well-formedness of the coordinator model: the store is well-formed, peers
/// have distinct addresses with outstanding-fetch counters never above the
/// per-peer cap, outstanding fetches target distinct ids, and the frontier
/// holds distinct ids.
pub open spec fn sync_wf(m: SyncModel) -> bool {
    &&& model_wf(m.store)
    &&& forall|i: int, j: int|
        0 <= i < j < m.peers.len() ==> (#[trigger] m.peers[i]).addr != (#[trigger] m.peers[j]).addr
    &&& forall|i: int|
        0 <= i < m.peers.len() ==> (
        #[trigger] m.peers[i]).num_of_outstanding_get_data_requests <= INV_PER_GET_DATA_REQUEST
    &&& forall|i: int, j: int|
        0 <= i < j < m.pending.len() ==> (#[trigger] m.pending[i]).inventory != (
        #[trigger] m.pending[j]).inventory
    &&& forall|i: int, j: int|
        0 <= i < j < m.frontier.len() ==> #[trigger] m.frontier[i] != #[trigger] m.frontier[j]
}

/// The coordinator: owns the chain store, per-peer synchronization state,
/// per-fetch bookkeeping, the fetch frontier and the outbound command queue.
pub struct BlockchainManager<V: ValidationPolicy, S: Sampler> {
    blockchain: BlockchainState<V>,
    peer_info: Vec<PeerInfo>,
    sampler: S,
    get_data_request_info: Vec<GetDataRequestInfo>,
    inventory_to_be_synced: Vec<u64>,
    outgoing_command_queue: Vec<Command>,
}

impl<V: ValidationPolicy, S: Sampler> View for BlockchainManager<V, S> {
    type V = SyncModel;

    closed spec fn view(&self) -> SyncModel {
        SyncModel {
            store: self.blockchain@,
            peers: self.peer_info@,
            pending: self.get_data_request_info@,
            frontier: self.inventory_to_be_synced@,
            queue: self.outgoing_command_queue@,
        }
    }
}

impl<V: ValidationPolicy, S: Sampler> BlockchainManager<V, S> {
    /// The injected validation policy.
    pub closed spec fn policy(self) -> V {
        self.blockchain.policy()
    }

    /// Well-formedness of the coordinator; see [`sync_wf`].
    pub open spec fn wf(self) -> bool {
        sync_wf(self@)
    }

    /// Build a coordinator around a store seeded with the given genesis
    /// header; no peers, fetches, frontier entries or queued commands yet.
    pub fn new(genesis: Header, validator: V, sampler: S) -> (r: Self)
        ensures
            r.wf(),
            r.policy() == validator,
            r@.store == model_new_store(genesis),
            r@.peers == Seq::<PeerInfo>::empty(),
            r@.pending == Seq::<GetDataRequestInfo>::empty(),
            r@.frontier == Seq::<u64>::empty(),
            r@.queue == Seq::<Command>::empty(),
    {
        let blockchain = BlockchainState::new(genesis, validator);
        BlockchainManager {
            blockchain,
            peer_info: Vec::new(),
            sampler,
            get_data_request_info: Vec::new(),
            inventory_to_be_synced: Vec::new(),
            outgoing_command_queue: Vec::new(),
        }
    }

    /// Read access to the chain store.
    pub fn blockchain(&self) -> (r: &BlockchainState<V>)
        requires
            self.wf(),
        ensures
            r@ == self@.store,
            r.policy() == self.policy(),
            r.wf(),
    {
        &self.blockchain
    }

    /// The outbound commands queued so far.
    pub fn commands_queued(&self) -> (r: &Vec<Command>)
        ensures
            r@ == self@.queue,
    {
        &self.outgoing_command_queue
    }

    /// Look up the state kept for a peer.
    pub fn get_peer(&self, addr: u64) -> (r: Option<&PeerInfo>)
        requires
            self.wf(),
        ensures
            match r {
                Some(p) => has_peer(self@.peers, addr) && *p == self@.peers[peer_idx(
                    self@.peers,
                    addr,
                )],
                None => !has_peer(self@.peers, addr),
            },
    {
        let n = self.peer_info.len();
        let mut i: usize = 0;
        while i < n
            invariant
                self.wf(),
                n == self@.peers.len(),
                0 <= i <= n,
                forall|j: int| 0 <= j < i ==> (#[trigger] self@.peers[j]).addr != addr,
            decreases n - i,
        {
            if self.peer_info[i].addr == addr {
                proof {
                    let k = peer_idx(self@.peers, addr);
                    assert(0 <= k < self@.peers.len() && self@.peers[k].addr == addr);
                    if k != i as int {
                        assert(false);
                    }
                }
                return Some(&self.peer_info[i]);
            }
            i = i + 1;
        }
        None
    }

    /// Take all queued outbound commands, leaving the queue empty.
    pub fn take_commands(&mut self) -> (r: Vec<Command>)
        ensures
            r@ == old(self)@.queue,
            final(self)@ == (SyncModel { queue: Seq::<Command>::empty(), ..old(self)@ }),
            final(self).policy() == old(self).policy(),
    {
        let r = self.outgoing_command_queue.split_off(0);
        proof {
            assert(r@ =~= old(self)@.queue);
            assert(self@.queue =~= Seq::<Command>::empty());
        }
        r
    }

    /// Position of the tracked peer with the given address, if any.
    fn find_peer(&self, addr: u64) -> (r: Option<usize>)
        requires
            self.wf(),
        ensures
            match r {
                Some(i) => has_peer(self@.peers, addr) && i as int == peer_idx(self@.peers, addr)
                    && i < self@.peers.len() && self@.peers[i as int].addr == addr,
                None => !has_peer(self@.peers, addr),
            },
    {
        let n = self.peer_info.len();
        let mut i: usize = 0;
        while i < n
            invariant
                self.wf(),
                n == self@.peers.len(),
                0 <= i <= n,
                forall|j: int| 0 <= j < i ==> (#[trigger] self@.peers[j]).addr != addr,
            decreases n - i,
        {
            if self.peer_info[i].addr == addr {
                proof {
                    let k = peer_idx(self@.peers, addr);
                    assert(0 <= k < self@.peers.len() && self@.peers[k].addr == addr);
                    if k != i as int {
                        assert(false);
                    }
                }
                return Some(i);
            }
            i = i + 1;
        }
        None
    }

    /// Queue a `getheaders` request to a tracked peer and record it as that
    /// peer's outstanding locator request; a message to an untracked peer is
    /// dropped.
    pub fn send_getheaders(&mut self, addr: u64, locators: Locators, on_timeout: OnTimeout, now: u64)
        requires
            old(self).wf(),
        ensures
            final(self).wf(),
            final(self).policy() == old(self).policy(),
            !has_peer(old(self)@.peers, addr) ==> final(self)@ == old(self)@,
            has_peer(old(self)@.peers, addr) ==> ({
                let k = peer_idx(old(self)@.peers, addr);
                &&& final(self)@.peers.len() == old(self)@.peers.len()
                &&& forall|j: int|
                    0 <= j < old(self)@.peers.len() && j != k ==> final(self)@.peers[j] == old(self)@.peers[j]
                &&& peer_asked(
                    old(self)@.peers[k],
                    final(self)@.peers[k],
                    locators.hashes@,
                    locators.stop,
                    on_timeout,
                    now,
                )
                &&& final(self)@.queue.len() == old(self)@.queue.len() + 1
                &&& final(self)@.queue.take(old(self)@.queue.len() as int) == old(self)@.queue
                &&& is_getheaders_cmd(
                    final(self)@.queue.last(),
                    addr,
                    locators.hashes@,
                    locators.stop,
                )
                &&& final(self)@.store == old(self)@.store
                &&& final(self)@.pending == old(self)@.pending
                &&& final(self)@.frontier == old(self)@.frontier
            }),
    {
        let idx = match self.find_peer(addr) {
            Some(i) => i,
            None => {
                return ;
            },
        };
        let hashes_copy = clone_hashes(&locators.hashes);
        self.outgoing_command_queue.push(
            Command {
                address: addr,
                message: NetworkMessage::GetHeaders(
                    GetHeadersMessage { locator_hashes: hashes_copy, stop_hash: locators.stop },
                ),
            },
        );
        let p = &self.peer_info[idx];
        let p2 = PeerInfo {
            addr: p.addr,
            height: p.height,
            tip: p.tip,
            last_asked: Some(locators),
            sent_at: Some(now),
            on_timeout,
            num_of_outstanding_get_data_requests: p.num_of_outstanding_get_data_requests,
        };
        self.peer_info.set(idx, p2);
        proof {
            assert(self@.queue.take(old(self)@.queue.len() as int) =~= old(self)@.queue);
            assert forall|a: int, b: int| 0 <= a < b < self@.peers.len() implies (
            #[trigger] self@.peers[a]).addr != (#[trigger] self@.peers[b]).addr by {
                assert(old(self)@.peers[a].addr != old(self)@.peers[b].addr);
                assert(self@.peers[a].addr == old(self)@.peers[a].addr);
                assert(self@.peers[b].addr == old(self)@.peers[b].addr);
            }
            assert(self@.frontier == old(self)@.frontier);
            assert(self@.pending == old(self)@.pending);
            assert(self@.store == old(self)@.store);
            assert(self.wf());
        }
    }

    /// Track a newly connected peer, seeded at genesis, and immediately ask
    /// it for headers starting from genesis with a drop-on-timeout policy;
    /// an already tracked address is left unchanged.
    pub fn add_peer(&mut self, addr: u64, now: u64)
        requires
            old(self).wf(),
        ensures
            final(self).wf(),
            final(self).policy() == old(self).policy(),
            has_peer(old(self)@.peers, addr) ==> final(self)@ == old(self)@,
            !has_peer(old(self)@.peers, addr) ==> ({
                let k = old(self)@.peers.len() as int;
                &&& final(self)@.peers.len() == old(self)@.peers.len() + 1
                &&& forall|j: int| 0 <= j < k ==> final(self)@.peers[j] == old(self)@.peers[j]
                &&& ({
                    let p = final(self)@.peers[k];
                    &&& p.addr == addr
                    &&& p.height == 0
                    &&& p.tip == old(self)@.store.genesis.header.id
                    &&& (p.last_asked matches Some(l) && l.hashes@ == seq![
                        old(self)@.store.genesis.header.id,
                    ] && l.stop is None)
                    &&& p.sent_at == Some(now)
                    &&& p.on_timeout == OnTimeout::Disconnect
                    &&& p.num_of_outstanding_get_data_requests == 0
                })
                &&& final(self)@.queue.len() == old(self)@.queue.len() + 1
                &&& final(self)@.queue.take(old(self)@.queue.len() as int) == old(self)@.queue
                &&& is_getheaders_cmd(
                    final(self)@.queue.last(),
                    addr,
                    seq![old(self)@.store.genesis.header.id],
                    None,
                )
                &&& final(self)@.store == old(self)@.store
                &&& final(self)@.pending == old(self)@.pending
                &&& final(self)@.frontier == old(self)@.frontier
            }),
    {
        if self.find_peer(addr).is_some() {
            return ;
        }
        let initial_hash = self.blockchain.genesis().header.id;
        let genesis_height = self.blockchain.genesis().height;
        self.peer_info.push(
            PeerInfo {
                addr,
                height: genesis_height,
                tip: initial_hash,
                last_asked: None,
                sent_at: None,
                on_timeout: OnTimeout::Ignore,
                num_of_outstanding_get_data_requests: 0,
            },
        );
        let mut locator_vec: Vec<u64> = Vec::new();
        locator_vec.push(initial_hash);
        proof {
            assert(has_peer(self@.peers, addr)) by {
                assert(self@.peers[self@.peers.len() - 1].addr == addr);
            }
            assert(locator_vec@ =~= seq![initial_hash]);
            assert forall|a: int, b: int| 0 <= a < b < self@.peers.len() implies (
            #[trigger] self@.peers[a]).addr != (#[trigger] self@.peers[b]).addr by {
                if b < self@.peers.len() - 1 {
                    assert(old(self)@.peers[a].addr != old(self)@.peers[b].addr);
                } else {
                    assert(!has_peer(old(self)@.peers, addr));
                    assert(self@.peers[a] == old(self)@.peers[a]);
                    if old(self)@.peers[a].addr == addr {
                        assert(has_peer(old(self)@.peers, addr));
                    }
                }
            }
            assert(self@.frontier == old(self)@.frontier);
            assert(self@.pending == old(self)@.pending);
            assert(self@.store == old(self)@.store);
            assert(self.wf());
        }
        let ghost mid = self@;
        self.send_getheaders(
            addr,
            Locators { hashes: locator_vec, stop: None },
            OnTimeout::Disconnect,
            now,
        );
        proof {
            let k = peer_idx(mid.peers, addr);
            assert(mid.peers[mid.peers.len() - 1].addr == addr);
            if k != mid.peers.len() - 1 {
                assert(false);
            }
            assert(self@.queue.take(old(self)@.queue.len() as int) =~= old(self)@.queue);
        }
    }

    /// Stop tracking a peer and drop every outstanding body-fetch request
    /// addressed to it.
    pub fn remove_peer(&mut self, addr: u64)
        requires
            old(self).wf(),
        ensures
            final(self).wf(),
            final(self).policy() == old(self).policy(),
            !has_peer(old(self)@.peers, addr) ==> final(self)@.peers == old(self)@.peers,
            has_peer(old(self)@.peers, addr) ==> final(self)@.peers == old(self)@.peers.remove(
                peer_idx(old(self)@.peers, addr),
            ),
            forall|j: int|
                0 <= j < final(self)@.peers.len() ==> (#[trigger] final(self)@.peers[j]).addr
                    != addr,
            final(self)@.pending == old(self)@.pending.filter(
                |e: GetDataRequestInfo| e.addr != addr,
            ),
            final(self)@.store == old(self)@.store,
            final(self)@.frontier == old(self)@.frontier,
            final(self)@.queue == old(self)@.queue,
    {
        broadcast use vstd::seq_lib::group_seq_properties;

        match self.find_peer(addr) {
            Some(i) => {
                self.peer_info.remove(i);
                proof {
                    let k = i as int;
                    let ps = old(self)@.peers;
                    assert forall|j: int| 0 <= j < self@.peers.len() implies (
                    #[trigger] self@.peers[j]).addr != addr by {
                        if j < k {
                            assert(self@.peers[j] == ps[j]);
                            if ps[j].addr == addr {
                                assert(ps[j].addr == ps[k].addr);
                                assert(false);
                            }
                        } else {
                            assert(self@.peers[j] == ps[j + 1]);
                            if ps[j + 1].addr == addr {
                                assert(ps[k].addr == ps[j + 1].addr);
                                assert(false);
                            }
                        }
                    }
                }
            },
            None => {
                proof {
                    assert forall|j: int| 0 <= j < self@.peers.len() implies (
                    #[trigger] self@.peers[j]).addr != addr by {
                        if self@.peers[j].addr == addr {
                            assert(has_peer(self@.peers, addr));
                        }
                    }
                }
            },
        }
        proof {
            let ps2 = self@.peers;
            let ps = old(self)@.peers;
            assert forall|a: int, b: int| 0 <= a < b < ps2.len() implies (
            #[trigger] ps2[a]).addr != (#[trigger] ps2[b]).addr by {
                if has_peer(ps, addr) {
                    let k = peer_idx(ps, addr);
                    let a0: int = if a < k {
                        a
                    } else {
                        a + 1
                    };
                    let b0: int = if b < k {
                        b
                    } else {
                        b + 1
                    };
                    assert(ps2[a] == ps[a0]);
                    assert(ps2[b] == ps[b0]);
                    assert(ps[a0].addr != ps[b0].addr);
                } else {
                    assert(ps2[a].addr != ps2[b].addr);
                }
            }
        }

        let m = self.get_data_request_info.len();
        let mut kept: Vec<GetDataRequestInfo> = Vec::new();
        let mut j: usize = 0;
        proof {
            reveal(Seq::filter);
            assert(old(self)@.pending.take(0).filter(|e: GetDataRequestInfo| e.addr != addr)
                =~= Seq::<GetDataRequestInfo>::empty());
        }
        while j < m
            invariant
                m == old(self)@.pending.len(),
                self@.pending == old(self)@.pending,
                0 <= j <= m,
                kept@ == old(self)@.pending.take(j as int).filter(
                    |e: GetDataRequestInfo| e.addr != addr,
                ),
            decreases m - j,
        {
            proof {
                reveal(Seq::filter);
                assert(old(self)@.pending.take(j as int + 1) =~= old(self)@.pending.take(
                    j as int,
                ).push(old(self)@.pending[j as int]));
                assert(old(self)@.pending.take(j as int + 1).drop_last() =~= old(self)@.pending.take(j as int));
            }
            let e = self.get_data_request_info[j];
            if e.addr != addr {
                kept.push(e);
            }
            j = j + 1;
        }
        proof {
            assert(old(self)@.pending.take(m as int) =~= old(self)@.pending);
        }
        self.get_data_request_info = kept;
        proof {
            lemma_filter_distinct_pending(old(self)@.pending, addr);
            assert(self@.frontier == old(self)@.frontier);
            assert(self@.store == old(self)@.store);
            assert(self.wf());
        }
    }

    /// Handle an inventory message: an oversized message or one from an
    /// untracked peer is dropped with an error; otherwise the peer's
    /// reported tip advances to the last block item (peers advertise blocks
    /// lowest first, so the last is the tallest), and if any advertised
    /// block is unknown, a locator request stopping at the last such block
    /// is queued with an ignore-on-timeout policy.
    pub fn received_inv_message(
        &mut self,
        addr: u64,
        inventory: &Vec<InventoryItem>,
        now: u64,
    ) -> (r: Result<(), ReceivedInvMessageError>)
        requires
            old(self).wf(),
        ensures
            final(self).wf(),
            final(self).policy() == old(self).policy(),
            inventory@.len() > MAX_INV_SIZE ==> r == Err::<(), ReceivedInvMessageError>(
                ReceivedInvMessageError::TooMuchInventory,
            ) && final(self)@ == old(self)@,
            inventory@.len() <= MAX_INV_SIZE && !has_peer(old(self)@.peers, addr) ==> r == Err::<
                (),
                ReceivedInvMessageError,
            >(ReceivedInvMessageError::UnknownPeer) && final(self)@ == old(self)@,
            inventory@.len() <= MAX_INV_SIZE && has_peer(old(self)@.peers, addr) ==> r == Ok::<
                (),
                ReceivedInvMessageError,
            >(()) && inv_ok_post(old(self)@, final(self)@, addr, inventory@, now),
    {
        if inventory.len() > MAX_INV_SIZE {
            return Err(ReceivedInvMessageError::TooMuchInventory);
        }
        let idx = match self.find_peer(addr) {
            Some(i) => i,
            None => {
                return Err(ReceivedInvMessageError::UnknownPeer);
            },
        };
        let n = inventory.len();
        let mut last_block: Option<u64> = None;
        let mut tip_update: Option<u64> = None;
        let mut i: usize = 0;
        proof {
            assert(inventory@.take(0) =~= Seq::<InventoryItem>::empty());
        }
        while i < n
            invariant
                n == inventory@.len(),
                0 <= i <= n,
                self == old(self),
                self.wf(),
                tip_update == last_block_item(inventory@.take(i as int)),
                last_block == last_unknown_block(inventory@.take(i as int), self@.store.headers),
            decreases n - i,
        {
            proof {
                assert(inventory@.take(i as int + 1).drop_last() =~= inventory@.take(i as int));
                assert(inventory@.take(i as int + 1).last() == inventory@[i as int]);
            }
            match inventory[i] {
                InventoryItem::Block(hash) => {
                    tip_update = Some(hash);
                    if !self.blockchain.is_block_hash_known(&hash) {
                        last_block = Some(hash);
                    }
                },
                InventoryItem::Other => {},
            }
            i = i + 1;
        }
        proof {
            assert(inventory@.take(n as int) =~= inventory@);
        }
        if let Some(t) = tip_update {
            let mut p = self.peer_info.remove(idx);
            p.tip = t;
            self.peer_info.insert(idx, p);
            proof {
                assert(self@.peers =~= old(self)@.peers.update(
                    idx as int,
                    peer_with_tip(old(self)@.peers[idx as int], t),
                ));
                assert forall|a: int, b: int| 0 <= a < b < self@.peers.len() implies (
                #[trigger] self@.peers[a]).addr != (#[trigger] self@.peers[b]).addr by {
                    assert(old(self)@.peers[a].addr != old(self)@.peers[b].addr);
                    assert(self@.peers[a].addr == old(self)@.peers[a].addr);
                    assert(self@.peers[b].addr == old(self)@.peers[b].addr);
                }
                assert(self@.frontier == old(self)@.frontier);
                assert(self@.pending == old(self)@.pending);
                assert(self@.store == old(self)@.store);
                assert(self.wf());
            }
        }
        let ghost mid = self@;
        proof {
            assert(mid.peers[idx as int].addr == addr);
            assert(has_peer(mid.peers, addr));
            let k2 = peer_idx(mid.peers, addr);
            if k2 != idx as int {
                assert(mid.peers[k2].addr == mid.peers[idx as int].addr);
                assert(false);
            }
        }
        if let Some(stop) = last_block {
            let locator_vec = self.blockchain.locator_hashes();
            self.send_getheaders(
                addr,
                Locators { hashes: locator_vec, stop: Some(stop) },
                OnTimeout::Ignore,
                now,
            );
            proof {
                assert(self@.queue.take(old(self)@.queue.len() as int) =~= old(self)@.queue);
            }
        }
        Ok(())
    }

    /// Apply one inbound event: inventory, headers and block messages go to
    /// their handlers, and any of their failures is folded into the single
    /// `InvalidMessage` signal; other events are ignored.
    pub fn process_event(&mut self, event: StreamEvent, now: u64) -> (r: Result<
        (),
        ProcessEventError,
    >)
        requires
            old(self).wf(),
        ensures
            final(self).wf(),
            final(self).policy() == old(self).policy(),
            ({
                let pre = old(self)@;
                let addr = event.address;
                match event.kind {
                    StreamEventKind::Message(m) => match m {
                        NetworkMessage::Inv(items) => {
                            let bad = items@.len() > MAX_INV_SIZE || !has_peer(pre.peers, addr);
                            &&& (bad ==> r == Err::<(), ProcessEventError>(
                                ProcessEventError::InvalidMessage,
                            ) && final(self)@ == pre)
                            &&& (!bad ==> r == Ok::<(), ProcessEventError>(()) && inv_ok_post(
                                pre,
                                final(self)@,
                                addr,
                                items@,
                                now,
                            ))
                        },
                        NetworkMessage::Headers(hs) => {
                            let known = has_peer(pre.peers, addr);
                            let unsolicited = known && hs@.len() > MAX_UNSOLICITED_HEADERS
                                && pre.peers[peer_idx(pre.peers, addr)].last_asked is None;
                            let oversize = hs@.len() > MAX_HEADERS_SIZE;
                            let ok = |h: Header| old(self).policy().header_ok(h);
                            &&& (!known || unsolicited || (known && !unsolicited && oversize)
                                ==> r == Err::<(), ProcessEventError>(
                                ProcessEventError::InvalidMessage,
                            ) && final(self)@ == pre)
                            &&& (known && !unsolicited && !oversize && hs@.len() == 0 ==> r
                                == Ok::<(), ProcessEventError>(()) && final(self)@ == pre)
                            &&& (known && !unsolicited && !oversize && hs@.len() > 0 ==> {
                                &&& headers_ok_post(pre, final(self)@, ok, addr, hs@, now)
                                &&& r == (match model_add_headers(pre.store, hs@, ok).2 {
                                    Some(AddHeaderError::InvalidHeader(_)) => Err::<
                                        (),
                                        ProcessEventError,
                                    >(ProcessEventError::InvalidMessage),
                                    _ => Ok::<(), ProcessEventError>(()),
                                })
                            })
                        },
                        NetworkMessage::Block(b) => {
                            &&& (!has_peer(pre.peers, addr) ==> r == Err::<
                                (),
                                ProcessEventError,
                            >(ProcessEventError::InvalidMessage) && final(self)@ == pre)
                            &&& (has_peer(pre.peers, addr) ==> ({
                                let full = model_add_block(
                                    pre.store,
                                    b,
                                    old(self).policy().header_ok(b.header),
                                    old(self).policy().block_ok(b),
                                );
                                &&& final(self)@.store == full.0
                                &&& final(self)@.frontier == pre.frontier
                                &&& final(self)@.queue == pre.queue
                                &&& (full.1 is Err ==> r == Err::<(), ProcessEventError>(
                                    ProcessEventError::InvalidMessage,
                                ) && final(self)@.pending == pre.pending && final(self)@.peers
                                    == pre.peers)
                                &&& (full.1 is Ok ==> r == Ok::<(), ProcessEventError>(())
                                    && block_accepted_post(pre, final(self)@, addr, b.header.id))
                            }))
                        },
                        _ => r == Ok::<(), ProcessEventError>(()) && final(self)@ == pre,
                    },
                    StreamEventKind::Other => r == Ok::<(), ProcessEventError>(())
                        && final(self)@ == pre,
                }
            }),
    {
        match event.kind {
            StreamEventKind::Message(message) => match message {
                NetworkMessage::Inv(inventory) => {
                    if self.received_inv_message(event.address, &inventory, now).is_err() {
                        return Err(ProcessEventError::InvalidMessage);
                    }
                    Ok(())
                },
                NetworkMessage::Headers(headers) => {
                    if self.received_headers_message(event.address, &headers, now).is_err() {
                        return Err(ProcessEventError::InvalidMessage);
                    }
                    Ok(())
                },
                NetworkMessage::Block(block) => {
                    if self.received_block_message(event.address, block).is_err() {
                        return Err(ProcessEventError::InvalidMessage);
                    }
                    Ok(())
                },
                _ => Ok(()),
            },
            StreamEventKind::Other => Ok(()),
        }
    }

    /// One periodic step: reconcile the tracked peers with the currently
    /// connected addresses — each disconnected peer is dropped together with
    /// its outstanding fetches, each newly connected address is tracked
    /// seeded at genesis and greeted with a bootstrap locator request under
    /// a drop-on-timeout policy — then run the body-fetch dispatch pass of
    /// [`sync_blocks`] and hand the caller every queued outbound command,
    /// oldest first, leaving the queue empty. The connected addresses come
    /// from the transport as a set, so they are distinct.
    pub fn tick(&mut self, now: u64, connected: &Vec<u64>) -> (r: Vec<Command>)
        requires
            old(self).wf(),
            forall|i: int, j: int| 0 <= i < j < connected@.len() ==> connected@[i] != connected@[j],
        ensures
            final(self).wf(),
            final(self).policy() == old(self).policy(),
            final(self)@.queue.len() == 0,
            final(self)@.store == old(self)@.store,
            forall|a: u64| has_peer(final(self)@.peers, a) <==> connected@.contains(a),
            ({
                let pre = old(self)@;
                let kept = pre.peers.filter(|p: PeerInfo| connected@.contains(p.addr));
                let added = connected@.filter(|a: u64| !has_peer(pre.peers, a));
                let survivors = pre.pending.filter(
                    |e: GetDataRequestInfo|
                        connected@.contains(e.addr) || !has_peer(pre.peers, e.addr),
                );
                let qbase = pre.queue.len() as int;
                &&& r@.len() >= qbase + added.len()
                &&& r@.take(qbase) == pre.queue
                &&& forall|w: int|
                    0 <= w < added.len() ==> is_getheaders_cmd(
                        #[trigger] r@[qbase + w],
                        added[w],
                        seq![pre.store.genesis.header.id],
                        None::<u64>,
                    )
                &&& exists|midp: Seq<PeerInfo>|
                    {
                        &&& midp.len() == kept.len() + added.len()
                        &&& #[trigger] midp.take(kept.len() as int) == kept
                        &&& (forall|w: int|
                            0 <= w < added.len() ==> is_bootstrap_peer(
                                #[trigger] midp[kept.len() + w],
                                added[w],
                                pre.store.genesis.header.id,
                                now,
                            ))
                        &&& dispatch_state_post(
                            SyncModel {
                                store: pre.store,
                                peers: midp,
                                pending: survivors,
                                frontier: pre.frontier,
                                queue: pre.queue,
                            },
                            final(self)@,
                            now,
                        )
                        &&& dispatch_queue_post(
                            peers_after_expiry(midp, survivors, now),
                            live_pending(survivors, now).len() as int,
                            final(self)@.pending,
                            r@,
                            qbase + added.len(),
                        )
                    }
            }),
    {
        let ghost pre = old(self)@;
        let ghost keepp = |p: PeerInfo| connected@.contains(p.addr);
        let ghost keepe = |e: GetDataRequestInfo|
            connected@.contains(e.addr) || !has_peer(pre.peers, e.addr);

        // collect the tracked addresses, in tracking order
        let mut current: Vec<u64> = Vec::new();
        let npeers = self.peer_info.len();
        let mut i: usize = 0;
        while i < npeers
            invariant
                self.wf(),
                pre == old(self)@,
                self@ == pre,
                npeers == pre.peers.len(),
                0 <= i <= npeers,
                current@.len() == i,
                forall|j: int| 0 <= j < i ==> #[trigger] current@[j] == pre.peers[j].addr,
            decreases npeers - i,
        {
            let a = self.peer_info[i].addr;
            current.push(a);
            i = i + 1;
        }

        // drop peers that are no longer connected, with their fetches
        let nc = current.len();
        let mut w: usize = 0;
        proof {
            reveal(Seq::filter);
            assert(pre.peers.take(0).filter(keepp) =~= Seq::<PeerInfo>::empty());
            assert(self@.peers =~= pre.peers.take(0).filter(keepp) + pre.peers.skip(0));
            let s0 = |e: GetDataRequestInfo| survives_removal(e, current@, connected@, 0);
            lemma_filter_all(pre.pending, s0);
        }
        while w < nc
            invariant
                self.wf(),
                self.policy() == old(self).policy(),
                pre == old(self)@,
                sync_wf(pre),
                nc == current@.len(),
                nc == pre.peers.len(),
                0 <= w <= nc,
                keepp == (|p: PeerInfo| connected@.contains(p.addr)),
                forall|j: int| 0 <= j < nc ==> #[trigger] current@[j] == pre.peers[j].addr,
                self@.store == pre.store,
                self@.frontier == pre.frontier,
                self@.queue == pre.queue,
                self@.peers == pre.peers.take(w as int).filter(keepp) + pre.peers.skip(w as int),
                self@.pending == pre.pending.filter(
                    |e: GetDataRequestInfo| survives_removal(e, current@, connected@, w as int),
                ),
            decreases nc - w,
        {
            let a = current[w];
            let ghost peers_cur = self@.peers;
            let ghost kw = pre.peers.take(w as int).filter(keepp);
            let ghost sw = |e: GetDataRequestInfo| survives_removal(e, current@, connected@, w as int);
            let ghost sw1 = |e: GetDataRequestInfo|
                survives_removal(e, current@, connected@, w as int + 1);
            proof {
                reveal(Seq::filter);
                assert(pre.peers.take(w as int + 1) =~= pre.peers.take(w as int).push(
                    pre.peers[w as int],
                ));
                assert(pre.peers[w as int].addr == a);
            }
            if !contains_id(connected, a) {
                proof {
                    assert(peers_cur[kw.len() as int] == pre.peers[w as int]) by {
                        assert(pre.peers.skip(w as int)[0] == pre.peers[w as int]);
                    }
                    assert(has_peer(self@.peers, a)) by {
                        assert(self@.peers[kw.len() as int].addr == a);
                    }
                }
                self.remove_peer(a);
                proof {
                    reveal(Seq::filter);
                    assert(pre.peers.take(w as int + 1).drop_last() =~= pre.peers.take(w as int));
                    assert(pre.peers.take(w as int + 1).last() == pre.peers[w as int]);
                    let k = peer_idx(peers_cur, a);
                    assert(peers_cur[kw.len() as int].addr == a);
                    if k != kw.len() as int {
                        assert(peers_cur[k].addr == peers_cur[kw.len() as int].addr);
                        assert(false);
                    }
                    assert(self@.peers =~= kw + pre.peers.skip(w as int + 1)) by {
                        assert(pre.peers.skip(w as int).drop_first() =~= pre.peers.skip(
                            w as int + 1,
                        ));
                        assert(peers_cur.remove(kw.len() as int) =~= kw + pre.peers.skip(
                            w as int,
                        ).drop_first());
                    }
                    assert(pre.peers.take(w as int + 1).filter(keepp) =~= kw);
                    let not_a = |e: GetDataRequestInfo| e.addr != a;
                    let both = |e: GetDataRequestInfo| sw(e) && not_a(e);
                    lemma_filter_compose(pre.pending, sw, not_a, both);
                    assert forall|i2: int| 0 <= i2 < pre.pending.len() implies both(
                        #[trigger] pre.pending[i2],
                    ) == sw1(pre.pending[i2]) by {
                        let e = pre.pending[i2];
                        if sw1(e) {
                            assert(!(current@[w as int] == e.addr && !connected@.contains(
                                current@[w as int],
                            )));
                            assert(sw(e)) by {
                                assert forall|j: int| 0 <= j < w implies !(current@[j] == e.addr
                                    && !connected@.contains(#[trigger] current@[j])) by {}
                            }
                        }
                        if both(e) {
                            assert forall|j: int| 0 <= j < w + 1 implies !(current@[j] == e.addr
                                && !connected@.contains(#[trigger] current@[j])) by {}
                        }
                    }
                    lemma_filter_ext(pre.pending, both, sw1);
                }
            } else {
                proof {
                    reveal(Seq::filter);
                    assert(pre.peers.take(w as int + 1).drop_last() =~= pre.peers.take(w as int));
                    assert(pre.peers.take(w as int + 1).last() == pre.peers[w as int]);
                    assert(connected@.contains(a));
                    assert(pre.peers.take(w as int + 1).filter(keepp) =~= kw.push(
                        pre.peers[w as int],
                    ));
                    assert(self@.peers =~= pre.peers.take(w as int + 1).filter(keepp)
                        + pre.peers.skip(w as int + 1)) by {
                        assert(pre.peers.skip(w as int)[0] == pre.peers[w as int]);
                        assert(pre.peers.skip(w as int).drop_first() =~= pre.peers.skip(
                            w as int + 1,
                        ));
                    }
                    assert forall|i2: int| 0 <= i2 < pre.pending.len() implies sw(
                        #[trigger] pre.pending[i2],
                    ) == sw1(pre.pending[i2]) by {
                        let e = pre.pending[i2];
                        if sw(e) {
                            assert forall|j: int| 0 <= j < w + 1 implies !(current@[j] == e.addr
                                && !connected@.contains(#[trigger] current@[j])) by {
                                if j == w {
                                    assert(connected@.contains(a)) by {
                                        let vi = choose|vi: int|
                                            0 <= vi < connected@.len() && connected@[vi] == a;
                                    }
                                }
                            }
                        }
                        if sw1(e) {
                            assert forall|j: int| 0 <= j < w implies !(current@[j] == e.addr
                                && !connected@.contains(#[trigger] current@[j])) by {}
                        }
                    }
                    lemma_filter_ext(pre.pending, sw, sw1);
                }
            }
            w = w + 1;
        }
        proof {
            reveal(Seq::filter);
            assert(pre.peers.take(nc as int) =~= pre.peers);
            assert(pre.peers.skip(nc as int) =~= Seq::<PeerInfo>::empty());
            assert(self@.peers =~= pre.peers.filter(keepp));
            let sfin = |e: GetDataRequestInfo| survives_removal(e, current@, connected@, nc as int);
            assert forall|i2: int| 0 <= i2 < pre.pending.len() implies sfin(
                #[trigger] pre.pending[i2],
            ) == keepe(pre.pending[i2]) by {
                let e = pre.pending[i2];
                if sfin(e) && !connected@.contains(e.addr) {
                    if has_peer(pre.peers, e.addr) {
                        let k = peer_idx(pre.peers, e.addr);
                        assert(current@[k] == e.addr);
                        assert(false);
                    }
                }
                if keepe(e) {
                    assert forall|j: int| 0 <= j < nc implies !(current@[j] == e.addr
                        && !connected@.contains(#[trigger] current@[j])) by {
                        if current@[j] == e.addr {
                            assert(has_peer(pre.peers, e.addr)) by {
                                assert(pre.peers[j].addr == e.addr);
                            }
                            assert(connected@.contains(e.addr));
                        }
                    }
                }
            }
            lemma_filter_ext(pre.pending, sfin, keepe);
        }

        // greet newly connected peers
        let ghost kept = pre.peers.filter(keepp);
        let ghost addp = |a: u64| !has_peer(pre.peers, a);
        let na = connected.len();
        let mut v: usize = 0;
        proof {
            reveal(Seq::filter);
            assert(connected@.take(0).filter(addp) =~= Seq::<u64>::empty());
            assert(self@.peers.take(kept.len() as int) =~= kept);
            assert(self@.queue.take(pre.queue.len() as int) =~= pre.queue);
        }
        while v < na
            invariant
                self.wf(),
                self.policy() == old(self).policy(),
                pre == old(self)@,
                sync_wf(pre),
                na == connected@.len(),
                0 <= v <= na,
                forall|i2: int, j2: int|
                    0 <= i2 < j2 < connected@.len() ==> connected@[i2] != connected@[j2],
                keepp == (|p: PeerInfo| connected@.contains(p.addr)),
                addp == (|a: u64| !has_peer(pre.peers, a)),
                keepe == (|e: GetDataRequestInfo|
                    connected@.contains(e.addr) || !has_peer(pre.peers, e.addr)),
                kept == pre.peers.filter(keepp),
                self@.store == pre.store,
                self@.frontier == pre.frontier,
                self@.pending == pre.pending.filter(keepe),
                ({
                    let added_v = connected@.take(v as int).filter(addp);
                    &&& self@.peers.len() == kept.len() + added_v.len()
                    &&& self@.peers.take(kept.len() as int) == kept
                    &&& (forall|w2: int|
                        0 <= w2 < added_v.len() ==> is_bootstrap_peer(
                            #[trigger] self@.peers[kept.len() + w2],
                            added_v[w2],
                            pre.store.genesis.header.id,
                            now,
                        ))
                    &&& self@.queue.len() == pre.queue.len() + added_v.len()
                    &&& self@.queue.take(pre.queue.len() as int) == pre.queue
                    &&& (forall|w2: int|
                        0 <= w2 < added_v.len() ==> is_getheaders_cmd(
                            #[trigger] self@.queue[pre.queue.len() + w2],
                            added_v[w2],
                            seq![pre.store.genesis.header.id],
                            None::<u64>,
                        ))
                }),
            decreases na - v,
        {
            let a = connected[v];
            let ghost added_v = connected@.take(v as int).filter(addp);
            let ghost cur = self@;
            proof {
                reveal(Seq::filter);
                assert(connected@.take(v as int + 1) =~= connected@.take(v as int).push(a));
                // the address is tracked now exactly when it was tracked before the pass
                if has_peer(pre.peers, a) {
                    let k = peer_idx(pre.peers, a);
                    assert(connected@.contains(a)) by {
                        assert(connected@[v as int] == a);
                    }
                    assert(keepp(pre.peers[k]));
                    pre.peers.filter_lemma(keepp);
                    assert(kept.contains(pre.peers[k]));
                    let kk = choose|kk: int| 0 <= kk < kept.len() && kept[kk] == pre.peers[k];
                    assert(cur.peers[kk] == kept[kk]) by {
                        assert(cur.peers.take(kept.len() as int)[kk] == cur.peers[kk]);
                    }
                    assert(has_peer(cur.peers, a)) by {
                        assert(cur.peers[kk].addr == a);
                    }
                } else {
                    assert forall|j: int| 0 <= j < cur.peers.len() implies (
                    #[trigger] cur.peers[j]).addr != a by {
                        if j < kept.len() {
                            assert(cur.peers[j] == kept[j]) by {
                                assert(cur.peers.take(kept.len() as int)[j] == cur.peers[j]);
                            }
                            lemma_filter_element_index(pre.peers, keepp, j);
                            let j0 = choose|j0: int|
                                0 <= j0 < pre.peers.len() && pre.peers[j0] == #[trigger] pre.peers.filter(
                                    keepp,
                                )[j];
                            if pre.peers[j0].addr == a {
                                assert(has_peer(pre.peers, a));
                            }
                        } else {
                            let w2 = j - kept.len();
                            assert(is_bootstrap_peer(
                                cur.peers[kept.len() + w2],
                                added_v[w2],
                                pre.store.genesis.header.id,
                                now,
                            ));
                            lemma_filter_element_index(connected@.take(v as int), addp, w2);
                            let j0 = choose|j0: int|
                                0 <= j0 < connected@.take(v as int).len() && connected@.take(
                                    v as int,
                                )[j0] == #[trigger] connected@.take(v as int).filter(addp)[w2];
                            assert(connected@[j0] == added_v[w2]);
                            assert(connected@[j0] != connected@[v as int]);
                        }
                    }
                    if has_peer(cur.peers, a) {
                        let k = peer_idx(cur.peers, a);
                        assert(false);
                    }
                }
            }
            self.add_peer(a, now);
            proof {
                reveal(Seq::filter);
                assert(connected@.take(v as int + 1).drop_last() =~= connected@.take(v as int));
                assert(connected@.take(v as int + 1).last() == a);
                if has_peer(pre.peers, a) {
                    assert(!addp(a));
                    assert(connected@.take(v as int + 1).filter(addp) =~= added_v);
                    assert(self@ == cur);
                } else {
                    assert(addp(a));
                    assert(connected@.take(v as int + 1).filter(addp) =~= added_v.push(a));
                    assert(self@.peers.take(kept.len() as int) =~= kept) by {
                        assert forall|j: int| 0 <= j < kept.len() implies #[trigger] self@.peers.take(
                            kept.len() as int,
                        )[j] == kept[j] by {
                            assert(self@.peers[j] == cur.peers[j]);
                            assert(cur.peers.take(kept.len() as int)[j] == cur.peers[j]);
                        }
                    }
                    assert forall|w2: int|
                        0 <= w2 < added_v.len() + 1 implies is_bootstrap_peer(
                        #[trigger] self@.peers[kept.len() + w2],
                        added_v.push(a)[w2],
                        pre.store.genesis.header.id,
                        now,
                    ) by {
                        if w2 < added_v.len() {
                            assert(self@.peers[kept.len() + w2] == cur.peers[kept.len() + w2]);
                        } else {
                            assert(self@.peers[self@.peers.len() - 1] == self@.peers[kept.len()
                                + w2]);
                        }
                    }
                    assert(self@.queue.take(pre.queue.len() as int) =~= pre.queue) by {
                        assert forall|j: int| 0 <= j < pre.queue.len() implies #[trigger] self@.queue.take(
                            pre.queue.len() as int,
                        )[j] == pre.queue[j] by {
                            assert(self@.queue.take(cur.queue.len() as int)[j] == self@.queue[j]);
                            assert(cur.queue.take(pre.queue.len() as int)[j] == cur.queue[j]);
                        }
                    }
                    assert forall|w2: int|
                        0 <= w2 < added_v.len() + 1 implies is_getheaders_cmd(
                        #[trigger] self@.queue[pre.queue.len() + w2],
                        added_v.push(a)[w2],
                        seq![pre.store.genesis.header.id],
                        None::<u64>,
                    ) by {
                        if w2 < added_v.len() {
                            assert(self@.queue[pre.queue.len() + w2] == cur.queue[pre.queue.len()
                                + w2]) by {
                                assert(self@.queue.take(cur.queue.len() as int)[pre.queue.len()
                                    + w2] == self@.queue[pre.queue.len() + w2]);
                            }
                        } else {
                            assert(self@.queue[self@.queue.len() - 1] == self@.queue[pre.queue.len()
                                + w2]);
                            assert(self@.queue.last() == self@.queue[self@.queue.len() - 1]);
                        }
                    }
                }
            }
            v = v + 1;
        }
        proof {
            assert(connected@.take(na as int) =~= connected@);
        }

        let ghost midp = self@.peers;
        let ghost greetq = self@.queue;
        let ghost survivors = self@.pending;
        self.sync_blocks(now);
        let r = self.take_commands();
        proof {
            let added = connected@.filter(addp);
            let qbase = pre.queue.len() as int;
            assert(r@.len() >= greetq.len());
            assert(r@.take(greetq.len() as int) == greetq);
            assert(r@.take(qbase) =~= pre.queue) by {
                assert forall|j: int| 0 <= j < qbase implies #[trigger] r@.take(qbase)[j]
                    == pre.queue[j] by {
                    assert(r@.take(greetq.len() as int)[j] == r@[j]);
                    assert(greetq.take(qbase)[j] == greetq[j]);
                }
            }
            assert forall|w2: int| 0 <= w2 < added.len() implies is_getheaders_cmd(
                #[trigger] r@[qbase + w2],
                added[w2],
                seq![pre.store.genesis.header.id],
                None::<u64>,
            ) by {
                assert(r@.take(greetq.len() as int)[qbase + w2] == r@[qbase + w2]);
                assert(is_getheaders_cmd(
                    greetq[qbase + w2],
                    added[w2],
                    seq![pre.store.genesis.header.id],
                    None::<u64>,
                ));
            }
            let mid_model = SyncModel {
                store: pre.store,
                peers: midp,
                pending: survivors,
                frontier: pre.frontier,
                queue: pre.queue,
            };
            assert(dispatch_state_post(mid_model, self@, now));
            assert(dispatch_queue_post(
                peers_after_expiry(midp, survivors, now),
                live_pending(survivors, now).len() as int,
                self@.pending,
                r@,
                qbase + added.len(),
            ));
            // the tracked peers afterwards are exactly the connected addresses
            lemma_peers_after_expiry_shape(midp, survivors, now);
            let mp = peers_after_expiry(midp, survivors, now);
            assert forall|a: u64|
                has_peer(self@.peers, a) <==> connected@.contains(a) by {
                if has_peer(self@.peers, a) {
                    let k = peer_idx(self@.peers, a);
                    assert(self@.peers[k].addr == mp[k].addr);
                    assert(mp[k].addr == midp[k].addr);
                    if k < kept.len() {
                        assert(midp[k] == kept[k]) by {
                            assert(midp.take(kept.len() as int)[k] == midp[k]);
                        }
                        assert(keepp(kept[k])) by {
                            pre.peers.filter_lemma(keepp);
                        }
                    } else {
                        assert(is_bootstrap_peer(
                            midp[kept.len() + (k - kept.len())],
                            connected@.filter(addp)[k - kept.len()],
                            pre.store.genesis.header.id,
                            now,
                        ));
                        lemma_filter_element_index(connected@, addp, k - kept.len());
                        let j0 = choose|j0: int|
                            0 <= j0 < connected@.len() && connected@[j0]
                                == #[trigger] connected@.filter(addp)[k - kept.len()];
                    }
                }
                if connected@.contains(a) {
                    if has_peer(pre.peers, a) {
                        let k = peer_idx(pre.peers, a);
                        assert(keepp(pre.peers[k]));
                        pre.peers.filter_lemma(keepp);
                        assert(kept.contains(pre.peers[k]));
                        let kk = choose|kk: int| 0 <= kk < kept.len() && kept[kk] == pre.peers[k];
                        assert(midp[kk] == kept[kk]) by {
                            assert(midp.take(kept.len() as int)[kk] == midp[kk]);
                        }
                        assert(self@.peers[kk].addr == mp[kk].addr && mp[kk].addr
                            == midp[kk].addr);
                        assert(has_peer(self@.peers, a)) by {
                            assert(self@.peers[kk].addr == a);
                        }
                    } else {
                        let vi = choose|vi: int|
                            0 <= vi < connected@.len() && connected@[vi] == a;
                        assert(addp(connected@[vi]));
                        connected@.filter_lemma(addp);
                        assert(connected@.filter(addp).contains(connected@[vi]));
                        let wk = choose|wk: int|
                            0 <= wk < connected@.filter(addp).len() && connected@.filter(
                                addp,
                            )[wk] == a;
                        assert(is_bootstrap_peer(
                            midp[kept.len() + wk],
                            a,
                            pre.store.genesis.header.id,
                            now,
                        ));
                        assert(self@.peers[kept.len() + wk].addr == mp[kept.len() + wk].addr
                            && mp[kept.len() + wk].addr == midp[kept.len() + wk].addr);
                        assert(has_peer(self@.peers, a)) by {
                            assert(self@.peers[kept.len() + wk].addr == a);
                        }
                    }
                }
            }
        }
        r
    }

    /// All successors of the given ids within `depth` levels of the
    /// children relation (a depth below 1 counts as 1), the inputs
    /// themselves excluded; each id is listed once.
    pub fn get_successor_block_hashes(&self, block_hashes: &Vec<u64>, depth: u32) -> (r: Vec<u64>)
        requires
            self.wf(),
        ensures
            ({
                let d = if depth < 1 {
                    1nat
                } else {
                    depth as nat
                };
                let input = block_hashes@.to_set();
                r@.to_set() == successors_within(self@.store.children, input, d).difference(input)
            }),
            forall|a: int, b: int| 0 <= a < b < r@.len() ==> r@[a] != r@[b],
    {
        broadcast use vstd::set::group_set_axioms;

        let d: u32 = if depth < 1 {
            1
        } else {
            depth
        };
        let ghost children = self@.store.children;
        let ghost input = block_hashes@.to_set();

        let mut result: Vec<u64> = dedup_ids(block_hashes);

        let mut round: u32 = 0;
        while round < d
            invariant
                self.wf(),
                children == self@.store.children,
                input == block_hashes@.to_set(),
                0 <= round <= d,
                result@.to_set() == successors_within(children, input, round as nat),
                forall|a: int, b: int| 0 <= a < b < result@.len() ==> result@[a] != result@[b],
            decreases d - round,
        {
            let snapshot_len = result.len();
            let ghost prev = result@.to_set();
            let ghost snap = result@;
            let mut p: usize = 0;
            while p < snapshot_len
                invariant
                    self.wf(),
                    children == self@.store.children,
                    snapshot_len == snap.len(),
                    result@.take(snap.len() as int) == snap,
                    result@.len() >= snap.len(),
                    prev == snap.to_set(),
                    0 <= p <= snapshot_len,
                    forall|a: int, b: int| 0 <= a < b < result@.len() ==> result@[a] != result@[b],
                    prev.subset_of(result@.to_set()),
                    result@.to_set().subset_of(expand_once(children, prev)),
                    forall|q: int, c2: int|
                        0 <= q < p && children.contains_key(snap[q]) && 0 <= c2
                            < children[snap[q]].len() ==> result@.to_set().contains(
                            #[trigger] children[snap[q]][c2],
                        ),
                decreases snapshot_len - p,
            {
                let parent = result[p];
                proof {
                    assert(result@[p as int] == snap[p as int]) by {
                        assert(result@.take(snap.len() as int)[p as int] == result@[p as int]);
                    }
                    assert(prev.contains(parent)) by {
                        assert(snap.contains(parent)) by {
                            assert(snap[p as int] == parent);
                        }
                    }
                }
                match self.blockchain.get_children(&parent) {
                    Some(kids_ref) => {
                        let kids = clone_hashes(kids_ref);
                        let nk = kids.len();
                        let mut c: usize = 0;
                        while c < nk
                            invariant
                                self.wf(),
                                children == self@.store.children,
                                nk == kids@.len(),
                                children.contains_key(parent),
                                kids@ == children[parent],
                                prev.contains(parent),
                                snapshot_len == snap.len(),
                                result@.take(snap.len() as int) == snap,
                                result@.len() >= snap.len(),
                                0 <= c <= nk,
                                0 <= p < snap.len(),
                                forall|a: int, b: int|
                                    0 <= a < b < result@.len() ==> result@[a] != result@[b],
                                prev.subset_of(result@.to_set()),
                                result@.to_set().subset_of(expand_once(children, prev)),
                                forall|q: int, c2: int|
                                    0 <= q < p && children.contains_key(snap[q]) && 0 <= c2
                                        < children[snap[q]].len() ==> result@.to_set().contains(
                                        #[trigger] children[snap[q]][c2],
                                    ),
                                forall|c2: int|
                                    0 <= c2 < c ==> result@.to_set().contains(
                                        #[trigger] kids@[c2],
                                    ),
                            decreases nk - c,
                        {
                            let child = kids[c];
                            let ghost r_old = result@;
                            if !contains_id(&result, child) {
                                result.push(child);
                                proof {
                                    Seq::<u64>::lemma_push_to_set_commute(r_old, child);
                                    assert(result@ =~= r_old.push(child));
                                    assert(result@.take(snap.len() as int) =~= snap);
                                    assert(expand_once(children, prev).contains(child)) by {
                                        assert(children[parent].contains(child)) by {
                                            assert(children[parent][c as int] == child);
                                        }
                                    }
                                    assert forall|a: int, b: int|
                                        0 <= a < b < result@.len() implies result@[a]
                                        != result@[b] by {
                                        if b == result@.len() - 1 {
                                            if r_old[a] == child {
                                                assert(r_old.contains(child));
                                                assert(false);
                                            }
                                        } else {
                                            assert(r_old[a] != r_old[b]);
                                        }
                                    }
                                }
                            } else {
                                proof {
                                    assert(result@.to_set().contains(child));
                                }
                            }
                            c = c + 1;
                        }
                    },
                    None => {},
                }
                p = p + 1;
            }
            proof {
                assert(result@.to_set() =~= expand_once(children, prev)) by {
                    assert forall|x: u64| expand_once(children, prev).contains(x)
                        implies result@.to_set().contains(x) by {
                        if prev.contains(x) {
                        } else {
                            let par = choose|par: u64|
                                prev.contains(par) && children.contains_key(par) && (
                                #[trigger] children[par]).contains(x);
                            let qi = choose|qi: int| 0 <= qi < snap.len() && snap[qi] == par;
                            let ci = choose|ci: int|
                                0 <= ci < children[par].len() && children[par][ci] == x;
                            assert(result@.to_set().contains(children[snap[qi]][ci]));
                        }
                    }
                }
            }
            round = round + 1;
        }

        diff_ids(&result, block_hashes)
    }


    /// Answer a client query for successors of the given ids: the cached
    /// bodies of the ids themselves are pruned (the caller no longer needs
    /// them), the first immediate successor with a cached body is returned,
    /// and every deeper successor not already answered by a cached body is
    /// queued in the fetch frontier so future dispatch passes fetch it
    /// proactively.
    pub fn handle_client_request(&mut self, block_hashes: Vec<u64>) -> (r: Option<Block>)
        requires
            old(self).wf(),
        ensures
            final(self).wf(),
            final(self).policy() == old(self).policy(),
            ({
                let pre = old(self)@;
                let input = block_hashes@.to_set();
                let pruned = pre.store.blocks.remove_keys(input);
                let imm = successors_within(pre.store.children, input, 1).difference(input);
                let fut = successors_within(
                    pre.store.children,
                    input,
                    FUTURE_SUCCESSORS_DEPTH as nat,
                ).difference(input);
                &&& final(self)@.store == (StoreModel {
                    headers: pre.store.headers,
                    children: pre.store.children,
                    blocks: pruned,
                    tips: pre.store.tips,
                    genesis: pre.store.genesis,
                })
                &&& final(self)@.pending == pre.pending
                &&& final(self)@.peers == pre.peers
                &&& final(self)@.queue == pre.queue
                &&& (match r {
                    Some(b) => imm.contains(b.header.id) && pruned.contains_key(b.header.id)
                        && b.header == pruned[b.header.id].header && b.payload@
                        == pruned[b.header.id].payload@,
                    None => forall|x: u64| imm.contains(x) ==> !pruned.contains_key(x),
                })
                &&& forall|x: u64|
                    #[trigger] final(self)@.frontier.contains(x) <==> (pre.frontier.contains(x) || (
                    fut.contains(x) && !(imm.contains(x) && pruned.contains_key(x))))
            }),
    {
        broadcast use vstd::set::group_set_axioms;

        let ghost pre = old(self)@;
        let immediate = self.get_successor_block_hashes(&block_hashes, 1);
        let future = self.get_successor_block_hashes(&block_hashes, FUTURE_SUCCESSORS_DEPTH);
        let ghost input = block_hashes@.to_set();
        let ghost imm = immediate@.to_set();
        let ghost fut = future@.to_set();
        self.blockchain.prune_old_blocks(&block_hashes);
        let ghost pruned = self@.store.blocks;

        let mut successor_ids: Vec<u64> = Vec::new();
        let mut first: Option<Block> = None;
        let ni = immediate.len();
        let mut i: usize = 0;
        while i < ni
            invariant
                self.wf(),
                self@ == (SyncModel {
                    store: StoreModel {
                        headers: pre.store.headers,
                        children: pre.store.children,
                        blocks: pruned,
                        tips: pre.store.tips,
                        genesis: pre.store.genesis,
                    },
                    peers: pre.peers,
                    pending: pre.pending,
                    frontier: pre.frontier,
                    queue: pre.queue,
                }),
                ni == immediate@.len(),
                imm == immediate@.to_set(),
                0 <= i <= ni,
                forall|a: int, b: int|
                    0 <= a < b < immediate@.len() ==> immediate@[a] != immediate@[b],
                forall|a: int|
                    0 <= a < successor_ids@.len() ==> imm.contains(#[trigger] successor_ids@[a])
                        && pruned.contains_key(successor_ids@[a]),
                forall|a: int|
                    0 <= a < successor_ids@.len() ==> immediate@.take(i as int).contains(
                        #[trigger] successor_ids@[a],
                    ),
                forall|j: int|
                    0 <= j < i && pruned.contains_key(#[trigger] immediate@[j])
                        ==> successor_ids@.contains(immediate@[j]),
                forall|a: int, b: int|
                    0 <= a < b < successor_ids@.len() ==> successor_ids@[a] != successor_ids@[b],
                match first {
                    Some(b) => imm.contains(b.header.id) && pruned.contains_key(b.header.id)
                        && b.header == pruned[b.header.id].header && b.payload@
                        == pruned[b.header.id].payload@,
                    None => forall|j: int|
                        0 <= j < i ==> !pruned.contains_key(#[trigger] immediate@[j]),
                },
            decreases ni - i,
        {
            let x = immediate[i];
            let ghost ids_old = successor_ids@;
            match self.blockchain.get_block(&x) {
                Some(block_ref) => {
                    if first.is_none() {
                        first = Some(clone_block(block_ref));
                    }
                    successor_ids.push(x);
                    proof {
                        assert(imm.contains(x)) by {
                            assert(immediate@[i as int] == x);
                        }
                        assert forall|a: int, b: int|
                            0 <= a < b < successor_ids@.len() implies successor_ids@[a]
                            != successor_ids@[b] by {
                            if b == successor_ids@.len() - 1 {
                                if ids_old[a] == x {
                                    assert(immediate@.take(i as int).contains(ids_old[a]));
                                    let j0 = choose|j0: int|
                                        0 <= j0 < i && immediate@.take(i as int)[j0] == ids_old[a];
                                    assert(immediate@[j0] == immediate@[i as int]);
                                    assert(false);
                                }
                            } else {
                                assert(ids_old[a] != ids_old[b]);
                            }
                        }
                        assert forall|a: int|
                            0 <= a < successor_ids@.len() implies immediate@.take(
                            i as int + 1,
                        ).contains(#[trigger] successor_ids@[a]) by {
                            if a < successor_ids@.len() - 1 {
                                assert(immediate@.take(i as int).contains(ids_old[a]));
                                let j0 = choose|j0: int|
                                    0 <= j0 < i && immediate@.take(i as int)[j0] == ids_old[a];
                                assert(immediate@.take(i as int + 1)[j0] == successor_ids@[a]);
                            } else {
                                assert(immediate@.take(i as int + 1)[i as int] == x);
                            }
                        }
                        assert forall|j: int|
                            0 <= j < i + 1 && pruned.contains_key(#[trigger] immediate@[j])
                                implies successor_ids@.contains(immediate@[j]) by {
                            if j < i {
                                assert(ids_old.contains(immediate@[j]));
                                let a0 = choose|a0: int|
                                    0 <= a0 < ids_old.len() && ids_old[a0] == immediate@[j];
                                assert(successor_ids@[a0] == immediate@[j]);
                            } else {
                                assert(successor_ids@.last() == x);
                            }
                        }
                    }
                },
                None => {
                    proof {
                        assert forall|a: int|
                            0 <= a < successor_ids@.len() implies immediate@.take(
                            i as int + 1,
                        ).contains(#[trigger] successor_ids@[a]) by {
                            assert(immediate@.take(i as int).contains(successor_ids@[a]));
                            let j0 = choose|j0: int|
                                0 <= j0 < i && immediate@.take(i as int)[j0]
                                    == successor_ids@[a];
                            assert(immediate@.take(i as int + 1)[j0] == successor_ids@[a]);
                        }
                    }
                },
            }
            proof {
                assert forall|a: int|
                    0 <= a < successor_ids@.len() implies immediate@.take(i as int + 1).contains(
                    #[trigger] successor_ids@[a],
                ) by {
                    if immediate@.take(i as int).contains(successor_ids@[a]) {
                        let j0 = choose|j0: int|
                            0 <= j0 < i && immediate@.take(i as int)[j0] == successor_ids@[a];
                        assert(immediate@.take(i as int + 1)[j0] == successor_ids@[a]);
                    }
                }
            }
            i = i + 1;
        }
        proof {
            if first is None {
                assert forall|x: u64| imm.contains(x) implies !pruned.contains_key(x) by {
                    let j = choose|j: int| 0 <= j < immediate@.len() && immediate@[j] == x;
                }
            }
        }

        let to_add = diff_ids(&future, &successor_ids);
        let na = to_add.len();
        let mut w: usize = 0;
        while w < na
            invariant
                self.wf(),
                self.policy() == old(self).policy(),
                na == to_add@.len(),
                0 <= w <= na,
                self@.store == (StoreModel {
                    headers: pre.store.headers,
                    children: pre.store.children,
                    blocks: pruned,
                    tips: pre.store.tips,
                    genesis: pre.store.genesis,
                }),
                self@.peers == pre.peers,
                self@.pending == pre.pending,
                self@.queue == pre.queue,
                forall|a: int, b: int| 0 <= a < b < to_add@.len() ==> to_add@[a] != to_add@[b],
                forall|y: u64|
                    #[trigger] self@.frontier.contains(y) <==> (pre.frontier.contains(y)
                        || to_add@.take(w as int).contains(y)),
            decreases na - w,
        {
            proof {
                assert(to_add@.take(w as int + 1) =~= to_add@.take(w as int).push(
                    to_add@[w as int],
                ));
            }
            let x = to_add[w];
            let ghost fr_old = self@.frontier;
            if !contains_id(&self.inventory_to_be_synced, x) {
                self.inventory_to_be_synced.push(x);
                proof {
                    assert(self@.frontier =~= fr_old.push(x));
                    assert forall|a: int, b: int|
                        0 <= a < b < self@.frontier.len() implies #[trigger] self@.frontier[a]
                        != #[trigger] self@.frontier[b] by {
                        if b == self@.frontier.len() - 1 {
                            if fr_old[a] == x {
                                assert(fr_old.contains(x));
                                assert(false);
                            }
                        } else {
                            assert(fr_old[a] != fr_old[b]);
                        }
                    }
                    assert forall|y: u64| #[trigger] self@.frontier.contains(y) implies (
                    pre.frontier.contains(y) || to_add@.take(w as int + 1).contains(y)) by {
                        let a0 = choose|a0: int|
                            0 <= a0 < self@.frontier.len() && self@.frontier[a0] == y;
                        if a0 < self@.frontier.len() - 1 {
                            assert(fr_old[a0] == y);
                            assert(fr_old.contains(y));
                        } else {
                            assert(to_add@.take(w as int + 1).last() == x);
                        }
                    }
                    assert forall|y: u64|
                        pre.frontier.contains(y) || to_add@.take(w as int + 1).contains(
                            y,
                        ) implies #[trigger] self@.frontier.contains(y) by {
                        if pre.frontier.contains(y) || to_add@.take(w as int).contains(y) {
                            assert(fr_old.contains(y));
                            let a0 = choose|a0: int| 0 <= a0 < fr_old.len() && fr_old[a0] == y;
                            assert(self@.frontier[a0] == y);
                        } else {
                            assert(y == x);
                            assert(self@.frontier.last() == x);
                        }
                    }
                }
            } else {
                proof {
                    assert forall|y: u64| #[trigger] self@.frontier.contains(y) <==> (
                    pre.frontier.contains(y) || to_add@.take(w as int + 1).contains(y)) by {
                        if to_add@.take(w as int + 1).contains(y) && !to_add@.take(
                            w as int,
                        ).contains(y) {
                            assert(y == x);
                            assert(self@.frontier.contains(x));
                        }
                    }
                }
            }
            w = w + 1;
        }
        proof {
            assert(to_add@.take(na as int) =~= to_add@);
            assert forall|x: u64| #[trigger] self@.frontier.contains(x) <==> (
            pre.frontier.contains(x) || (fut.contains(x) && !(imm.contains(x)
                && pruned.contains_key(x)))) by {
                assert(to_add@.to_set() == fut.difference(successor_ids@.to_set()));
                if to_add@.contains(x) {
                    assert(to_add@.to_set().contains(x));
                }
                if fut.contains(x) && !(imm.contains(x) && pruned.contains_key(x)) {
                    if successor_ids@.to_set().contains(x) {
                        let a0 = choose|a0: int|
                            0 <= a0 < successor_ids@.len() && successor_ids@[a0] == x;
                        assert(imm.contains(x) && pruned.contains_key(x));
                        assert(false);
                    }
                    assert(to_add@.to_set().contains(x));
                }
                if to_add@.to_set().contains(x) && imm.contains(x) && pruned.contains_key(x) {
                    assert(successor_ids@.contains(x)) by {
                        let j = choose|j: int|
                            0 <= j < immediate@.len() && immediate@[j] == x;
                    }
                    assert(successor_ids@.to_set().contains(x));
                    assert(false);
                }
            }
        }
        first
    }

    /// Position of the outstanding fetch for the given block id, if any.
    fn find_pending(&self, inv: u64) -> (r: Option<usize>)
        requires
            self.wf(),
        ensures
            match r {
                Some(i) => has_pending(self@.pending, inv) && i as int == pending_idx(
                    self@.pending,
                    inv,
                ) && i < self@.pending.len() && self@.pending[i as int].inventory == inv,
                None => !has_pending(self@.pending, inv),
            },
    {
        let n = self.get_data_request_info.len();
        let mut i: usize = 0;
        while i < n
            invariant
                self.wf(),
                n == self@.pending.len(),
                0 <= i <= n,
                forall|j: int| 0 <= j < i ==> (#[trigger] self@.pending[j]).inventory != inv,
            decreases n - i,
        {
            if self.get_data_request_info[i].inventory == inv {
                proof {
                    let k = pending_idx(self@.pending, inv);
                    assert(0 <= k < self@.pending.len() && self@.pending[k].inventory == inv);
                    if k != i as int {
                        assert(false);
                    }
                }
                return Some(i);
            }
            i = i + 1;
        }
        None
    }

    /// Handle a block message: drop it if the peer is untracked; otherwise
    /// hand the block to the store (the header is accepted first, then the
    /// body is checked and cached). On success the outstanding fetch for
    /// this block, if any, is closed, and if it was addressed to the sending
    /// peer, that peer's outstanding counter is decremented. A rejected body
    /// surfaces as an error without touching the fetch bookkeeping.
    #[verifier::rlimit(50)]
    pub fn received_block_message(&mut self, addr: u64, block: Block) -> (r: Result<
        (),
        ReceivedBlockMessageError,
    >)
        requires
            old(self).wf(),
        ensures
            final(self).wf(),
            final(self).policy() == old(self).policy(),
            !has_peer(old(self)@.peers, addr) ==> r == Err::<(), ReceivedBlockMessageError>(
                ReceivedBlockMessageError::UnknownPeer,
            ) && final(self)@ == old(self)@,
            has_peer(old(self)@.peers, addr) ==> ({
                let pre = old(self)@;
                let full = model_add_block(
                    pre.store,
                    block,
                    old(self).policy().header_ok(block.header),
                    old(self).policy().block_ok(block),
                );
                &&& final(self)@.store == full.0
                &&& final(self)@.frontier == pre.frontier
                &&& final(self)@.queue == pre.queue
                &&& match full.1 {
                    Err(_) => r == Err::<(), ReceivedBlockMessageError>(
                        ReceivedBlockMessageError::BlockNotAdded,
                    ) && final(self)@.pending == pre.pending && final(self)@.peers == pre.peers,
                    Ok(_) => r == Ok::<(), ReceivedBlockMessageError>(())
                        && block_accepted_post(pre, final(self)@, addr, block.header.id),
                }
            }),
    {
        let idx = match self.find_peer(addr) {
            Some(i) => i,
            None => {
                return Err(ReceivedBlockMessageError::UnknownPeer);
            },
        };
        let inv = block.header.id;
        let pend = self.find_pending(inv);
        match self.blockchain.add_block(block) {
            Ok(_height) => {
                if let Some(pi) = pend {
                    let e = self.get_data_request_info.remove(pi);
                    proof {
                        let ps = old(self)@.pending;
                        assert forall|a: int, b: int| 0 <= a < b < self@.pending.len() implies (
                        #[trigger] self@.pending[a]).inventory != (
                        #[trigger] self@.pending[b]).inventory by {
                            let a0: int = if a < pi as int {
                                a
                            } else {
                                a + 1
                            };
                            let b0: int = if b < pi as int {
                                b
                            } else {
                                b + 1
                            };
                            assert(self@.pending[a] == ps[a0]);
                            assert(self@.pending[b] == ps[b0]);
                            assert(ps[a0].inventory != ps[b0].inventory);
                        }
                    }
                    if e.addr == addr {
                        let mut p = self.peer_info.remove(idx);
                        p.num_of_outstanding_get_data_requests =
                            p.num_of_outstanding_get_data_requests.saturating_sub(1);
                        self.peer_info.insert(idx, p);
                        proof {
                            let pre = old(self)@;
                            let q = pre.peers[idx as int];
                            assert(self@.peers =~= pre.peers.update(
                                idx as int,
                                peer_with_outstanding(
                                    q,
                                    spec_sat_sub(
                                        q.num_of_outstanding_get_data_requests as int,
                                        1,
                                    ) as u32,
                                ),
                            ));
                            assert forall|a: int, b: int| 0 <= a < b < self@.peers.len() implies (
                            #[trigger] self@.peers[a]).addr != (#[trigger] self@.peers[b]).addr by {
                                assert(pre.peers[a].addr != pre.peers[b].addr);
                                assert(self@.peers[a].addr == pre.peers[a].addr);
                                assert(self@.peers[b].addr == pre.peers[b].addr);
                            }
                        }
                    }
                }
                proof {
                    assert(model_wf(self@.store));
                    assert(self@.frontier == old(self)@.frontier);
                    assert(self@.queue == old(self)@.queue);
                    assert(self.wf());
                }
                Ok(())
            },
            Err(_err) => {
                proof {
                    assert(model_wf(self@.store));
                    assert(self@.frontier == old(self)@.frontier);
                    assert(self@.queue == old(self)@.queue);
                    assert(self@.pending == old(self)@.pending);
                    assert(self@.peers == old(self)@.peers);
                    assert(self.wf());
                }
                Err(ReceivedBlockMessageError::BlockNotAdded)
            },
        }
    }

    /// Expire outstanding fetches older than the fetch timeout: each
    /// expired entry is dropped, its owning peer's outstanding counter is
    /// decremented (clipped at zero), and its block id moves back into the
    /// frontier unless it is already there.
    fn filter_expired_get_data_requests(&mut self, now: u64)
        requires
            old(self).wf(),
        ensures
            final(self).wf(),
            final(self).policy() == old(self).policy(),
            final(self)@.store == old(self)@.store,
            final(self)@.queue == old(self)@.queue,
            final(self)@.pending == live_pending(old(self)@.pending, now),
            final(self)@.peers == peers_after_expiry(old(self)@.peers, old(self)@.pending, now),
            final(self)@.frontier == frontier_after_expiry(
                old(self)@.frontier,
                old(self)@.pending,
                now,
            ),
    {
        let n = self.get_data_request_info.len();
        let mut kept: Vec<GetDataRequestInfo> = Vec::new();
        let mut i: usize = 0;
        proof {
            reveal(Seq::filter);
            assert(old(self)@.pending.take(0) =~= Seq::<GetDataRequestInfo>::empty());
            assert(kept@ =~= live_pending(old(self)@.pending.take(0), now));
        }
        while i < n
            invariant
                old(self).wf(),
                self.wf(),
                self.policy() == old(self).policy(),
                n == old(self)@.pending.len(),
                0 <= i <= n,
                self@.pending == old(self)@.pending,
                self@.store == old(self)@.store,
                self@.queue == old(self)@.queue,
                kept@ == live_pending(old(self)@.pending.take(i as int), now),
                self@.peers == peers_after_expiry(
                    old(self)@.peers,
                    old(self)@.pending.take(i as int),
                    now,
                ),
                self@.frontier == frontier_after_expiry(
                    old(self)@.frontier,
                    old(self)@.pending.take(i as int),
                    now,
                ),
            decreases n - i,
        {
            let ghost pend0 = old(self)@.pending;
            proof {
                reveal(Seq::filter);
                assert(pend0.take(i as int + 1).drop_last() =~= pend0.take(i as int));
                assert(pend0.take(i as int + 1).last() == pend0[i as int]);
            }
            let e = self.get_data_request_info[i];
            let expired = now > GETDATA_REQUEST_TIMEOUT_SECS && e.sent_at < now
                - GETDATA_REQUEST_TIMEOUT_SECS;
            proof {
                assert(expired == is_expired(e, now));
            }
            if expired {
                let ghost ps1 = self@.peers;
                match self.find_peer(e.addr) {
                    Some(pi) => {
                        let mut p = self.peer_info.remove(pi);
                        p.num_of_outstanding_get_data_requests =
                            p.num_of_outstanding_get_data_requests.saturating_sub(1);
                        self.peer_info.insert(pi, p);
                        proof {
                            let q = ps1[pi as int];
                            assert(self@.peers =~= ps1.update(
                                pi as int,
                                peer_with_outstanding(
                                    q,
                                    spec_sat_sub(
                                        q.num_of_outstanding_get_data_requests as int,
                                        1,
                                    ) as u32,
                                ),
                            ));
                            assert forall|a: int, b: int| 0 <= a < b < self@.peers.len() implies (
                            #[trigger] self@.peers[a]).addr != (#[trigger] self@.peers[b]).addr by {
                                assert(ps1[a].addr != ps1[b].addr);
                                assert(self@.peers[a].addr == ps1[a].addr);
                                assert(self@.peers[b].addr == ps1[b].addr);
                            }
                        }
                    },
                    None => {},
                }
                proof {
                    assert(self@.peers == peers_after_expiry(
                        old(self)@.peers,
                        pend0.take(i as int + 1),
                        now,
                    ));
                }
                let in_frontier = contains_id(&self.inventory_to_be_synced, e.inventory);
                if !in_frontier {
                    self.inventory_to_be_synced.push(e.inventory);
                    proof {
                        let fr1 = frontier_after_expiry(
                            old(self)@.frontier,
                            pend0.take(i as int),
                            now,
                        );
                        assert(self@.frontier =~= fr1.push(e.inventory));
                        assert forall|a: int, b: int|
                            0 <= a < b < self@.frontier.len() implies #[trigger] self@.frontier[a]
                            != #[trigger] self@.frontier[b] by {
                            if b < self@.frontier.len() - 1 {
                                assert(fr1[a] != fr1[b]);
                            } else {
                                assert(self@.frontier[b] == e.inventory);
                                assert(self@.frontier[a] == fr1[a]);
                                if fr1[a] == e.inventory {
                                    assert(fr1.contains(e.inventory));
                                    assert(false);
                                }
                            }
                        }
                    }
                }
                proof {
                    assert(self@.frontier == frontier_after_expiry(
                        old(self)@.frontier,
                        pend0.take(i as int + 1),
                        now,
                    ));
                    assert(kept@ == live_pending(pend0.take(i as int + 1), now));
                    assert(self.wf());
                }
            } else {
                kept.push(e);
                proof {
                    reveal(Seq::filter);
                    assert(kept@ == live_pending(pend0.take(i as int + 1), now));
                }
            }
            i = i + 1;
        }
        proof {
            assert(old(self)@.pending.take(n as int) =~= old(self)@.pending);
        }
        self.get_data_request_info = kept;
        proof {
            let pred = |e: GetDataRequestInfo| !is_expired(e, now);
            assert forall|a: int, b: int| 0 <= a < b < self@.pending.len() implies (
            #[trigger] self@.pending[a]).inventory != (#[trigger] self@.pending[b]).inventory by {
                lemma_filter_is_subsequence(old(self)@.pending, pred, a, b);
            }
            assert(self.wf());
        }
    }

    /// Dispatch body-fetch requests: first expire old fetches (expired
    /// items move back into the frontier and their owners' counters go
    /// down), then assign frontier items not already being fetched to
    /// peers, least-loaded peer first, each peer receiving up to its
    /// remaining capacity of [`INV_PER_GET_DATA_REQUEST`], the items chosen
    /// by the injected sampler. Each dispatched item moves from the
    /// frontier into an outstanding fetch and a `getdata` command is
    /// queued for it; an item stays in the frontier only if every peer is
    /// saturated.
    #[verifier::rlimit(100)]
    pub fn sync_blocks(&mut self, now: u64)
        requires
            old(self).wf(),
        ensures
            final(self).wf(),
            final(self).policy() == old(self).policy(),
            final(self)@.store == old(self)@.store,
            dispatch_state_post(old(self)@, final(self)@, now),
            final(self)@.queue.len() >= old(self)@.queue.len(),
            final(self)@.queue.take(old(self)@.queue.len() as int) == old(self)@.queue,
            dispatch_queue_post(
                peers_after_expiry(old(self)@.peers, old(self)@.pending, now),
                live_pending(old(self)@.pending, now).len() as int,
                final(self)@.pending,
                final(self)@.queue,
                old(self)@.queue.len() as int,
            ),
    {
        self.filter_expired_get_data_requests(now);
        let ghost mid = self@;
        let ghost base = mid.pending.len() as int;
        if self.inventory_to_be_synced.is_empty() {
            proof {
                reveal(Seq::filter);
                assert(self@.pending.take(base) =~= mid.pending);
                assert(self@.pending.skip(base) =~= Seq::<GetDataRequestInfo>::empty());
                assert forall|j: int| 0 <= j < mid.peers.len() implies (
                #[trigger] mid.peers[j]).num_of_outstanding_get_data_requests as int + addr_count(
                    self@.pending.skip(base),
                    mid.peers[j].addr,
                ) == self@.peers[j].num_of_outstanding_get_data_requests as int by {
                    assert(Seq::<GetDataRequestInfo>::empty().filter(
                        |e: GetDataRequestInfo| e.addr == mid.peers[j].addr,
                    ) =~= Seq::<GetDataRequestInfo>::empty());
                }
                assert(self@.queue.take(old(self)@.queue.len() as int) =~= old(self)@.queue);
                assert(dispatch_state_post(old(self)@, self@, now));
                assert(dispatch_queue_post(
                    mid.peers,
                    base,
                    self@.pending,
                    self@.queue,
                    old(self)@.queue.len() as int,
                ));
            }
            return ;
        }

        let nf = self.inventory_to_be_synced.len();
        let mut candidates: Vec<u64> = Vec::new();
        let mut ci: usize = 0;
        let ghost not_pend = |x: u64| !has_pending(mid.pending, x);
        proof {
            reveal(Seq::filter);
            assert(mid.frontier.take(0) =~= Seq::<u64>::empty());
        }
        while ci < nf
            invariant
                self.wf(),
                self@ == mid,
                nf == mid.frontier.len(),
                0 <= ci <= nf,
                not_pend == (|x: u64| !has_pending(mid.pending, x)),
                candidates@ == mid.frontier.take(ci as int).filter(not_pend),
            decreases nf - ci,
        {
            proof {
                reveal(Seq::filter);
                assert(mid.frontier.take(ci as int + 1).drop_last() =~= mid.frontier.take(
                    ci as int,
                ));
                assert(mid.frontier.take(ci as int + 1).last() == mid.frontier[ci as int]);
            }
            let x = self.inventory_to_be_synced[ci];
            if self.find_pending(x).is_none() {
                candidates.push(x);
            }
            ci = ci + 1;
        }
        proof {
            assert(mid.frontier.take(nf as int) =~= mid.frontier);
        }

        proof {
            assert forall|w: int| 0 <= w < candidates@.len() implies mid.frontier.contains(
                #[trigger] candidates@[w],
            ) && !has_pending(mid.pending, candidates@[w]) by {
                mid.frontier.lemma_filter_pred(not_pend, w);
                lemma_filter_element_index(mid.frontier, not_pend, w);
                let a = choose|a: int|
                    0 <= a < mid.frontier.len() && mid.frontier[a] == mid.frontier.filter(
                        not_pend,
                    )[w];
                assert(mid.frontier.contains(candidates@[w]));
            }
            assert forall|x: u64|
                mid.frontier.contains(x) && !has_pending(mid.pending, x) implies #[trigger] candidates@.contains(
                x,
            ) by {
                mid.frontier.filter_lemma(not_pend);
                let a = choose|a: int| 0 <= a < mid.frontier.len() && mid.frontier[a] == x;
                assert(not_pend(mid.frontier[a]));
                assert(mid.frontier.filter(not_pend).contains(mid.frontier[a]));
            }
            assert forall|a: int, b: int| 0 <= a < b < candidates@.len() implies #[trigger] candidates@[a]
                != #[trigger] candidates@[b] by {
                lemma_filter_is_subsequence(mid.frontier, not_pend, a, b);
            }
        }

        let np = self.peer_info.len();
        let mut processed: Vec<bool> = Vec::new();
        let mut fi: usize = 0;
        while fi < np
            invariant
                0 <= fi <= np,
                processed@.len() == fi,
                forall|j: int| 0 <= j < fi ==> !(#[trigger] processed@[j]),
            decreases np - fi,
        {
            processed.push(false);
            fi = fi + 1;
        }
        proof {
            lemma_num_true_zero(processed@);
        }

        let mut t: usize = 0;
        while t < np
            invariant
                self.wf(),
                self.policy() == old(self).policy(),
                self@.store == mid.store,
                self@.frontier == mid.frontier,
                np == mid.peers.len(),
                base == mid.pending.len() as int,
                self@.peers.len() == np,
                processed@.len() == np,
                0 <= t <= np,
                num_true(processed@) == t,
                self@.pending.len() >= base,
                self@.pending.take(base) == mid.pending,
                forall|i: int|
                    base <= i < self@.pending.len() ==> {
                        let e = #[trigger] self@.pending[i];
                        &&& e.sent_at == now
                        &&& e.on_timeout == OnTimeout::Ignore
                        &&& has_peer(mid.peers, e.addr)
                        &&& mid.frontier.contains(e.inventory)
                        &&& !has_pending(mid.pending, e.inventory)
                    },
                forall|j: int|
                    0 <= j < np ==> {
                        let p = #[trigger] mid.peers[j];
                        let q = self@.peers[j];
                        &&& q.addr == p.addr
                        &&& q.height == p.height
                        &&& q.tip == p.tip
                        &&& q.last_asked == p.last_asked
                        &&& q.sent_at == p.sent_at
                        &&& q.on_timeout == p.on_timeout
                        &&& q.num_of_outstanding_get_data_requests as int
                            == p.num_of_outstanding_get_data_requests as int + addr_count(
                            self@.pending.skip(base),
                            p.addr,
                        )
                        &&& (p.num_of_outstanding_get_data_requests < INV_PER_GET_DATA_REQUEST
                            ==> q.num_of_outstanding_get_data_requests
                            <= INV_PER_GET_DATA_REQUEST)
                        &&& (p.num_of_outstanding_get_data_requests >= INV_PER_GET_DATA_REQUEST
                            ==> q.num_of_outstanding_get_data_requests
                            == p.num_of_outstanding_get_data_requests)
                    },
                forall|j: int|
                    0 <= j < np && !(#[trigger] processed@[j])
                        ==> self@.peers[j].num_of_outstanding_get_data_requests == mid.peers[j].num_of_outstanding_get_data_requests,
                candidates@.len() > 0 ==> forall|j: int|
                    0 <= j < np && #[trigger] processed@[j]
                        ==> self@.peers[j].num_of_outstanding_get_data_requests
                        == INV_PER_GET_DATA_REQUEST,
                t == np ==> (candidates@.len() > 0 ==> forall|j: int|
                    0 <= j < np ==> (
                    #[trigger] self@.peers[j]).num_of_outstanding_get_data_requests
                        >= INV_PER_GET_DATA_REQUEST),
                forall|w: int|
                    0 <= w < candidates@.len() ==> mid.frontier.contains(#[trigger] candidates@[w])
                        && !has_pending(self@.pending, candidates@[w]),
                forall|x: u64|
                    mid.frontier.contains(x) && !has_pending(self@.pending, x)
                        ==> #[trigger] candidates@.contains(x),
                forall|a: int, b: int|
                    0 <= a < b < candidates@.len() ==> #[trigger] candidates@[a]
                        != #[trigger] candidates@[b],
                self@.queue.len() >= mid.queue.len(),
                self@.queue.take(mid.queue.len() as int) == mid.queue,
                forall|i: int|
                    mid.queue.len() <= i < self@.queue.len() ==> {
                        let c = #[trigger] self@.queue[i];
                        &&& has_peer(mid.peers, c.address)
                        &&& getdata_covers(c, self@.pending, base)
                    },
                pending_commanded(self@.pending, base, self@.queue, mid.queue.len() as int),
                serves_least_loaded_first(mid.peers, self@.peers),
                forall|j2: int, q: int|
                    0 <= j2 < np && 0 <= q < np && #[trigger] processed@[j2] && !(
                    #[trigger] processed@[q]) ==> served_before(mid.peers, j2, q),
            ensures
                self.wf(),
                self.policy() == old(self).policy(),
                self@.store == mid.store,
                self@.frontier == mid.frontier,
                self@.peers.len() == np,
                self@.pending.len() >= base,
                self@.pending.take(base) == mid.pending,
                forall|i: int|
                    base <= i < self@.pending.len() ==> {
                        let e = #[trigger] self@.pending[i];
                        &&& e.sent_at == now
                        &&& e.on_timeout == OnTimeout::Ignore
                        &&& has_peer(mid.peers, e.addr)
                        &&& mid.frontier.contains(e.inventory)
                        &&& !has_pending(mid.pending, e.inventory)
                    },
                forall|j: int|
                    0 <= j < np ==> {
                        let p = #[trigger] mid.peers[j];
                        let q = self@.peers[j];
                        &&& q.addr == p.addr
                        &&& q.height == p.height
                        &&& q.tip == p.tip
                        &&& q.last_asked == p.last_asked
                        &&& q.sent_at == p.sent_at
                        &&& q.on_timeout == p.on_timeout
                        &&& q.num_of_outstanding_get_data_requests as int
                            == p.num_of_outstanding_get_data_requests as int + addr_count(
                            self@.pending.skip(base),
                            p.addr,
                        )
                        &&& (p.num_of_outstanding_get_data_requests < INV_PER_GET_DATA_REQUEST
                            ==> q.num_of_outstanding_get_data_requests
                            <= INV_PER_GET_DATA_REQUEST)
                        &&& (p.num_of_outstanding_get_data_requests >= INV_PER_GET_DATA_REQUEST
                            ==> q.num_of_outstanding_get_data_requests
                            == p.num_of_outstanding_get_data_requests)
                    },
                candidates@.len() > 0 ==> forall|j: int|
                    0 <= j < np ==> (
                    #[trigger] self@.peers[j]).num_of_outstanding_get_data_requests
                        >= INV_PER_GET_DATA_REQUEST,
                forall|w: int|
                    0 <= w < candidates@.len() ==> mid.frontier.contains(#[trigger] candidates@[w])
                        && !has_pending(self@.pending, candidates@[w]),
                forall|x: u64|
                    mid.frontier.contains(x) && !has_pending(self@.pending, x)
                        ==> #[trigger] candidates@.contains(x),
                forall|a: int, b: int|
                    0 <= a < b < candidates@.len() ==> #[trigger] candidates@[a]
                        != #[trigger] candidates@[b],
                self@.queue.len() >= mid.queue.len(),
                self@.queue.take(mid.queue.len() as int) == mid.queue,
                forall|i: int|
                    mid.queue.len() <= i < self@.queue.len() ==> {
                        let c = #[trigger] self@.queue[i];
                        &&& has_peer(mid.peers, c.address)
                        &&& getdata_covers(c, self@.pending, base)
                    },
                pending_commanded(self@.pending, base, self@.queue, mid.queue.len() as int),
                serves_least_loaded_first(mid.peers, self@.peers),
            decreases np - t,
        {
            // pick the first unprocessed peer with the fewest outstanding fetches
            let mut best: usize = np;
            let mut j: usize = 0;
            while j < np
                invariant
                    np == self@.peers.len(),
                    processed@.len() == np,
                    0 <= j <= np,
                    best == np || (best < j && !processed@[best as int]),
                    best == np ==> forall|jj: int| 0 <= jj < j ==> #[trigger] processed@[jj],
                    best < np ==> forall|jj: int|
                        0 <= jj < j && !(#[trigger] processed@[jj])
                            ==> self@.peers[jj].num_of_outstanding_get_data_requests
                            >= self@.peers[best as int].num_of_outstanding_get_data_requests,
                    best < np ==> forall|jj: int|
                        0 <= jj < j && jj < best && !(#[trigger] processed@[jj])
                            ==> self@.peers[jj].num_of_outstanding_get_data_requests
                            > self@.peers[best as int].num_of_outstanding_get_data_requests,
                decreases np - j,
            {
                if !processed[j] && (best == np
                    || self.peer_info[j].num_of_outstanding_get_data_requests
                    < self.peer_info[best].num_of_outstanding_get_data_requests) {
                    best = j;
                }
                j = j + 1;
            }
            if best == np {
                proof {
                    if candidates@.len() > 0 {
                        assert forall|jj: int| 0 <= jj < np implies (
                        #[trigger] self@.peers[jj]).num_of_outstanding_get_data_requests
                            >= INV_PER_GET_DATA_REQUEST by {
                            assert(processed@[jj]);
                        }
                    }
                }
                break ;
            }
            let out = self.peer_info[best].num_of_outstanding_get_data_requests;
            let room = INV_PER_GET_DATA_REQUEST.saturating_sub(out);
            let sel = self.sampler.sample_indices(candidates.len(), room as usize);
            if sel.is_empty() {
                proof {
                    if candidates@.len() > 0 {
                        assert(room == 0);
                        assert(out >= INV_PER_GET_DATA_REQUEST);
                        assert forall|jj: int| 0 <= jj < np implies (
                        #[trigger] self@.peers[jj]).num_of_outstanding_get_data_requests
                            >= INV_PER_GET_DATA_REQUEST by {
                            if processed@[jj] {
                            } else {
                                assert(self@.peers[jj].num_of_outstanding_get_data_requests
                                    >= self@.peers[best as int].num_of_outstanding_get_data_requests);
                            }
                        }
                    }
                }
                break ;
            }
            let peer_addr = self.peer_info[best].addr;
            proof {
                assert(has_peer(mid.peers, peer_addr)) by {
                    assert(mid.peers[best as int].addr == peer_addr);
                }
            }

            // gather the selected items
            let mut items: Vec<u64> = Vec::new();
            let mut si: usize = 0;
            while si < sel.len()
                invariant
                    0 <= si <= sel@.len(),
                    items@.len() == si,
                    forall|q: int| 0 <= q < sel@.len() ==> (#[trigger] sel@[q]) < candidates@.len(),
                    forall|q: int, w: int| 0 <= q < w < sel@.len() ==> sel@[q] != sel@[w],
                    forall|q: int|
                        0 <= q < si ==> #[trigger] items@[q] == candidates@[sel@[q] as int],
                decreases sel@.len() - si,
            {
                items.push(candidates[sel[si]]);
                si = si + 1;
            }
            proof {
                assert forall|a: int, b: int| 0 <= a < b < items@.len() implies #[trigger] items@[a]
                    != #[trigger] items@[b] by {
                    assert(items@[a] == candidates@[sel@[a] as int]);
                    assert(items@[b] == candidates@[sel@[b] as int]);
                    assert(sel@[a] != sel@[b]);
                    if (sel@[a] as int) < (sel@[b] as int) {
                        assert(candidates@[sel@[a] as int] != candidates@[sel@[b] as int]);
                    } else {
                        assert(candidates@[sel@[b] as int] != candidates@[sel@[a] as int]);
                    }
                }
            }

            // queue one getdata command for the batch
            let mut inv_items: Vec<InventoryItem> = Vec::new();
            let mut qi: usize = 0;
            while qi < items.len()
                invariant
                    0 <= qi <= items@.len(),
                    inv_items@.len() == qi,
                    forall|w: int|
                        0 <= w < qi ==> #[trigger] inv_items@[w] == InventoryItem::Block(
                            items@[w],
                        ),
                decreases items@.len() - qi,
            {
                inv_items.push(InventoryItem::Block(items[qi]));
                qi = qi + 1;
            }
            let ghost invs = inv_items@;
            let ghost queue_pre = self@.queue;
            self.outgoing_command_queue.push(
                Command { address: peer_addr, message: NetworkMessage::GetData(inv_items) },
            );
            proof {
                assert(self@.queue.take(mid.queue.len() as int) =~= mid.queue);
            }

            // raise the peer's outstanding counter by the batch size
            let m = items.len();
            proof {
                assert(m as int == if room as int <= candidates@.len() as int {
                    room as int
                } else {
                    candidates@.len() as int
                });
                assert(m <= room);
            }
            let ghost peers_before = self@.peers;
            proof {
                // a saturated peer would have had an empty selection
                if mid.peers[best as int].num_of_outstanding_get_data_requests
                    >= INV_PER_GET_DATA_REQUEST {
                    assert(out >= INV_PER_GET_DATA_REQUEST);
                    assert(room == 0);
                    assert(false);
                }
                assert(out < INV_PER_GET_DATA_REQUEST);
                assert(room == INV_PER_GET_DATA_REQUEST - out);
            }
            let mut p = self.peer_info.remove(best);
            p.num_of_outstanding_get_data_requests = out + (m as u32);
            self.peer_info.insert(best, p);
            proof {
                assert(self@.peers =~= peers_before.update(
                    best as int,
                    peer_with_outstanding(peers_before[best as int], (out + m as u32) as u32),
                ));
            }

            // record one outstanding fetch per item
            let ghost pend_before = self@.pending;
            let ghost peers_snap = self@.peers;
            let ghost queue_snap = self@.queue;
            let mut wi: usize = 0;
            while wi < items.len()
                invariant
                    0 <= wi <= items@.len(),
                    self@.pending.len() == pend_before.len() + wi,
                    self@.pending.take(pend_before.len() as int) == pend_before,
                    self@.peers == peers_snap,
                    self@.queue == queue_snap,
                    self@.frontier == mid.frontier,
                    self@.store == mid.store,
                    self.policy() == old(self).policy(),
                    forall|q: int|
                        0 <= q < wi ==> #[trigger] self@.pending[pend_before.len() + q]
                            == (GetDataRequestInfo {
                            addr: peer_addr,
                            inventory: items@[q],
                            sent_at: now,
                            on_timeout: OnTimeout::Ignore,
                        }),
                decreases items@.len() - wi,
            {
                self.get_data_request_info.push(
                    GetDataRequestInfo {
                        addr: peer_addr,
                        inventory: items[wi],
                        sent_at: now,
                        on_timeout: OnTimeout::Ignore,
                    },
                );
                proof {
                    assert(self@.pending.take(pend_before.len() as int) =~= pend_before);
                }
                wi = wi + 1;
            }

            // drop the dispatched items from the candidate pool
            let ghost cand_before = candidates@;
            let ghost keep = |x: u64| !items@.contains(x);
            let nc = candidates.len();
            let mut new_candidates: Vec<u64> = Vec::new();
            let mut w: usize = 0;
            proof {
                reveal(Seq::filter);
                assert(cand_before.take(0) =~= Seq::<u64>::empty());
            }
            while w < nc
                invariant
                    nc == cand_before.len(),
                    candidates@ == cand_before,
                    0 <= w <= nc,
                    keep == (|x: u64| !items@.contains(x)),
                    new_candidates@ == cand_before.take(w as int).filter(keep),
                decreases nc - w,
            {
                proof {
                    reveal(Seq::filter);
                    assert(cand_before.take(w as int + 1).drop_last() =~= cand_before.take(
                        w as int,
                    ));
                    assert(cand_before.take(w as int + 1).last() == cand_before[w as int]);
                }
                let x = candidates[w];
                if !contains_id(&items, x) {
                    new_candidates.push(x);
                }
                w = w + 1;
            }
            proof {
                assert(cand_before.take(nc as int) =~= cand_before);
                assert forall|a: int, b: int|
                    0 <= a < b < new_candidates@.len() implies #[trigger] new_candidates@[a]
                    != #[trigger] new_candidates@[b] by {
                    lemma_filter_is_subsequence(cand_before, keep, a, b);
                }
                assert forall|a: int| 0 <= a < new_candidates@.len() implies cand_before.contains(
                    #[trigger] new_candidates@[a],
                ) && !items@.contains(new_candidates@[a]) by {
                    cand_before.lemma_filter_pred(keep, a);
                    lemma_filter_element_index(cand_before, keep, a);
                    let a0 = choose|a0: int|
                        0 <= a0 < cand_before.len() && cand_before[a0] == cand_before.filter(
                            keep,
                        )[a];
                    assert(cand_before.contains(new_candidates@[a]));
                }
                assert forall|x: u64|
                    cand_before.contains(x) && !items@.contains(x)
                        implies #[trigger] new_candidates@.contains(x) by {
                    cand_before.filter_lemma(keep);
                    let a0 = choose|a0: int| 0 <= a0 < cand_before.len() && cand_before[a0] == x;
                    assert(keep(cand_before[a0]));
                    assert(cand_before.filter(keep).contains(cand_before[a0]));
                }
            }
            candidates = new_candidates;
            let ghost proc_before = processed@;
            processed.set(best, true);
            proof {
                lemma_num_true_update(proc_before, best as int);
            }
            t = t + 1;

            proof {
                let pend_new = self@.pending;
                let newe = pend_new.skip(pend_before.len() as int);
                assert(base <= pend_before.len());
                assert(pend_before.take(base) == mid.pending);
                assert(pend_new.len() == pend_before.len() + items@.len());
                // the appended entries all target the chosen peer
                assert(newe.len() == items@.len());
                assert forall|q: int| 0 <= q < items@.len() implies #[trigger] pend_new[pend_before.len()
                    + q] == (GetDataRequestInfo {
                    addr: peer_addr,
                    inventory: items@[q],
                    sent_at: now,
                    on_timeout: OnTimeout::Ignore,
                }) by {
                    assert(newe[q] == pend_new[pend_before.len() + q]);
                }
                // each item was a candidate, so known to the frontier and new to the fetches
                assert forall|q: int| 0 <= q < items@.len() implies mid.frontier.contains(
                    #[trigger] items@[q],
                ) && !has_pending(mid.pending, items@[q]) && !has_pending(
                    pend_before,
                    items@[q],
                ) by {
                    assert(items@[q] == cand_before[sel@[q] as int]);
                    assert(mid.frontier.contains(cand_before[sel@[q] as int]));
                    assert(!has_pending(pend_before, cand_before[sel@[q] as int]));
                    if has_pending(mid.pending, items@[q]) {
                        let ii = choose|ii: int|
                            0 <= ii < mid.pending.len() && mid.pending[ii].inventory
                                == items@[q];
                        assert(pend_before.take(base)[ii] == pend_before[ii]);
                        assert(pend_before[ii].inventory == items@[q]);
                        assert(has_pending(pend_before, items@[q]));
                        assert(false);
                    }
                }
                lemma_batch_pending(mid, base, now, pend_before, pend_new, peer_addr, items@);
                // counters: the batch adds `m` fetches for the chosen peer and none
                // for any other
                let suffix_before = pend_before.skip(base);
                let suffix_new = pend_new.skip(base);
                assert(suffix_new =~= suffix_before + newe);
                assert forall|q: int| 0 <= q < newe.len() implies (#[trigger] newe[q]).addr
                    == peer_addr by {
                    assert(newe[q] == pend_new[pend_before.len() + q]);
                }
                assert(self@.peers[best as int].num_of_outstanding_get_data_requests as int
                    == peers_before[best as int].num_of_outstanding_get_data_requests as int
                    + newe.len());
                lemma_batch_counters(
                    mid.peers,
                    peers_before,
                    self@.peers,
                    suffix_before,
                    suffix_new,
                    newe,
                    peer_addr,
                    best as int,
                );
                // saturation bookkeeping for processed peers
                if candidates@.len() > 0 {
                    // not every candidate was taken, so the batch filled the
                    // chosen peer's capacity exactly
                    let x0 = candidates@[0];
                    assert(cand_before.contains(x0) && !items@.contains(x0));
                    if (m as int) < room as int {
                        assert(m as int == cand_before.len());
                        let a0 = choose|a0: int|
                            0 <= a0 < cand_before.len() && cand_before[a0] == x0;
                        lemma_distinct_indices_cover(sel@, cand_before.len() as int, a0);
                        let q0 = choose|q0: int|
                            0 <= q0 < sel@.len() && (sel@[q0] as int) == a0;
                        assert(items@[q0] == cand_before[a0]);
                        assert(items@.contains(x0));
                        assert(false);
                    }
                    assert(m as int == room as int);
                    assert(out + (m as u32) == INV_PER_GET_DATA_REQUEST);
                    assert forall|j2: int|
                        0 <= j2 < np && #[trigger] processed@[j2]
                            implies self@.peers[j2].num_of_outstanding_get_data_requests
                        == INV_PER_GET_DATA_REQUEST by {
                        if j2 == best as int {
                        } else {
                            assert(proc_before[j2]);
                            assert(peers_before[j2].num_of_outstanding_get_data_requests
                                == INV_PER_GET_DATA_REQUEST);
                        }
                    }
                }
                // the remaining candidates characterize the undispatched items
                assert forall|w2: int| 0 <= w2 < candidates@.len() implies mid.frontier.contains(
                    #[trigger] candidates@[w2],
                ) && !has_pending(self@.pending, candidates@[w2]) by {
                    let x = candidates@[w2];
                    assert(cand_before.contains(x) && !items@.contains(x));
                    let a0 = choose|a0: int| 0 <= a0 < cand_before.len() && cand_before[a0] == x;
                    assert(mid.frontier.contains(x));
                    assert(!has_pending(pend_before, x));
                    if has_pending(pend_new, x) {
                        assert(items@.contains(x));
                        assert(false);
                    }
                }
                assert forall|x: u64|
                    mid.frontier.contains(x) && !has_pending(self@.pending, x)
                        implies #[trigger] candidates@.contains(x) by {
                    if has_pending(pend_before, x) {
                        assert(has_pending(pend_new, x));
                    }
                    assert(cand_before.contains(x));
                    let a0 = choose|a0: int| 0 <= a0 < cand_before.len() && cand_before[a0] == x;
                    if items@.contains(x) {
                        assert(has_pending(pend_new, x));
                        assert(false);
                    }
                    assert(candidates@.contains(cand_before[a0]));
                }
                // the queued command carries exactly this batch; the
                // command/fetch correspondence is preserved
                let qlen0 = queue_pre.len() as int;
                assert(self@.queue.len() == qlen0 + 1);
                assert(self@.queue[qlen0].address == peer_addr);
                assert(self@.queue[qlen0].message matches NetworkMessage::GetData(its) && its@
                    == invs);
                assert(invs.len() == items@.len());
                assert(base <= pend_before.len());
                assert(mid.queue.len() <= queue_pre.len());
                assert forall|w: int| 0 <= w < items@.len() implies (
                #[trigger] pend_new[pend_before.len() + w]).addr == peer_addr
                    && pend_new[pend_before.len() + w].inventory == items@[w] by {
                    assert(pend_new[pend_before.len() + w] == newe[w]);
                }
                lemma_batch_commands(
                    mid.queue.len() as int,
                    base,
                    queue_pre,
                    self@.queue,
                    pend_before,
                    pend_new,
                    peer_addr,
                    items@,
                    invs,
                );
                // the pass served the first least-loaded unserved peer
                assert(cand_before.len() > 0) by {
                    assert(sel@[0] < cand_before.len());
                }
                assert(processed@ == proc_before.update(best as int, true));
                assert forall|j2: int|
                    0 <= j2 < np && proc_before[j2] implies (
                #[trigger] peers_before[j2]).num_of_outstanding_get_data_requests
                    == INV_PER_GET_DATA_REQUEST by {}
                lemma_order_step(
                    mid.peers,
                    peers_before,
                    self@.peers,
                    proc_before,
                    processed@,
                    best as int,
                );
                assert(self.wf());
                if t == np {
                    lemma_num_true_full(processed@);
                    if candidates@.len() > 0 {
                        assert forall|j2: int| 0 <= j2 < np implies (
                        #[trigger] self@.peers[j2]).num_of_outstanding_get_data_requests
                            >= INV_PER_GET_DATA_REQUEST by {
                            assert(processed@[j2]);
                        }
                    }
                }
            }
        }

        self.inventory_to_be_synced = candidates;
        proof {
            assert(self@.queue.take(old(self)@.queue.len() as int) =~= old(self)@.queue);
            assert forall|x: u64| #[trigger] self@.frontier.contains(x) implies (
            frontier_after_expiry(old(self)@.frontier, old(self)@.pending, now).contains(x)
                && !has_pending(self@.pending, x)) by {
                let w = choose|w: int| 0 <= w < self@.frontier.len() && self@.frontier[w] == x;
                assert(mid.frontier.contains(x));
            }
            assert(self.wf());
            assert(dispatch_state_post(old(self)@, self@, now));
            assert(dispatch_queue_post(
                mid.peers,
                base,
                self@.pending,
                self@.queue,
                old(self)@.queue.len() as int,
            ));
        }
    }

    /// Handle a headers message: drop it if the peer is untracked, if it is
    /// unsolicited and larger than the unsolicited cap, or if it exceeds the
    /// protocol maximum; otherwise apply the batch to the store and react as
    /// [`headers_ok_post`] describes. An invalid header in the batch
    /// surfaces as an error after the accepted prefix has been kept.
    pub fn received_headers_message(
        &mut self,
        addr: u64,
        headers: &Vec<Header>,
        now: u64,
    ) -> (r: Result<(), ReceivedHeadersMessageError>)
        requires
            old(self).wf(),
        ensures
            final(self).wf(),
            final(self).policy() == old(self).policy(),
            ({
                let hs = headers@;
                let pre = old(self)@;
                let known = has_peer(pre.peers, addr);
                let unsolicited = known && hs.len() > MAX_UNSOLICITED_HEADERS && pre.peers[peer_idx(
                    pre.peers,
                    addr,
                )].last_asked is None;
                let oversize = hs.len() > MAX_HEADERS_SIZE;
                let ok = |h: Header| old(self).policy().header_ok(h);
                &&& (!known ==> r == Err::<(), ReceivedHeadersMessageError>(
                    ReceivedHeadersMessageError::UnknownPeer,
                ) && final(self)@ == pre)
                &&& (unsolicited ==> r == Err::<(), ReceivedHeadersMessageError>(
                    ReceivedHeadersMessageError::ReceivedTooManyUnsolicitedHeaders,
                ) && final(self)@ == pre)
                &&& (known && !unsolicited && oversize ==> r == Err::<
                    (),
                    ReceivedHeadersMessageError,
                >(ReceivedHeadersMessageError::ReceivedTooManyHeaders) && final(self)@ == pre)
                &&& (known && !unsolicited && !oversize && hs.len() == 0 ==> r == Ok::<
                    (),
                    ReceivedHeadersMessageError,
                >(()) && final(self)@ == pre)
                &&& (known && !unsolicited && !oversize && hs.len() > 0 ==> {
                    &&& headers_ok_post(pre, final(self)@, ok, addr, hs, now)
                    &&& r == (match model_add_headers(pre.store, hs, ok).2 {
                        Some(AddHeaderError::InvalidHeader(_)) => Err::<
                            (),
                            ReceivedHeadersMessageError,
                        >(ReceivedHeadersMessageError::ReceivedInvalidHeader),
                        _ => Ok::<(), ReceivedHeadersMessageError>(()),
                    })
                })
            }),
    {
        let idx = match self.find_peer(addr) {
            Some(i) => i,
            None => {
                return Err(ReceivedHeadersMessageError::UnknownPeer);
            },
        };
        if headers.len() > MAX_UNSOLICITED_HEADERS && self.peer_info[idx].last_asked.is_none() {
            return Err(ReceivedHeadersMessageError::ReceivedTooManyUnsolicitedHeaders);
        }
        if headers.len() > MAX_HEADERS_SIZE {
            return Err(ReceivedHeadersMessageError::ReceivedTooManyHeaders);
        }
        if headers.len() == 0 {
            return Ok(());
        }
        let last_block_hash = headers[headers.len() - 1].id;

        let ghost pre = old(self)@;
        let ghost ok = |h: Header| old(self).policy().header_ok(h);
        let (added_headers, maybe_err) = self.blockchain.add_headers(headers);
        proof {
            let ok_bc = |h: Header| old(self).blockchain.policy().header_ok(h);
            assert(ok =~= ok_bc);
            assert(self@.peers == pre.peers);
        }
        let ghost full = model_add_headers(pre.store, headers@, ok);

        let maybe_last: Option<CachedHeader> = if added_headers.len() > 0 {
            Some(added_headers[added_headers.len() - 1])
        } else {
            match self.blockchain.get_header(&last_block_hash) {
                Some(c) => Some(*c),
                None => None,
            }
        };
        proof {
            assert(maybe_last == batch_last_header(full.0, full.1, headers@));
        }
        let advance = match maybe_last {
            Some(lc) => if lc.height > self.peer_info[idx].height {
                Some(lc)
            } else {
                None
            },
            None => None,
        };
        if let Some(lc) = advance {
            let mut p = self.peer_info.remove(idx);
            p.tip = lc.header.id;
            p.height = lc.height;
            self.peer_info.insert(idx, p);
            proof {
                assert(self@.peers =~= pre.peers.update(
                    idx as int,
                    peer_advanced(pre.peers[idx as int], maybe_last),
                ));
            }
        }
        proof {
            assert(self@.peers[idx as int].addr == addr);
            assert(self@.peers.len() == pre.peers.len());
            assert forall|a: int, b: int| 0 <= a < b < self@.peers.len() implies (
            #[trigger] self@.peers[a]).addr != (#[trigger] self@.peers[b]).addr by {
                assert(pre.peers[a].addr != pre.peers[b].addr);
                assert(self@.peers[a].addr == pre.peers[a].addr);
                assert(self@.peers[b].addr == pre.peers[b].addr);
            }
            let k2 = peer_idx(self@.peers, addr);
            assert(has_peer(self@.peers, addr));
            if k2 != idx as int {
                assert(self@.peers[k2].addr == self@.peers[idx as int].addr);
                assert(false);
            }
            assert(self.blockchain.wf());
            assert(model_wf(self@.store));
            assert(self@.pending == pre.pending);
            assert(self@.frontier == pre.frontier);
            assert(self.wf());
        }

        match maybe_err {
            Some(AddHeaderError::InvalidHeader(_)) => {
                return Err(ReceivedHeadersMessageError::ReceivedInvalidHeader);
            },
            Some(AddHeaderError::PrevHeaderNotCached(stop_hash)) => {
                let locator_vec = self.blockchain.locator_hashes();
                self.send_getheaders(
                    addr,
                    Locators { hashes: locator_vec, stop: Some(stop_hash) },
                    OnTimeout::Ignore,
                    now,
                );
                proof {
                    assert(self@.queue.take(pre.queue.len() as int) =~= pre.queue);
                }
            },
            None => {
                let continue_from = match maybe_last {
                    Some(lc) => if headers.len() == MAX_HEADERS_SIZE {
                        Some(lc)
                    } else {
                        None
                    },
                    None => None,
                };
                match continue_from {
                    Some(lc) => {
                        let mut locator_vec: Vec<u64> = Vec::new();
                        locator_vec.push(lc.header.id);
                        proof {
                            assert(locator_vec@ =~= seq![lc.header.id]);
                        }
                        self.send_getheaders(
                            addr,
                            Locators { hashes: locator_vec, stop: None },
                            OnTimeout::Ignore,
                            now,
                        );
                        proof {
                            assert(self@.queue.take(pre.queue.len() as int) =~= pre.queue);
                        }
                    },
                    None => {
                        let mut p = self.peer_info.remove(idx);
                        p.last_asked = None;
                        self.peer_info.insert(idx, p);
                        proof {
                            assert(self@.peers =~= pre.peers.update(
                                idx as int,
                                peer_cleared(
                                    peer_advanced(pre.peers[idx as int], maybe_last),
                                ),
                            ));
                            assert forall|a: int, b: int| 0 <= a < b < self@.peers.len() implies (
                            #[trigger] self@.peers[a]).addr != (#[trigger] self@.peers[b]).addr by {
                                assert(pre.peers[a].addr != pre.peers[b].addr);
                                assert(self@.peers[a].addr == pre.peers[a].addr);
                                assert(self@.peers[b].addr == pre.peers[b].addr);
                            }
                            assert(model_wf(self@.store));
                            assert(self@.pending == pre.pending);
                            assert(self@.frontier == pre.frontier);
                            assert(self.wf());
                        }
                    },
                }
            },
        }
        Ok(())
    }
}

/// The last accepted entry of a header batch, or the already cached entry
/// for the batch's last header: what the peer's reported tip and height may
/// advance to.
pub open spec fn batch_last_header(store2: StoreModel, added: Seq<CachedHeader>, hs: Seq<Header>) -> Option<
    CachedHeader,
> {
    if added.len() > 0 {
        Some(added.last())
    } else if store2.headers.contains_key(hs.last().id) {
        Some(store2.headers[hs.last().id])
    } else {
        None
    }
}

/// A peer entry with tip and height advanced to a cached header if it is
/// taller than what was recorded; unchanged otherwise.
pub open spec fn peer_advanced(p: PeerInfo, maybe_last: Option<CachedHeader>) -> PeerInfo {
    match maybe_last {
        Some(lc) => if lc.height > p.height {
            PeerInfo { tip: lc.header.id, height: lc.height, ..p }
        } else {
            p
        },
        None => p,
    }
}

/// A peer entry with its outstanding locator request cleared.
pub open spec fn peer_cleared(p: PeerInfo) -> PeerInfo {
    PeerInfo { last_asked: None, ..p }
}

/// What handling a nonempty, within-limits header batch from a tracked peer
/// does to the coordinator: the batch is applied to the store in order; the
/// peer's tip and height advance to the last known header of the batch if
/// taller; then, depending on how the batch ended, either nothing more (an
/// invalid header surfaces as an error), or a corrective locator request for
/// a disconnected header, or a continuation request when a full-size batch
/// was accepted, or the peer's outstanding request is cleared because it is
/// caught up.
pub open spec fn headers_ok_post(
    pre: SyncModel,
    post: SyncModel,
    ok: spec_fn(Header) -> bool,
    addr: u64,
    hs: Seq<Header>,
    now: u64,
) -> bool {
    let k = peer_idx(pre.peers, addr);
    let p = pre.peers[k];
    let full = model_add_headers(pre.store, hs, ok);
    let maybe_last = batch_last_header(full.0, full.1, hs);
    let p1 = peer_advanced(p, maybe_last);
    &&& post.store == full.0
    &&& post.pending == pre.pending
    &&& post.frontier == pre.frontier
    &&& post.peers.len() == pre.peers.len()
    &&& forall|j: int| 0 <= j < pre.peers.len() && j != k ==> post.peers[j] == pre.peers[j]
    &&& match full.2 {
        Some(AddHeaderError::InvalidHeader(_)) => {
            &&& post.peers[k] == p1
            &&& post.queue == pre.queue
        },
        Some(AddHeaderError::PrevHeaderNotCached(stop)) => {
            &&& peer_asked_for_sample(full.0, p1, post.peers[k], Some(stop), OnTimeout::Ignore, now)
            &&& post.queue.len() == pre.queue.len() + 1
            &&& post.queue.take(pre.queue.len() as int) == pre.queue
            &&& ({
                let c = post.queue.last();
                &&& c.address == addr
                &&& (c.message matches NetworkMessage::GetHeaders(g) && is_locator_sample(
                    full.0,
                    g.locator_hashes@,
                ) && g.stop_hash == Some(stop))
            })
        },
        None => {
            if hs.len() == MAX_HEADERS_SIZE && maybe_last is Some {
                let lc = maybe_last->0;
                &&& peer_asked(
                    p1,
                    post.peers[k],
                    seq![lc.header.id],
                    None::<u64>,
                    OnTimeout::Ignore,
                    now,
                )
                &&& post.queue.len() == pre.queue.len() + 1
                &&& post.queue.take(pre.queue.len() as int) == pre.queue
                &&& is_getheaders_cmd(post.queue.last(), addr, seq![lc.header.id], None::<u64>)
            } else {
                &&& post.peers[k] == peer_cleared(p1)
                &&& post.queue == pre.queue
            }
        },
    }
}

/// One breadth-first expansion step over the children relation: the set
/// itself plus every recorded child of a member.
pub open spec fn expand_once(children: Map<u64, Seq<u64>>, s: Set<u64>) -> Set<u64> {
    s.union(
        Set::new(
            |c: u64|
                exists|p: u64|
                    s.contains(p) && children.contains_key(p) && (#[trigger] children[p]).contains(
                        c,
                    ),
        ),
    )
}

/// The ids reachable from a set within the given number of levels of the
/// children relation, the set itself included.
pub open spec fn successors_within(children: Map<u64, Seq<u64>>, s: Set<u64>, depth: nat) -> Set<
    u64,
>
    decreases depth,
{
    if depth == 0 {
        s
    } else {
        expand_once(children, successors_within(children, s, (depth - 1) as nat))
    }
}

/// Whether an outstanding fetch is older than the fetch timeout at the
/// given time.
pub open spec fn is_expired(e: GetDataRequestInfo, now: u64) -> bool {
    e.sent_at + GETDATA_REQUEST_TIMEOUT_SECS < now
}

/// The outstanding fetches that survive expiry at the given time.
pub open spec fn live_pending(pend: Seq<GetDataRequestInfo>, now: u64) -> Seq<GetDataRequestInfo> {
    pend.filter(|e: GetDataRequestInfo| !is_expired(e, now))
}

/// A frontier with one id added unless it is already present.
pub open spec fn frontier_with(fr: Seq<u64>, x: u64) -> Seq<u64> {
    if fr.contains(x) {
        fr
    } else {
        fr.push(x)
    }
}

/// The frontier after expiry: the ids of expired fetches move back into the
/// frontier, in the order the fetches were recorded, skipping ids already
/// present.
pub open spec fn frontier_after_expiry(fr: Seq<u64>, pend: Seq<GetDataRequestInfo>, now: u64) -> Seq<
    u64,
>
    decreases pend.len(),
{
    if pend.len() == 0 {
        fr
    } else {
        let fr1 = frontier_after_expiry(fr, pend.drop_last(), now);
        if is_expired(pend.last(), now) {
            frontier_with(fr1, pend.last().inventory)
        } else {
            fr1
        }
    }
}

/// The peers after expiry: for each expired fetch, its owning peer's
/// outstanding counter is decremented, clipped at zero; peers that are gone
/// are skipped.
pub open spec fn peers_after_expiry(ps: Seq<PeerInfo>, pend: Seq<GetDataRequestInfo>, now: u64) -> Seq<
    PeerInfo,
>
    decreases pend.len(),
{
    if pend.len() == 0 {
        ps
    } else {
        let ps1 = peers_after_expiry(ps, pend.drop_last(), now);
        let e = pend.last();
        if is_expired(e, now) && has_peer(ps1, e.addr) {
            let k = peer_idx(ps1, e.addr);
            let p = ps1[k];
            ps1.update(
                k,
                peer_with_outstanding(
                    p,
                    spec_sat_sub(p.num_of_outstanding_get_data_requests as int, 1) as u32,
                ),
            )
        } else {
            ps1
        }
    }
}

/// The id carried by the last block item of an inventory message, if any.
pub open spec fn last_block_item(items: Seq<InventoryItem>) -> Option<u64>
    decreases items.len(),
{
    if items.len() == 0 {
        None
    } else {
        match items.last() {
            InventoryItem::Block(h) => Some(h),
            _ => last_block_item(items.drop_last()),
        }
    }
}

/// The id carried by the last block item that names a header missing from
/// the given cache, if any.
pub open spec fn last_unknown_block(items: Seq<InventoryItem>, hdrs: Map<u64, CachedHeader>) -> Option<
    u64,
>
    decreases items.len(),
{
    if items.len() == 0 {
        None
    } else {
        match items.last() {
            InventoryItem::Block(h) => if !hdrs.contains_key(h) {
                Some(h)
            } else {
                last_unknown_block(items.drop_last(), hdrs)
            },
            _ => last_unknown_block(items.drop_last(), hdrs),
        }
    }
}

/// A peer entry with its reported tip replaced.
pub open spec fn peer_with_tip(p: PeerInfo, t: u64) -> PeerInfo {
    PeerInfo { tip: t, ..p }
}

/// A peer entry with its outstanding-fetch counter replaced.
pub open spec fn peer_with_outstanding(p: PeerInfo, n: u32) -> PeerInfo {
    PeerInfo { num_of_outstanding_get_data_requests: n, ..p }
}

/// Expiry keeps each peer's identity and request state, and never raises
/// its outstanding counter.
pub proof fn lemma_peers_after_expiry_shape(
    ps: Seq<PeerInfo>,
    pend: Seq<GetDataRequestInfo>,
    now: u64,
)
    ensures
        peers_after_expiry(ps, pend, now).len() == ps.len(),
        forall|j: int|
            0 <= j < ps.len() ==> {
                let q = #[trigger] peers_after_expiry(ps, pend, now)[j];
                let p = ps[j];
                &&& q.addr == p.addr
                &&& q.height == p.height
                &&& q.tip == p.tip
                &&& q.last_asked == p.last_asked
                &&& q.sent_at == p.sent_at
                &&& q.on_timeout == p.on_timeout
                &&& q.num_of_outstanding_get_data_requests
                    <= p.num_of_outstanding_get_data_requests
            },
    decreases pend.len(),
{
    if pend.len() > 0 {
        lemma_peers_after_expiry_shape(ps, pend.drop_last(), now);
    }
}

/// Timeout-recovery law: an outstanding fetch older than the timeout is no
/// longer outstanding after expiry runs, and its owning peer's outstanding
/// counter has gone down by at least one, clipped at zero.
pub proof fn lemma_timeout_recovery(
    ps: Seq<PeerInfo>,
    pend: Seq<GetDataRequestInfo>,
    now: u64,
    j: int,
)
    requires
        forall|a: int, b: int|
            0 <= a < b < ps.len() ==> (#[trigger] ps[a]).addr != (#[trigger] ps[b]).addr,
        0 <= j < pend.len(),
        is_expired(pend[j], now),
    ensures
        !live_pending(pend, now).contains(pend[j]),
        has_peer(ps, pend[j].addr) ==> ({
            let k = peer_idx(ps, pend[j].addr);
            peers_after_expiry(ps, pend, now)[k].num_of_outstanding_get_data_requests
                <= spec_sat_sub(ps[k].num_of_outstanding_get_data_requests as int, 1)
        }),
    decreases pend.len(),
{
    let pred = |e: GetDataRequestInfo| !is_expired(e, now);
    if live_pending(pend, now).contains(pend[j]) {
        let i = choose|i: int|
            0 <= i < live_pending(pend, now).len() && live_pending(pend, now)[i] == pend[j];
        pend.lemma_filter_pred(pred, i);
        assert(false);
    }
    if has_peer(ps, pend[j].addr) {
        let k = peer_idx(ps, pend[j].addr);
        assert(0 <= k < ps.len() && ps[k].addr == pend[j].addr);
        let ps1 = peers_after_expiry(ps, pend.drop_last(), now);
        lemma_peers_after_expiry_shape(ps, pend.drop_last(), now);
        lemma_peers_after_expiry_shape(ps, pend, now);
        if j == pend.len() - 1 {
            assert(has_peer(ps1, pend[j].addr)) by {
                assert(ps1[k].addr == pend[j].addr);
            }
            let k1 = peer_idx(ps1, pend[j].addr);
            if k1 != k {
                assert(ps1[k1].addr == ps[k1].addr);
                assert(ps[k1].addr == ps[k].addr);
                assert(false);
            }
            assert(peers_after_expiry(ps, pend, now)[k].num_of_outstanding_get_data_requests
                == spec_sat_sub(ps1[k].num_of_outstanding_get_data_requests as int, 1));
        } else {
            lemma_timeout_recovery(ps, pend.drop_last(), now, j);
            let e = pend.last();
            if is_expired(e, now) && has_peer(ps1, e.addr) {
                let k2 = peer_idx(ps1, e.addr);
                if k2 == k {
                    assert(peers_after_expiry(
                        ps,
                        pend,
                        now,
                    )[k].num_of_outstanding_get_data_requests <= spec_sat_sub(
                        ps1[k].num_of_outstanding_get_data_requests as int,
                        1,
                    ));
                } else {
                    assert(peers_after_expiry(ps, pend, now)[k] == ps1[k]);
                }
            } else {
                assert(peers_after_expiry(ps, pend, now) == ps1);
            }
        }
    }
}

/// How many of the given fetch entries are addressed to one peer.
pub open spec fn addr_count(pend: Seq<GetDataRequestInfo>, addr: u64) -> int {
    pend.filter(|e: GetDataRequestInfo| e.addr == addr).len() as int
}

/// How many entries of a flag sequence are set.
pub open spec fn num_true(s: Seq<bool>) -> int
    decreases s.len(),
{
    if s.len() == 0 {
        0
    } else {
        num_true(s.drop_last()) + if s.last() {
            1int
        } else {
            0int
        }
    }
}

/// Setting a clear flag raises the count by one.
proof fn lemma_num_true_update(s: Seq<bool>, k: int)
    requires
        0 <= k < s.len(),
        !s[k],
    ensures
        num_true(s.update(k, true)) == num_true(s) + 1,
    decreases s.len(),
{
    let s2 = s.update(k, true);
    if k == s.len() - 1 {
        assert(s2.drop_last() =~= s.drop_last());
    } else {
        assert(s2.drop_last() =~= s.drop_last().update(k, true));
        lemma_num_true_update(s.drop_last(), k);
    }
}

/// The count of set flags never exceeds the length, and a full count means
/// every flag is set.
proof fn lemma_num_true_full(s: Seq<bool>)
    ensures
        num_true(s) <= s.len(),
        num_true(s) == s.len() ==> forall|j: int| 0 <= j < s.len() ==> s[j],
    decreases s.len(),
{
    if s.len() > 0 {
        lemma_num_true_full(s.drop_last());
        if num_true(s) == s.len() {
            assert forall|j: int| 0 <= j < s.len() implies s[j] by {
                if j < s.len() - 1 {
                    assert(s.drop_last()[j] == s[j]);
                }
            }
        }
    }
}

/// A sequence with no set flag has a zero count.
proof fn lemma_num_true_zero(s: Seq<bool>)
    requires
        forall|j: int| 0 <= j < s.len() ==> !(#[trigger] s[j]),
    ensures
        num_true(s) == 0,
    decreases s.len(),
{
    if s.len() > 0 {
        assert forall|j: int| 0 <= j < s.drop_last().len() implies !(
        #[trigger] s.drop_last()[j]) by {
            assert(s[j] == s.drop_last()[j]);
        }
        lemma_num_true_zero(s.drop_last());
    }
}

/// Filtering keeps a sequence whose every element satisfies the predicate.
proof fn lemma_filter_all<T>(s: Seq<T>, pred: spec_fn(T) -> bool)
    requires
        forall|i: int| 0 <= i < s.len() ==> pred(#[trigger] s[i]),
    ensures
        s.filter(pred) == s,
    decreases s.len(),
{
    reveal(Seq::filter);
    if s.len() > 0 {
        assert forall|i: int| 0 <= i < s.drop_last().len() implies pred(
            #[trigger] s.drop_last()[i],
        ) by {
            assert(s.drop_last()[i] == s[i]);
        }
        lemma_filter_all(s.drop_last(), pred);
        assert(s.filter(pred) =~= s);
    }
}

/// Filtering empties a sequence whose no element satisfies the predicate.
proof fn lemma_filter_none<T>(s: Seq<T>, pred: spec_fn(T) -> bool)
    requires
        forall|i: int| 0 <= i < s.len() ==> !pred(#[trigger] s[i]),
    ensures
        s.filter(pred) == Seq::<T>::empty(),
    decreases s.len(),
{
    reveal(Seq::filter);
    if s.len() > 0 {
        assert forall|i: int| 0 <= i < s.drop_last().len() implies !pred(
            #[trigger] s.drop_last()[i],
        ) by {
            assert(s.drop_last()[i] == s[i]);
        }
        lemma_filter_none(s.drop_last(), pred);
    } else {
        assert(s.filter(pred) =~= Seq::<T>::empty());
    }
}

/// A sequence of `n` distinct positions below `n` covers every position
/// below `n`.
proof fn lemma_distinct_indices_cover(sel: Seq<usize>, n: int, w: int)
    requires
        sel.len() == n,
        forall|i: int| 0 <= i < sel.len() ==> (#[trigger] sel[i]) < n,
        forall|i: int, j: int| 0 <= i < j < sel.len() ==> sel[i] != sel[j],
        0 <= w < n,
    ensures
        exists|i: int| 0 <= i < sel.len() && (#[trigger] sel[i]) as int == w,
{
    broadcast use vstd::seq_lib::group_seq_properties, vstd::set::group_set_axioms;

    let sv = sel.map_values(|x: usize| x as int);
    assert(sv.len() == n);
    assert forall|a: int, b: int| 0 <= a < b < sv.len() implies sv[a] != sv[b] by {
        assert(sel[a] != sel[b]);
    }
    sv.unique_seq_to_set();
    let range = vstd::set_lib::set_int_range(0, n);
    vstd::set_lib::lemma_int_range(0, n);
    assert(sv.to_set().subset_of(range)) by {
        assert forall|x: int| sv.to_set().contains(x) implies range.contains(x) by {
            let i = choose|i: int| 0 <= i < sv.len() && sv[i] == x;
            assert(sel[i] < n);
        }
    }
    if !sv.to_set().contains(w) {
        sv.to_set().lemma_subset_not_in_lt(range, w);
        assert(false);
    }
    let i = choose|i: int| 0 <= i < sv.len() && sv[i] == w;
    assert(sel[i] as int == w);
}

/// What one dispatch pass does to the fetch state, given the state `mid` it
/// starts from: fetches older than the timeout expire (their items return to
/// the frontier and their owners' counters go down), the surviving fetches
/// stay as a prefix, every newly recorded fetch is a freshly stamped fetch
/// of a frontier item not already being fetched, addressed to a tracked
/// peer; the frontier afterwards holds exactly the known items not being
/// fetched; each peer's counter grows by exactly its new fetches, never
/// beyond the per-peer cap; peers are served least-loaded first; and items
/// stay in the frontier only when every peer is saturated.
pub open spec fn dispatch_state_post(mid: SyncModel, post: SyncModel, now: u64) -> bool {
    let mid_pend = live_pending(mid.pending, now);
    let mid_peers = peers_after_expiry(mid.peers, mid.pending, now);
    let mid_fr = frontier_after_expiry(mid.frontier, mid.pending, now);
    let base = mid_pend.len() as int;
    &&& post.pending.len() >= base
    &&& post.pending.take(base) == mid_pend
    &&& forall|i: int|
        base <= i < post.pending.len() ==> {
            let e = #[trigger] post.pending[i];
            &&& e.sent_at == now
            &&& e.on_timeout == OnTimeout::Ignore
            &&& has_peer(mid_peers, e.addr)
            &&& mid_fr.contains(e.inventory)
            &&& !has_pending(mid_pend, e.inventory)
        }
    &&& forall|x: u64|
        #[trigger] post.frontier.contains(x) <==> (mid_fr.contains(x) && !has_pending(
            post.pending,
            x,
        ))
    &&& post.peers.len() == mid_peers.len()
    &&& forall|j: int|
        0 <= j < mid_peers.len() ==> {
            let p = #[trigger] mid_peers[j];
            let q = post.peers[j];
            &&& q.addr == p.addr
            &&& q.height == p.height
            &&& q.tip == p.tip
            &&& q.last_asked == p.last_asked
            &&& q.sent_at == p.sent_at
            &&& q.on_timeout == p.on_timeout
            &&& q.num_of_outstanding_get_data_requests as int
                == p.num_of_outstanding_get_data_requests as int + addr_count(
                post.pending.skip(base),
                p.addr,
            )
            &&& q.num_of_outstanding_get_data_requests <= INV_PER_GET_DATA_REQUEST
            &&& (p.num_of_outstanding_get_data_requests >= INV_PER_GET_DATA_REQUEST
                ==> q.num_of_outstanding_get_data_requests
                == p.num_of_outstanding_get_data_requests)
        }
    &&& (post.frontier.len() > 0 ==> forall|j: int|
        0 <= j < post.peers.len() ==> (
        #[trigger] post.peers[j]).num_of_outstanding_get_data_requests
            >= INV_PER_GET_DATA_REQUEST)
    &&& serves_least_loaded_first(mid_peers, post.peers)
}

/// What one dispatch pass queues, from position `qbase` on: well-formed
/// `getdata` commands to tracked peers, each covering only fetches on
/// record, with every recorded fetch from `base` on carried by one of them.
pub open spec fn dispatch_queue_post(
    mid_peers: Seq<PeerInfo>,
    base: int,
    pend: Seq<GetDataRequestInfo>,
    queue: Seq<Command>,
    qbase: int,
) -> bool {
    &&& queue.len() >= qbase
    &&& forall|i: int|
        qbase <= i < queue.len() ==> {
            let c = #[trigger] queue[i];
            &&& has_peer(mid_peers, c.address)
            &&& getdata_covers(c, pend, base)
        }
    &&& pending_commanded(pend, base, queue, qbase)
}

/// The state a newly tracked peer starts in: seeded at genesis, with the
/// bootstrap locator request recorded under a drop-on-timeout policy and no
/// outstanding fetches.
pub open spec fn is_bootstrap_peer(p: PeerInfo, a: u64, genesis_id: u64, now: u64) -> bool {
    &&& p.addr == a
    &&& p.height == 0
    &&& p.tip == genesis_id
    &&& (p.last_asked matches Some(l) && l.hashes@ == seq![genesis_id] && l.stop is None)
    &&& p.sent_at == Some(now)
    &&& p.on_timeout == OnTimeout::Disconnect
    &&& p.num_of_outstanding_get_data_requests == 0
}

/// Whether a fetch entry survives the removal of the first `w` listed
/// addresses that are no longer connected.
pub open spec fn survives_removal(
    e: GetDataRequestInfo,
    current: Seq<u64>,
    connected: Seq<u64>,
    w: int,
) -> bool {
    forall|j: int| 0 <= j < w ==> !(current[j] == e.addr && !connected.contains(#[trigger] current[j]))
}

/// Two filters in a row equal one filter by the conjunction.
proof fn lemma_filter_compose<T>(
    s: Seq<T>,
    p: spec_fn(T) -> bool,
    q: spec_fn(T) -> bool,
    pq: spec_fn(T) -> bool,
)
    requires
        forall|x: T| #[trigger] pq(x) == (p(x) && q(x)),
    ensures
        s.filter(p).filter(q) == s.filter(pq),
    decreases s.len(),
{
    reveal(Seq::filter);
    if s.len() == 0 {
        assert(s.filter(p).filter(q) =~= s.filter(pq));
    } else {
        lemma_filter_compose(s.drop_last(), p, q, pq);
        let fp = s.drop_last().filter(p);
        if p(s.last()) && q(s.last()) {
            assert(fp.push(s.last()).drop_last() =~= fp);
            assert(s.filter(p).filter(q) =~= s.filter(pq));
        } else if p(s.last()) {
            assert(fp.push(s.last()).drop_last() =~= fp);
            assert(s.filter(p).filter(q) =~= s.filter(pq));
        } else {
            assert(s.filter(p).filter(q) =~= s.filter(pq));
        }
    }
}

/// Predicates that agree on a sequence's elements filter it identically.
proof fn lemma_filter_ext<T>(s: Seq<T>, p: spec_fn(T) -> bool, q: spec_fn(T) -> bool)
    requires
        forall|i: int| 0 <= i < s.len() ==> p(#[trigger] s[i]) == q(s[i]),
    ensures
        s.filter(p) == s.filter(q),
    decreases s.len(),
{
    reveal(Seq::filter);
    if s.len() > 0 {
        assert forall|i: int| 0 <= i < s.drop_last().len() implies p(
            #[trigger] s.drop_last()[i],
        ) == q(s.drop_last()[i]) by {
            assert(s.drop_last()[i] == s[i]);
        }
        lemma_filter_ext(s.drop_last(), p, q);
        assert(p(s.last()) == q(s.last())) by {
            assert(s[s.len() - 1] == s.last());
        }
    }
}

/// Whether a command is a body-fetch request carrying the given block id.
pub open spec fn cmd_has_item(c: Command, inv: u64) -> bool {
    match c.message {
        NetworkMessage::GetData(items) => items@.contains(InventoryItem::Block(inv)),
        _ => false,
    }
}

/// A well-formed dispatch command against the fetches on record: a nonempty
/// `getdata` whose items are distinct and each of which names a fetch, from
/// position `base` on, addressed to the same peer as the command.
pub open spec fn getdata_covers(c: Command, pend: Seq<GetDataRequestInfo>, base: int) -> bool {
    match c.message {
        NetworkMessage::GetData(items) => {
            &&& items@.len() > 0
            &&& forall|w1: int, w2: int|
                0 <= w1 < w2 < items@.len() ==> items@[w1] != items@[w2]
            &&& forall|w: int|
                0 <= w < items@.len() ==> exists|i: int|
                    base <= i < pend.len() && (#[trigger] pend[i]).addr == c.address
                        && #[trigger] items@[w] == InventoryItem::Block(pend[i].inventory)
        },
        _ => false,
    }
}

/// Every fetch on record from position `base` on is carried by some command
/// from position `qbase` on, addressed to the fetch's peer.
pub open spec fn pending_commanded(
    pend: Seq<GetDataRequestInfo>,
    base: int,
    queue: Seq<Command>,
    qbase: int,
) -> bool {
    forall|i: int|
        base <= i < pend.len() ==> exists|c: int|
            qbase <= c < queue.len() && queue[c].address == (#[trigger] pend[i]).addr
                && cmd_has_item(queue[c], pend[i].inventory)
}

/// Which of two peers the dispatch pass serves first: the one with fewer
/// outstanding fetches, ties going to the one tracked earlier.
pub open spec fn served_before(ps: Seq<PeerInfo>, i: int, j: int) -> bool {
    ||| ps[i].num_of_outstanding_get_data_requests < ps[j].num_of_outstanding_get_data_requests
    ||| (ps[i].num_of_outstanding_get_data_requests == ps[j].num_of_outstanding_get_data_requests
        && i < j)
}

/// The dispatch pass serves the least-loaded peer first: whenever some peer
/// received an item, every peer served before it was filled to the full
/// per-peer cap.
pub open spec fn serves_least_loaded_first(mid_peers: Seq<PeerInfo>, post: Seq<PeerInfo>) -> bool {
    forall|i: int, j: int|
        0 <= i < mid_peers.len() && 0 <= j < mid_peers.len() && #[trigger] served_before(
            mid_peers,
            i,
            j,
        ) && (#[trigger] post[j]).num_of_outstanding_get_data_requests
            > mid_peers[j].num_of_outstanding_get_data_requests
            ==> post[i].num_of_outstanding_get_data_requests == INV_PER_GET_DATA_REQUEST
}

/// The fetch bookkeeping after a block was applied: the outstanding fetch
/// for it, if any, is closed, and if that fetch was addressed to the peer
/// that delivered the block, that peer's outstanding counter goes down by
/// one, clipped at zero.
pub open spec fn block_accepted_post(pre: SyncModel, post: SyncModel, addr: u64, inv: u64) -> bool {
    if has_pending(pre.pending, inv) {
        let pi = pending_idx(pre.pending, inv);
        &&& post.pending == pre.pending.remove(pi)
        &&& if pre.pending[pi].addr == addr {
            let k = peer_idx(pre.peers, addr);
            let p = pre.peers[k];
            post.peers == pre.peers.update(
                k,
                peer_with_outstanding(
                    p,
                    spec_sat_sub(p.num_of_outstanding_get_data_requests as int, 1) as u32,
                ),
            )
        } else {
            post.peers == pre.peers
        }
    } else {
        &&& post.pending == pre.pending
        &&& post.peers == pre.peers
    }
}

/// What handling a within-limits inventory message from a tracked peer does
/// to the coordinator: the peer's reported tip advances to the last block
/// item, and if some advertised block is unknown to the store, a locator
/// request stopping at the last such block is recorded on the peer and
/// queued, with an ignore-on-timeout policy.
pub open spec fn inv_ok_post(
    pre: SyncModel,
    post: SyncModel,
    addr: u64,
    items: Seq<InventoryItem>,
    now: u64,
) -> bool {
    let k = peer_idx(pre.peers, addr);
    let p = pre.peers[k];
    let p1 = match last_block_item(items) {
        Some(t) => peer_with_tip(p, t),
        None => p,
    };
    &&& post.store == pre.store
    &&& post.pending == pre.pending
    &&& post.frontier == pre.frontier
    &&& post.peers.len() == pre.peers.len()
    &&& forall|j: int| 0 <= j < pre.peers.len() && j != k ==> post.peers[j] == pre.peers[j]
    &&& match last_unknown_block(items, pre.store.headers) {
        Some(stop) => {
            &&& peer_asked_for_sample(
                pre.store,
                p1,
                post.peers[k],
                Some(stop),
                OnTimeout::Ignore,
                now,
            )
            &&& post.queue.len() == pre.queue.len() + 1
            &&& post.queue.take(pre.queue.len() as int) == pre.queue
            &&& ({
                let c = post.queue.last();
                &&& c.address == addr
                &&& (c.message matches NetworkMessage::GetHeaders(g) && is_locator_sample(
                    pre.store,
                    g.locator_hashes@,
                ) && g.stop_hash == Some(stop))
            })
        },
        None => {
            &&& post.peers[k] == p1
            &&& post.queue == pre.queue
        },
    }
}

/// One dispatched batch keeps the command/fetch correspondence: the command
/// queued for the batch covers exactly its items, older commands still cover
/// theirs, and every recorded fetch is carried by a queued command.
proof fn lemma_batch_commands(
    qbase: int,
    base: int,
    queue_pre: Seq<Command>,
    queue_new: Seq<Command>,
    pend_before: Seq<GetDataRequestInfo>,
    pend_new: Seq<GetDataRequestInfo>,
    peer_addr: u64,
    items: Seq<u64>,
    invs: Seq<InventoryItem>,
)
    requires
        0 <= qbase <= queue_pre.len(),
        queue_new.len() == queue_pre.len() + 1,
        forall|c: int| 0 <= c < queue_pre.len() ==> #[trigger] queue_new[c] == queue_pre[c],
        queue_new[queue_pre.len() as int].address == peer_addr,
        (queue_new[queue_pre.len() as int].message matches NetworkMessage::GetData(its) && its@
            == invs),
        invs.len() == items.len(),
        items.len() > 0,
        forall|w: int| 0 <= w < invs.len() ==> #[trigger] invs[w] == InventoryItem::Block(items[w]),
        forall|w1: int, w2: int| 0 <= w1 < w2 < items.len() ==> items[w1] != items[w2],
        0 <= base <= pend_before.len(),
        pend_new.len() == pend_before.len() + items.len(),
        forall|i: int| 0 <= i < pend_before.len() ==> #[trigger] pend_new[i] == pend_before[i],
        forall|w: int|
            0 <= w < items.len() ==> (#[trigger] pend_new[pend_before.len() + w]).addr == peer_addr
                && pend_new[pend_before.len() + w].inventory == items[w],
        forall|c: int|
            qbase <= c < queue_pre.len() ==> getdata_covers(
                #[trigger] queue_pre[c],
                pend_before,
                base,
            ),
        pending_commanded(pend_before, base, queue_pre, qbase),
    ensures
        forall|c: int|
            qbase <= c < queue_new.len() ==> getdata_covers(#[trigger] queue_new[c], pend_new, base),
        pending_commanded(pend_new, base, queue_new, qbase),
{
    let qlen0 = queue_pre.len() as int;
    let c_new = queue_new[qlen0];
    assert(getdata_covers(c_new, pend_new, base)) by {
        assert forall|w1: int, w2: int| 0 <= w1 < w2 < invs.len() implies invs[w1] != invs[w2] by {
            assert(invs[w1] == InventoryItem::Block(items[w1]));
            assert(invs[w2] == InventoryItem::Block(items[w2]));
        }
        assert forall|w: int| 0 <= w < invs.len() implies exists|i: int|
            base <= i < pend_new.len() && (#[trigger] pend_new[i]).addr == c_new.address
                && #[trigger] invs[w] == InventoryItem::Block(pend_new[i].inventory) by {
            let iw = pend_before.len() as int + w;
            assert(pend_new[iw].addr == peer_addr);
            assert(pend_new[iw].inventory == items[w]);
            assert(invs[w] == InventoryItem::Block(pend_new[iw].inventory));
        }
    }
    assert forall|c: int| qbase <= c < queue_new.len() implies getdata_covers(
        #[trigger] queue_new[c],
        pend_new,
        base,
    ) by {
        let cc = queue_new[c];
        if c < qlen0 {
            assert(cc == queue_pre[c]);
            assert(getdata_covers(cc, pend_before, base));
            match cc.message {
                NetworkMessage::GetData(items2) => {
                    assert forall|w: int| 0 <= w < items2@.len() implies exists|i: int|
                        base <= i < pend_new.len() && (#[trigger] pend_new[i]).addr == cc.address
                            && #[trigger] items2@[w] == InventoryItem::Block(
                            pend_new[i].inventory,
                        ) by {
                        let i0 = choose|i0: int|
                            base <= i0 < pend_before.len() && (#[trigger] pend_before[i0]).addr
                                == cc.address && items2@[w] == InventoryItem::Block(
                                pend_before[i0].inventory,
                            );
                        assert(pend_new[i0] == pend_before[i0]);
                    }
                },
                _ => {
                    assert(false);
                },
            }
        }
    }
    assert forall|i: int| base <= i < pend_new.len() implies exists|c: int|
        qbase <= c < queue_new.len() && queue_new[c].address == (#[trigger] pend_new[i]).addr
            && cmd_has_item(queue_new[c], pend_new[i].inventory) by {
        if i < pend_before.len() {
            assert(pend_new[i] == pend_before[i]);
            let c0 = choose|c0: int|
                qbase <= c0 < queue_pre.len() && (#[trigger] queue_pre[c0]).address
                    == pend_before[i].addr && cmd_has_item(queue_pre[c0], pend_before[i].inventory);
            assert(queue_new[c0] == queue_pre[c0]);
        } else {
            let w = i - pend_before.len();
            assert(pend_new[pend_before.len() + w].addr == peer_addr);
            assert(pend_new[pend_before.len() + w].inventory == items[w]);
            assert(cmd_has_item(c_new, items[w])) by {
                assert(invs[w] == InventoryItem::Block(items[w]));
                assert(invs.contains(InventoryItem::Block(items[w])));
            }
        }
    }
}

/// Serving one more peer — the first unserved peer with the fewest
/// outstanding fetches — keeps the least-loaded-first discipline, and keeps
/// the served set downward closed in serving order.
proof fn lemma_order_step(
    mid_peers: Seq<PeerInfo>,
    peers_before: Seq<PeerInfo>,
    peers_new: Seq<PeerInfo>,
    proc_before: Seq<bool>,
    proc_new: Seq<bool>,
    best: int,
)
    requires
        peers_before.len() == mid_peers.len(),
        peers_new.len() == mid_peers.len(),
        proc_before.len() == mid_peers.len(),
        proc_new == proc_before.update(best, true),
        0 <= best < mid_peers.len(),
        !proc_before[best],
        forall|j: int|
            0 <= j < mid_peers.len() && j != best ==> #[trigger] peers_new[j] == peers_before[j],
        forall|j: int|
            0 <= j < mid_peers.len() && !proc_before[j] ==> (
            #[trigger] peers_before[j]).num_of_outstanding_get_data_requests
                == mid_peers[j].num_of_outstanding_get_data_requests,
        forall|j: int|
            0 <= j < mid_peers.len() && proc_before[j] ==> (
            #[trigger] peers_before[j]).num_of_outstanding_get_data_requests
                == INV_PER_GET_DATA_REQUEST,
        serves_least_loaded_first(mid_peers, peers_before),
        forall|j: int, q: int|
            0 <= j < mid_peers.len() && 0 <= q < mid_peers.len() && proc_before[j]
                && !proc_before[q] ==> served_before(mid_peers, j, q),
        forall|jj: int|
            0 <= jj < mid_peers.len() && !proc_before[jj] ==> (
            #[trigger] peers_before[jj]).num_of_outstanding_get_data_requests
                >= peers_before[best].num_of_outstanding_get_data_requests,
        forall|jj: int|
            0 <= jj < mid_peers.len() && jj < best && !proc_before[jj] ==> (
            #[trigger] peers_before[jj]).num_of_outstanding_get_data_requests
                > peers_before[best].num_of_outstanding_get_data_requests,
    ensures
        serves_least_loaded_first(mid_peers, peers_new),
        forall|j: int, q: int|
            0 <= j < mid_peers.len() && 0 <= q < mid_peers.len() && #[trigger] proc_new[j] && !(
            #[trigger] proc_new[q]) ==> served_before(mid_peers, j, q),
{
    let np = mid_peers.len() as int;
    assert forall|i2: int, j2: int|
        0 <= i2 < np && 0 <= j2 < np && #[trigger] served_before(mid_peers, i2, j2) && (
        #[trigger] peers_new[j2]).num_of_outstanding_get_data_requests
            > mid_peers[j2].num_of_outstanding_get_data_requests
        implies peers_new[i2].num_of_outstanding_get_data_requests
        == INV_PER_GET_DATA_REQUEST by {
        if i2 == best {
            if j2 == best {
                assert(false);
            } else {
                assert(peers_new[j2] == peers_before[j2]);
                if !proc_before[j2] {
                    assert(false);
                }
                assert(served_before(mid_peers, j2, best));
                assert(false);
            }
        } else if j2 == best {
            if !proc_before[i2] {
                assert(false);
            }
            assert(peers_new[i2] == peers_before[i2]);
        } else {
            assert(peers_new[j2] == peers_before[j2]);
            assert(peers_new[i2] == peers_before[i2]);
        }
    }
    assert forall|j2: int, q: int|
        0 <= j2 < np && 0 <= q < np && #[trigger] proc_new[j2] && !(#[trigger] proc_new[q])
        implies served_before(mid_peers, j2, q) by {
        assert(!proc_before[q] && q != best);
        if j2 == best {
            assert(peers_before[q].num_of_outstanding_get_data_requests
                >= peers_before[best].num_of_outstanding_get_data_requests);
            if q < best {
                assert(peers_before[q].num_of_outstanding_get_data_requests
                    > peers_before[best].num_of_outstanding_get_data_requests);
            }
        } else {
            assert(proc_before[j2]);
        }
    }
}

/// One dispatched batch keeps the fetch records well formed: the pre-pass
/// fetches survive as a prefix, every entry from `base` on is a fresh,
/// properly stamped fetch of a frontier item, targets stay distinct, and
/// membership splits into the old entries and the batch.
proof fn lemma_batch_pending(
    mid: SyncModel,
    base: int,
    now: u64,
    pend_before: Seq<GetDataRequestInfo>,
    pend_new: Seq<GetDataRequestInfo>,
    peer_addr: u64,
    items: Seq<u64>,
)
    requires
        0 <= base <= pend_before.len(),
        pend_before.take(base) == mid.pending,
        pend_new.len() == pend_before.len() + items.len(),
        forall|i: int| 0 <= i < pend_before.len() ==> #[trigger] pend_new[i] == pend_before[i],
        forall|q: int|
            0 <= q < items.len() ==> #[trigger] pend_new[pend_before.len() + q]
                == (GetDataRequestInfo {
                addr: peer_addr,
                inventory: items[q],
                sent_at: now,
                on_timeout: OnTimeout::Ignore,
            }),
        has_peer(mid.peers, peer_addr),
        forall|i: int|
            base <= i < pend_before.len() ==> {
                let e = #[trigger] pend_before[i];
                &&& e.sent_at == now
                &&& e.on_timeout == OnTimeout::Ignore
                &&& has_peer(mid.peers, e.addr)
                &&& mid.frontier.contains(e.inventory)
                &&& !has_pending(mid.pending, e.inventory)
            },
        forall|a: int, b: int|
            0 <= a < b < pend_before.len() ==> (#[trigger] pend_before[a]).inventory != (
            #[trigger] pend_before[b]).inventory,
        forall|q: int|
            0 <= q < items.len() ==> mid.frontier.contains(#[trigger] items[q]) && !has_pending(
                mid.pending,
                items[q],
            ) && !has_pending(pend_before, items[q]),
        forall|q1: int, q2: int| 0 <= q1 < q2 < items.len() ==> items[q1] != items[q2],
    ensures
        pend_new.take(base) == mid.pending,
        forall|i: int|
            base <= i < pend_new.len() ==> {
                let e = #[trigger] pend_new[i];
                &&& e.sent_at == now
                &&& e.on_timeout == OnTimeout::Ignore
                &&& has_peer(mid.peers, e.addr)
                &&& mid.frontier.contains(e.inventory)
                &&& !has_pending(mid.pending, e.inventory)
            },
        forall|a: int, b: int|
            0 <= a < b < pend_new.len() ==> (#[trigger] pend_new[a]).inventory != (
            #[trigger] pend_new[b]).inventory,
        forall|x: u64|
            #[trigger] has_pending(pend_new, x) <==> (has_pending(pend_before, x)
                || items.contains(x)),
{
    assert forall|i: int| 0 <= i < base implies #[trigger] pend_new.take(base)[i]
        == mid.pending[i] by {
        assert(pend_new.take(base)[i] == pend_new[i]);
        assert(pend_new[i] == pend_before[i]);
        assert(pend_before.take(base)[i] == pend_before[i]);
    }
    assert(pend_new.take(base) =~= mid.pending);
    assert forall|x: u64| has_pending(pend_new, x) implies (has_pending(pend_before, x)
        || items.contains(x)) by {
        let i = choose|i: int| 0 <= i < pend_new.len() && pend_new[i].inventory == x;
        if i < pend_before.len() {
            assert(pend_before[i].inventory == x);
        } else {
            assert(pend_new[pend_before.len() + (i - pend_before.len())].inventory == items[i
                - pend_before.len()]);
            assert(items[i - pend_before.len()] == x);
        }
    }
    assert forall|x: u64| has_pending(pend_before, x) implies has_pending(pend_new, x) by {
        let i = choose|i: int| 0 <= i < pend_before.len() && pend_before[i].inventory == x;
        assert(pend_new[i].inventory == x);
    }
    assert forall|x: u64| items.contains(x) implies has_pending(pend_new, x) by {
        let q = choose|q: int| 0 <= q < items.len() && items[q] == x;
        assert(pend_new[pend_before.len() + q].inventory == x);
    }
    assert forall|i: int| base <= i < pend_new.len() implies {
        let e = #[trigger] pend_new[i];
        &&& e.sent_at == now
        &&& e.on_timeout == OnTimeout::Ignore
        &&& has_peer(mid.peers, e.addr)
        &&& mid.frontier.contains(e.inventory)
        &&& !has_pending(mid.pending, e.inventory)
    } by {
        if i < pend_before.len() {
            assert(pend_new[i] == pend_before[i]);
        } else {
            let q = i - pend_before.len();
            assert(pend_new[pend_before.len() + q].inventory == items[q]);
            assert(mid.frontier.contains(items[q]));
            assert(!has_pending(mid.pending, items[q]));
        }
    }
    assert forall|a: int, b: int| 0 <= a < b < pend_new.len() implies (
    #[trigger] pend_new[a]).inventory != (#[trigger] pend_new[b]).inventory by {
        if b < pend_before.len() {
            assert(pend_new[a] == pend_before[a]);
            assert(pend_new[b] == pend_before[b]);
        } else if a < pend_before.len() {
            let qb = b - pend_before.len();
            assert(pend_new[pend_before.len() + qb].inventory == items[qb]);
            assert(pend_new[a] == pend_before[a]);
            if pend_before[a].inventory == items[qb] {
                assert(has_pending(pend_before, items[qb]));
                assert(false);
            }
        } else {
            let qa = a - pend_before.len();
            let qb = b - pend_before.len();
            assert(pend_new[pend_before.len() + qa].inventory == items[qa]);
            assert(pend_new[pend_before.len() + qb].inventory == items[qb]);
        }
    }
}

/// One dispatched batch raises the served peer's outstanding counter by the
/// batch size and leaves every other counter unchanged, keeping each
/// counter's tie to the fetches on record and the per-peer cap.
proof fn lemma_batch_counters(
    mid_peers: Seq<PeerInfo>,
    peers_before: Seq<PeerInfo>,
    peers_new: Seq<PeerInfo>,
    suffix_before: Seq<GetDataRequestInfo>,
    suffix_new: Seq<GetDataRequestInfo>,
    newe: Seq<GetDataRequestInfo>,
    peer_addr: u64,
    best: int,
)
    requires
        peers_before.len() == mid_peers.len(),
        peers_new.len() == mid_peers.len(),
        0 <= best < mid_peers.len(),
        mid_peers[best].addr == peer_addr,
        forall|i: int, j: int|
            0 <= i < j < mid_peers.len() ==> (#[trigger] mid_peers[i]).addr != (
            #[trigger] mid_peers[j]).addr,
        suffix_new == suffix_before + newe,
        newe.len() > 0,
        forall|q: int| 0 <= q < newe.len() ==> (#[trigger] newe[q]).addr == peer_addr,
        forall|j: int|
            0 <= j < mid_peers.len() && j != best ==> #[trigger] peers_new[j] == peers_before[j],
        peers_new[best].num_of_outstanding_get_data_requests as int
            == peers_before[best].num_of_outstanding_get_data_requests as int + newe.len(),
        peers_new[best].addr == peers_before[best].addr,
        peers_new[best].height == peers_before[best].height,
        peers_new[best].tip == peers_before[best].tip,
        peers_new[best].last_asked == peers_before[best].last_asked,
        peers_new[best].sent_at == peers_before[best].sent_at,
        peers_new[best].on_timeout == peers_before[best].on_timeout,
        peers_new[best].num_of_outstanding_get_data_requests <= INV_PER_GET_DATA_REQUEST,
        forall|j: int|
            0 <= j < mid_peers.len() ==> {
                let p = #[trigger] mid_peers[j];
                let q = peers_before[j];
                &&& q.addr == p.addr
                &&& q.height == p.height
                &&& q.tip == p.tip
                &&& q.last_asked == p.last_asked
                &&& q.sent_at == p.sent_at
                &&& q.on_timeout == p.on_timeout
                &&& q.num_of_outstanding_get_data_requests as int
                    == p.num_of_outstanding_get_data_requests as int + addr_count(
                    suffix_before,
                    p.addr,
                )
                &&& (p.num_of_outstanding_get_data_requests < INV_PER_GET_DATA_REQUEST
                    ==> q.num_of_outstanding_get_data_requests <= INV_PER_GET_DATA_REQUEST)
                &&& (p.num_of_outstanding_get_data_requests >= INV_PER_GET_DATA_REQUEST
                    ==> q.num_of_outstanding_get_data_requests
                    == p.num_of_outstanding_get_data_requests)
            },
        mid_peers[best].num_of_outstanding_get_data_requests < INV_PER_GET_DATA_REQUEST,
    ensures
        forall|j: int|
            0 <= j < mid_peers.len() ==> {
                let p = #[trigger] mid_peers[j];
                let q = peers_new[j];
                &&& q.addr == p.addr
                &&& q.height == p.height
                &&& q.tip == p.tip
                &&& q.last_asked == p.last_asked
                &&& q.sent_at == p.sent_at
                &&& q.on_timeout == p.on_timeout
                &&& q.num_of_outstanding_get_data_requests as int
                    == p.num_of_outstanding_get_data_requests as int + addr_count(
                    suffix_new,
                    p.addr,
                )
                &&& (p.num_of_outstanding_get_data_requests < INV_PER_GET_DATA_REQUEST
                    ==> q.num_of_outstanding_get_data_requests <= INV_PER_GET_DATA_REQUEST)
                &&& (p.num_of_outstanding_get_data_requests >= INV_PER_GET_DATA_REQUEST
                    ==> q.num_of_outstanding_get_data_requests
                    == p.num_of_outstanding_get_data_requests)
            },
{
    assert forall|a: u64| true implies #[trigger] addr_count(suffix_new, a) == addr_count(
        suffix_before,
        a,
    ) + (if a == peer_addr {
        newe.len() as int
    } else {
        0
    }) by {
        let pred = |e: GetDataRequestInfo| e.addr == a;
        Seq::<GetDataRequestInfo>::filter_distributes_over_add(suffix_before, newe, pred);
        if a == peer_addr {
            lemma_filter_all(newe, pred);
        } else {
            lemma_filter_none(newe, pred);
        }
    }
    assert forall|j: int| 0 <= j < mid_peers.len() implies {
        let p = #[trigger] mid_peers[j];
        let q = peers_new[j];
        &&& q.addr == p.addr
        &&& q.num_of_outstanding_get_data_requests as int
            == p.num_of_outstanding_get_data_requests as int + addr_count(suffix_new, p.addr)
    } by {
        if j == best {
            assert(addr_count(suffix_new, peer_addr) == addr_count(suffix_before, peer_addr)
                + newe.len());
        } else {
            assert(peers_new[j] == peers_before[j]);
            assert(mid_peers[j].addr != mid_peers[best].addr);
            assert(addr_count(suffix_new, mid_peers[j].addr) == addr_count(
                suffix_before,
                mid_peers[j].addr,
            ));
        }
    }
}

/// A peer entry after a locator request built from the store's locator
/// sample was recorded on it: same identity, tip and counters, with some
/// valid locator sample, the given stop point, send time and timeout policy.
pub open spec fn peer_asked_for_sample(
    store: StoreModel,
    p: PeerInfo,
    p2: PeerInfo,
    stop: Option<u64>,
    ot: OnTimeout,
    now: u64,
) -> bool {
    &&& p2.addr == p.addr
    &&& p2.height == p.height
    &&& p2.tip == p.tip
    &&& (p2.last_asked matches Some(l) && is_locator_sample(store, l.hashes@) && l.stop == stop)
    &&& p2.sent_at == Some(now)
    &&& p2.on_timeout == ot
    &&& p2.num_of_outstanding_get_data_requests == p.num_of_outstanding_get_data_requests
}

/// A peer entry after a locator request was recorded on it: same identity
/// and counters, with the request's locators, send time and timeout policy.
pub open spec fn peer_asked(
    p: PeerInfo,
    p2: PeerInfo,
    hashes: Seq<u64>,
    stop: Option<u64>,
    ot: OnTimeout,
    now: u64,
) -> bool {
    &&& p2.addr == p.addr
    &&& p2.height == p.height
    &&& p2.tip == p.tip
    &&& (p2.last_asked matches Some(l) && l.hashes@ == hashes && l.stop == stop)
    &&& p2.sent_at == Some(now)
    &&& p2.on_timeout == ot
    &&& p2.num_of_outstanding_get_data_requests == p.num_of_outstanding_get_data_requests
}

/// Whether a command is a `getheaders` request to the given peer with the
/// given locators.
pub open spec fn is_getheaders_cmd(c: Command, addr: u64, hashes: Seq<u64>, stop: Option<u64>) -> bool {
    &&& c.address == addr
    &&& (c.message matches NetworkMessage::GetHeaders(g) && g.locator_hashes@ == hashes
        && g.stop_hash == stop)
}


/// Copy a byte string.
pub fn clone_bytes(v: &Vec<u8>) -> (r: Vec<u8>)
    ensures
        r@ == v@,
{
    let mut r: Vec<u8> = Vec::new();
    let mut i: usize = 0;
    while i < v.len()
        invariant
            0 <= i <= v@.len(),
            r@ == v@.take(i as int),
        decreases v@.len() - i,
    {
        proof {
            assert(v@.take(i as int + 1) =~= v@.take(i as int).push(v@[i as int]));
        }
        r.push(v[i]);
        i = i + 1;
    }
    proof {
        assert(v@.take(v@.len() as int) =~= v@);
    }
    r
}

/// Copy a block: same header, same payload bytes.
pub fn clone_block(b: &Block) -> (r: Block)
    ensures
        r.header == b.header,
        r.payload@ == b.payload@,
{
    Block { header: b.header, payload: clone_bytes(&b.payload) }
}

/// Copy a list of ids keeping the first occurrence of each.
pub fn dedup_ids(v: &Vec<u64>) -> (r: Vec<u64>)
    ensures
        r@.to_set() == v@.to_set(),
        forall|a: int, b: int| 0 <= a < b < r@.len() ==> r@[a] != r@[b],
{
    broadcast use vstd::set::group_set_axioms;

    let mut r: Vec<u64> = Vec::new();
    let mut i: usize = 0;
    proof {
        assert(v@.take(0) =~= Seq::<u64>::empty());
        assert(r@.to_set() =~= v@.take(0).to_set());
    }
    while i < v.len()
        invariant
            0 <= i <= v@.len(),
            r@.to_set() == v@.take(i as int).to_set(),
            forall|a: int, b: int| 0 <= a < b < r@.len() ==> r@[a] != r@[b],
        decreases v@.len() - i,
    {
        proof {
            assert(v@.take(i as int + 1) =~= v@.take(i as int).push(v@[i as int]));
            Seq::<u64>::lemma_push_to_set_commute(v@.take(i as int), v@[i as int]);
        }
        let x = v[i];
        let ghost r_old = r@;
        if !contains_id(&r, x) {
            r.push(x);
            proof {
                Seq::<u64>::lemma_push_to_set_commute(r_old, x);
                assert(r@ =~= r_old.push(x));
                assert forall|a: int, b: int| 0 <= a < b < r@.len() implies r@[a] != r@[b] by {
                    if b == r@.len() - 1 {
                        if r_old[a] == x {
                            assert(r_old.contains(x));
                            assert(false);
                        }
                    } else {
                        assert(r_old[a] != r_old[b]);
                    }
                }
            }
        } else {
            proof {
                assert(r@.to_set().contains(x));
                assert(r@.to_set().insert(x) =~= r@.to_set());
            }
        }
        i = i + 1;
    }
    proof {
        assert(v@.take(v@.len() as int) =~= v@);
    }
    r
}

/// The ids of the first list that do not stand in the second, first
/// occurrences only.
pub fn diff_ids(v: &Vec<u64>, minus: &Vec<u64>) -> (r: Vec<u64>)
    ensures
        r@.to_set() == v@.to_set().difference(minus@.to_set()),
        forall|a: int, b: int| 0 <= a < b < r@.len() ==> r@[a] != r@[b],
{
    broadcast use vstd::set::group_set_axioms;

    let mut r: Vec<u64> = Vec::new();
    let mut i: usize = 0;
    proof {
        assert(v@.take(0) =~= Seq::<u64>::empty());
        assert(r@.to_set() =~= v@.take(0).to_set().difference(minus@.to_set()));
    }
    while i < v.len()
        invariant
            0 <= i <= v@.len(),
            r@.to_set() == v@.take(i as int).to_set().difference(minus@.to_set()),
            forall|a: int, b: int| 0 <= a < b < r@.len() ==> r@[a] != r@[b],
        decreases v@.len() - i,
    {
        proof {
            assert(v@.take(i as int + 1) =~= v@.take(i as int).push(v@[i as int]));
            Seq::<u64>::lemma_push_to_set_commute(v@.take(i as int), v@[i as int]);
        }
        let x = v[i];
        let ghost r_old = r@;
        let keep = !contains_id(minus, x);
        let fresh = !contains_id(&r, x);
        if keep && fresh {
            r.push(x);
            proof {
                Seq::<u64>::lemma_push_to_set_commute(r_old, x);
                assert(r@ =~= r_old.push(x));
                assert(r@.to_set() =~= v@.take(i as int + 1).to_set().difference(
                    minus@.to_set(),
                ));
                assert forall|a: int, b: int| 0 <= a < b < r@.len() implies r@[a] != r@[b] by {
                    if b == r@.len() - 1 {
                        if r_old[a] == x {
                            assert(r_old.contains(x));
                            assert(false);
                        }
                    } else {
                        assert(r_old[a] != r_old[b]);
                    }
                }
            }
        } else {
            proof {
                if keep {
                    assert(r@.to_set().contains(x));
                }
                assert(r@.to_set() =~= v@.take(i as int + 1).to_set().difference(
                    minus@.to_set(),
                ));
            }
        }
        i = i + 1;
    }
    proof {
        assert(v@.take(v@.len() as int) =~= v@);
    }
    r
}

/// Copy a list of ids.
pub fn clone_hashes(v: &Vec<u64>) -> (r: Vec<u64>)
    ensures
        r@ == v@,
{
    let mut r: Vec<u64> = Vec::new();
    let mut i: usize = 0;
    while i < v.len()
        invariant
            0 <= i <= v@.len(),
            r@ == v@.take(i as int),
        decreases v@.len() - i,
    {
        proof {
            assert(v@.take(i as int + 1) =~= v@.take(i as int).push(v@[i as int]));
        }
        r.push(v[i]);
        i = i + 1;
    }
    proof {
        assert(v@.take(v@.len() as int) =~= v@);
    }
    r
}

/// Filtering outstanding fetches by address keeps their targets distinct.
proof fn lemma_filter_distinct_pending(pend: Seq<GetDataRequestInfo>, addr: u64)
    requires
        forall|i: int, j: int|
            0 <= i < j < pend.len() ==> (#[trigger] pend[i]).inventory != (
            #[trigger] pend[j]).inventory,
    ensures
        ({
            let f = pend.filter(|e: GetDataRequestInfo| e.addr != addr);
            forall|i: int, j: int|
                0 <= i < j < f.len() ==> (#[trigger] f[i]).inventory != (
                #[trigger] f[j]).inventory
        }),
{
    broadcast use vstd::seq_lib::group_seq_properties;

    reveal(Seq::filter);
    let pred = |e: GetDataRequestInfo| e.addr != addr;
    let f = pend.filter(pred);
    assert forall|i: int, j: int|
        0 <= i < j < f.len() implies (#[trigger] f[i]).inventory != (
    #[trigger] f[j]).inventory by {
        lemma_filter_is_subsequence(pend, pred, i, j);
    }
}

/// Two positions of a filtered sequence come from two distinct positions of
/// the original, in the same order.
proof fn lemma_filter_is_subsequence<T>(s: Seq<T>, pred: spec_fn(T) -> bool, i: int, j: int)
    requires
        0 <= i < j < s.filter(pred).len(),
    ensures
        exists|a: int, b: int|
            0 <= a < b < s.len() && s[a] == #[trigger] s.filter(pred)[i] && s[b]
                == #[trigger] s.filter(pred)[j],
    decreases s.len(),
{
    broadcast use vstd::seq_lib::group_seq_properties;

    reveal(Seq::filter);
    let f = s.filter(pred);
    if s.len() == 0 {
    } else {
        let last = s.last();
        let fd = s.drop_last().filter(pred);
        assert(s.drop_last().push(last) =~= s);
        if pred(last) {
            assert(f =~= fd.push(last));
            if j < fd.len() {
                lemma_filter_is_subsequence(s.drop_last(), pred, i, j);
                let (a, b) = choose|a: int, b: int|
                    0 <= a < b < s.drop_last().len() && s.drop_last()[a] == #[trigger] fd[i]
                        && s.drop_last()[b] == fd[j];
                assert(s[a] == f[i] && s[b] == f[j]);
            } else {
                // j is the appended last element
                lemma_filter_element_index(s.drop_last(), pred, i);
                let a = choose|a: int|
                    0 <= a < s.drop_last().len() && s.drop_last()[a] == #[trigger] fd[i];
                assert(s[a] == f[i]);
                assert(s[s.len() - 1] == f[j]);
            }
        } else {
            assert(f =~= fd);
            lemma_filter_is_subsequence(s.drop_last(), pred, i, j);
            let (a, b) = choose|a: int, b: int|
                0 <= a < b < s.drop_last().len() && s.drop_last()[a] == #[trigger] fd[i]
                    && s.drop_last()[b] == fd[j];
            assert(s[a] == f[i] && s[b] == f[j]);
        }
    }
}

/// Every element of a filtered sequence stands somewhere in the original.
proof fn lemma_filter_element_index<T>(s: Seq<T>, pred: spec_fn(T) -> bool, i: int)
    requires
        0 <= i < s.filter(pred).len(),
    ensures
        exists|a: int| 0 <= a < s.len() && s[a] == #[trigger] s.filter(pred)[i],
    decreases s.len(),
{
    broadcast use vstd::seq_lib::group_seq_properties;

    reveal(Seq::filter);
    let f = s.filter(pred);
    if s.len() == 0 {
    } else {
        let last = s.last();
        let fd = s.drop_last().filter(pred);
        assert(s.drop_last().push(last) =~= s);
        if pred(last) {
            assert(f =~= fd.push(last));
            if i < fd.len() {
                lemma_filter_element_index(s.drop_last(), pred, i);
                let a = choose|a: int|
                    0 <= a < s.drop_last().len() && s.drop_last()[a] == #[trigger] fd[i];
                assert(s[a] == f[i]);
            } else {
                assert(s[s.len() - 1] == f[i]);
            }
        } else {
            assert(f =~= fd);
            lemma_filter_element_index(s.drop_last(), pred, i);
            let a = choose|a: int|
                0 <= a < s.drop_last().len() && s.drop_last()[a] == #[trigger] fd[i];
            assert(s[a] == f[i]);
        }
    }
}

} // verus!
