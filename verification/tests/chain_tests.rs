use chain_relay::chain::{
    AcceptAllValidation, AddBlockError, AddHeaderError, AddHeaderResult, Block, BlockchainState,
    Header, RejectListValidation,
};

fn genesis_header() -> Header {
    Header { id: 1000, prev: 999, work: 1 }
}

/// A chain of `count` headers with unit work, child after parent, with ids
/// `first_id`, `first_id + 1`, and so on.
fn generate_headers(prev: u64, first_id: u64, count: u64) -> Vec<Header> {
    let mut headers = Vec::new();
    let mut parent = prev;
    for i in 0..count {
        let id = first_id + i;
        headers.push(Header { id, prev: parent, work: 1 });
        parent = id;
    }
    headers
}

fn new_state() -> BlockchainState<AcceptAllValidation> {
    BlockchainState::new(genesis_header(), AcceptAllValidation)
}

fn block_1() -> Block {
    Block { header: Header { id: 1, prev: 1000, work: 1 }, payload: vec![1, 2, 3] }
}

fn block_2() -> Block {
    Block { header: Header { id: 2, prev: 1, work: 1 }, payload: vec![4, 5, 6] }
}

#[test]
fn test_get_block() {
    let mut state = new_state();

    state
        .add_block(block_1())
        .expect("should be able to add block 1");
    let block_1_hash = block_1().header.id;
    let block_2_hash = block_2().header.id;
    let block_hashes = vec![block_1_hash, block_2_hash];

    let mut cached_blocks = vec![];
    for hash in &block_hashes {
        if let Some(block) = state.get_block(hash) {
            cached_blocks.push(block);
        }
    }

    assert_eq!(cached_blocks.len(), 1);
    let block = cached_blocks.get(0).expect("there should be 1");
    assert_eq!(block.header.id, block_1_hash);
}

#[test]
fn test_adding_headers_successfully() {
    let mut state = new_state();

    let initial_header = *state.genesis();
    let chain = generate_headers(initial_header.header.id, 1, 17);
    let chain_hashes: Vec<u64> = chain.iter().map(|header| header.id).collect();
    let last_hash = *chain_hashes.last().unwrap();

    let (added_headers, maybe_err) = state.add_headers(&chain);
    assert!(maybe_err.is_none());

    let last_cached = added_headers.last().unwrap();
    assert_eq!(last_cached.header.id, last_hash);
    assert_eq!(last_cached.height, 17);
    let tip = *state.get_active_chain_tip();
    assert_eq!(tip.height, 17);
    assert_eq!(tip.header.id, last_hash);
}

#[test]
fn test_forks_when_adding_headers() {
    let mut state = new_state();
    let initial_header = *state.genesis();

    let chain = generate_headers(initial_header.header.id, 1, 17);
    let chain_hashes: Vec<u64> = chain.iter().map(|header| header.id).collect();
    let last_chain_hash = chain_hashes.last().expect("missing last hash");

    let (_, maybe_err) = state.add_headers(&chain);
    assert!(
        maybe_err.is_none(),
        "unsuccessfully added first chain: {:?}",
        maybe_err
    );

    // Fork from the header at index 10 (height 11).
    let fork_chain = generate_headers(chain_hashes[10], 100, 17);
    let fork_hashes: Vec<u64> = fork_chain.iter().map(|header| header.id).collect();
    let last_fork_hash = fork_hashes.last().expect("missing last hash");

    let (_, maybe_err) = state.add_headers(&fork_chain);
    assert!(
        maybe_err.is_none(),
        "unsuccessfully added fork chain: {:?}",
        maybe_err
    );

    let tips = state.tips();
    assert_eq!(tips.len(), 2);
    assert_eq!(tips[0].header.id, *last_chain_hash);
    assert_eq!(tips[1].header.id, *last_fork_hash);
    assert_eq!(state.get_active_chain_tip().height, 28);
}

#[test]
fn test_adding_an_empty_headers_vector() {
    let mut state = new_state();
    let chain = vec![];
    let (added_headers, maybe_err) = state.add_headers(&chain);
    assert!(maybe_err.is_none());
    assert!(added_headers.is_empty());
    assert_eq!(state.get_active_chain_tip().height, 0);
}

#[test]
fn test_adding_headers_that_already_exist() {
    let mut state = new_state();

    let initial_header = *state.genesis();
    let chain = generate_headers(initial_header.header.id, 1, 17);
    let chain_hashes: Vec<u64> = chain.iter().map(|header| header.id).collect();
    let last_hash = *chain_hashes.last().unwrap();

    let (added_headers, maybe_err) = state.add_headers(&chain);
    assert!(maybe_err.is_none());
    assert_eq!(added_headers.len(), 17);

    let last_cached = added_headers.last().unwrap();
    assert_eq!(last_cached.header.id, last_hash);
    assert_eq!(last_cached.height, 17);

    let (added_headers, maybe_err) = state.add_headers(&chain);
    assert!(maybe_err.is_none());
    assert!(added_headers.is_empty());
}

#[test]
fn test_adding_headers_with_an_invalid_header() {
    let mut state = new_state();

    let initial_header = *state.genesis();
    let mut chain = generate_headers(initial_header.header.id, 1, 17);
    let disconnected = chain.get_mut(10).unwrap();
    disconnected.prev = 0xdead_beef;

    let chain_hashes: Vec<u64> = chain.iter().map(|header| header.id).collect();
    let last_hash = chain_hashes[10];

    let (added_headers, maybe_err) = state.add_headers(&chain);
    assert_eq!(added_headers.len(), 10);
    assert!(
        matches!(maybe_err, Some(AddHeaderError::PrevHeaderNotCached(block_hash)) if block_hash == last_hash)
    );

    let tip = state.get_active_chain_tip();
    assert_eq!(tip.height, 10);
}

#[test]
fn test_adding_blocks_to_the_cache() {
    let block_1 = block_1();
    let block_2 = block_2();

    let mut state = new_state();

    let block_2_hash = block_2.header.id;
    let result = state.add_block(block_2);
    assert!(
        matches!(result, Err(AddBlockError::Header(AddHeaderError::PrevHeaderNotCached(stop_hash))) if stop_hash == block_2_hash),
    );

    let result = state.add_block(block_1);
    assert!(matches!(result, Ok(height) if height == 1));
}

#[test]
fn test_pruning_old_blocks_from_the_cache() {
    let mut state = new_state();
    let block_2_hash = block_2().header.id;
    state.add_block(block_1()).unwrap();
    state.add_block(block_2()).unwrap();

    state.prune_old_blocks(&vec![block_2_hash]);
    assert!(state.get_block(&block_2_hash).is_none());
}

/// Pruning removes only the cached body: the header and its tree position
/// survive, and the sibling body is untouched.
#[test]
fn test_pruning_keeps_headers_and_other_blocks() {
    let mut state = new_state();
    let block_1_hash = block_1().header.id;
    let block_2_hash = block_2().header.id;
    state.add_block(block_1()).unwrap();
    state.add_block(block_2()).unwrap();

    state.prune_old_blocks(&vec![block_1_hash]);
    assert!(state.get_block(&block_1_hash).is_none());
    assert!(state.get_block(&block_2_hash).is_some());
    assert!(state.is_block_hash_known(&block_1_hash));
    assert!(state.get_header(&block_1_hash).is_some());
    assert_eq!(state.get_children(&genesis_header().id).unwrap(), &vec![block_1_hash]);
}

/// Adding the same header twice: added first, already-cached second, and the
/// entry is unchanged.
#[test]
fn test_add_header_twice_is_idempotent() {
    let mut state = new_state();
    let header = Header { id: 7, prev: genesis_header().id, work: 3 };

    let first = state.add_header(header).unwrap();
    let added = match first {
        AddHeaderResult::HeaderAdded(cached) => cached,
        AddHeaderResult::HeaderAlreadyExists(_) => panic!("first add must insert"),
    };
    assert_eq!(added.height, 1);
    assert_eq!(added.work, genesis_header().work as u128 + 3);

    let second = state.add_header(header).unwrap();
    match second {
        AddHeaderResult::HeaderAlreadyExists(cached) => assert_eq!(cached, added),
        AddHeaderResult::HeaderAdded(_) => panic!("second add must not insert"),
    }
    assert_eq!(*state.get_header(&7).unwrap(), added);
}

/// A chain of 5 atop genesis gives an active tip of height 5; a fork of 4
/// branching at height 2 then takes over with height 6 (unit work).
#[test]
fn test_active_tip_follows_most_work() {
    let mut state = new_state();
    let chain = generate_headers(genesis_header().id, 1, 5);
    let (added, err) = state.add_headers(&chain);
    assert!(err.is_none());
    assert_eq!(added.len(), 5);
    assert_eq!(state.get_active_chain_tip().height, 5);

    // Fork of 4 from the header at height 2.
    let fork = generate_headers(chain[1].id, 50, 4);
    let (added, err) = state.add_headers(&fork);
    assert!(err.is_none());
    assert_eq!(added.len(), 4);
    let tip = state.get_active_chain_tip();
    assert_eq!(tip.height, 6);
    assert_eq!(tip.header.id, fork.last().unwrap().id);
}

/// The locator sample starts at the active tip, ends at genesis, and never
/// exceeds 23 entries.
#[test]
fn test_locator_hashes_shape() {
    let mut state = new_state();
    let chain = generate_headers(genesis_header().id, 1, 40);
    let (_, err) = state.add_headers(&chain);
    assert!(err.is_none());

    let locators = state.locator_hashes();
    assert!(!locators.is_empty());
    assert!(locators.len() <= 23);
    assert_eq!(locators[0], chain.last().unwrap().id);
    assert_eq!(*locators.last().unwrap(), genesis_header().id);

    // On a short chain the walk ends early and still closes with genesis.
    let mut short = new_state();
    let chain = generate_headers(genesis_header().id, 1, 3);
    short.add_headers(&chain);
    let locators = short.locator_hashes();
    assert_eq!(locators[0], chain.last().unwrap().id);
    assert_eq!(*locators.last().unwrap(), genesis_header().id);
    assert_eq!(locators.len(), 4);
}

/// A rejecting validity predicate surfaces `InvalidHeader` and keeps the
/// accepted prefix.
#[test]
fn test_rejecting_validator_reports_invalid_header() {
    let validator = RejectListValidation {
        rejected_headers: vec![3],
        rejected_blocks: vec![],
    };
    let mut state = BlockchainState::new(genesis_header(), validator);
    let chain = generate_headers(genesis_header().id, 1, 5);
    let (added, err) = state.add_headers(&chain);
    assert_eq!(added.len(), 2);
    assert!(matches!(err, Some(AddHeaderError::InvalidHeader(id)) if id == 3));
}

/// A rejecting block predicate surfaces `InvalidBlock` while the header
/// stays cached.
#[test]
fn test_rejecting_validator_reports_invalid_block() {
    let validator = RejectListValidation {
        rejected_headers: vec![],
        rejected_blocks: vec![1],
    };
    let mut state = BlockchainState::new(genesis_header(), validator);
    let result = state.add_block(block_1());
    assert!(matches!(result, Err(AddBlockError::InvalidBlock(id)) if id == 1));
    assert!(state.is_block_hash_known(&1));
    assert!(state.get_block(&1).is_none());
}
