use chain_relay::chain::{AcceptAllValidation, Block, Header};
use chain_relay::sync::{
    BlockchainManager, FirstKSampler, InventoryItem, Locators, NetworkMessage, OnTimeout,
    ProcessEventError, StreamEvent, StreamEventKind,
};

fn genesis_header() -> Header {
    Header { id: 1000, prev: 999, work: 1 }
}

fn generate_headers(prev: u64, first_id: u64, count: u64) -> Vec<Header> {
    let mut headers = Vec::new();
    let mut parent = prev;
    for i in 0..count {
        let id = first_id + i;
        headers.push(Header { id, prev: parent, work: 1 });
        parent = id;
    }
    headers
}

fn new_manager() -> BlockchainManager<AcceptAllValidation, FirstKSampler> {
    BlockchainManager::new(genesis_header(), AcceptAllValidation, FirstKSampler)
}

fn headers_event(addr: u64, headers: Vec<Header>) -> StreamEvent {
    StreamEvent { address: addr, kind: StreamEventKind::Message(NetworkMessage::Headers(headers)) }
}

#[test]
fn test_manager_can_send_getheaders_messages() {
    let mut blockchain_manager = new_manager();
    let addr: u64 = 1;
    blockchain_manager.add_peer(addr, 0);
    assert_eq!(blockchain_manager.commands_queued().len(), 1);
    let genesis_hash = genesis_header().id;

    let locators = Locators { hashes: vec![genesis_hash], stop: None };
    blockchain_manager.send_getheaders(addr, locators, OnTimeout::Disconnect, 0);

    let command = blockchain_manager
        .commands_queued()
        .get(0)
        .expect("command not found");
    assert_eq!(command.address, addr);
    assert!(
        matches!(&command.message, NetworkMessage::GetHeaders(g) if g.stop_hash.is_none())
    );
    assert!(
        matches!(&command.message, NetworkMessage::GetHeaders(g) if g.locator_hashes[0] == genesis_hash)
    );

    let peer_info = blockchain_manager.get_peer(addr).expect("peer missing");
    let locators = peer_info
        .last_asked
        .as_ref()
        .expect("last asked should contain locators");
    assert_eq!(locators.hashes.len(), 1);
    assert_eq!(
        *locators.hashes.first().expect("there should be 1 locator"),
        genesis_hash
    );
}

#[test]
fn test_init_sync() {
    let mut blockchain_manager = new_manager();

    let chain = generate_headers(genesis_header().id, 1, 17);

    let sockets: Vec<u64> = vec![1, 2, 3];
    for socket in sockets.iter() {
        blockchain_manager.add_peer(*socket, 0);
        if let Some(command) = blockchain_manager.commands_queued().first() {
            assert_eq!(
                command.address, *socket,
                "The GetHeaders command is not for the added peer"
            );
            assert!(
                matches!(command.message, NetworkMessage::GetHeaders(_)),
                "Didn't send GetHeaders command after adding the peer"
            );
            if let NetworkMessage::GetHeaders(get_headers_message) = &command.message {
                assert_eq!(
                    get_headers_message.locator_hashes,
                    vec![genesis_header().id],
                    "Didn't send the right genesis hash for initial syncing"
                );
                assert_eq!(
                    get_headers_message.stop_hash, None,
                    "Didn't send the right stop hash for initial syncing"
                );
            }

            let event = headers_event(*socket, chain.clone());
            assert!(blockchain_manager.process_event(event, 0).is_ok());
            let peer = blockchain_manager.get_peer(*socket).unwrap();
            assert_eq!(peer.height, 17, "Height of peer {} is not correct", socket);
            assert_eq!(
                blockchain_manager.blockchain().get_active_chain_tip().height,
                17,
                "Height of the blockchain is not matching after adding the headers"
            );
            blockchain_manager.take_commands();
        } else {
            panic!("No command sent after adding a peer");
        }
    }
}

#[test]
fn test_received_inv() {
    let mut blockchain_manager = new_manager();

    let chain = generate_headers(genesis_header().id, 1, 17);
    let chain_hashes: Vec<u64> = chain.iter().map(|header| header.id).collect();

    blockchain_manager.add_peer(1, 0);
    blockchain_manager.take_commands();
    let event = headers_event(1, chain.clone());
    assert!(blockchain_manager.process_event(event, 0).is_ok());

    assert_eq!(
        blockchain_manager.blockchain().get_active_chain_tip().height,
        17,
        "Height of the blockchain is not matching after adding the headers"
    );

    // An inv message for a fork chain the store has never seen.
    let fork_chain = generate_headers(chain_hashes[10], 100, 17);
    let fork_hashes: Vec<u64> = fork_chain.iter().map(|header| header.id).collect();
    let message = NetworkMessage::Inv(
        fork_hashes.iter().map(|hash| InventoryItem::Block(*hash)).collect(),
    );
    let event = StreamEvent { address: 1, kind: StreamEventKind::Message(message) };
    assert!(blockchain_manager.process_event(event, 0).is_ok());
    if let Some(command) = blockchain_manager.commands_queued().first() {
        assert_eq!(
            command.address, 1,
            "The GetHeaders command is not for the correct peer"
        );
        assert!(
            matches!(command.message, NetworkMessage::GetHeaders(_)),
            "Didn't send GetHeaders command in response to inv message"
        );
        if let NetworkMessage::GetHeaders(get_headers_message) = &command.message {
            assert!(
                !get_headers_message.locator_hashes.is_empty(),
                "Sent 0 locator hashes in GetHeaders message"
            );
            assert_eq!(
                get_headers_message.locator_hashes.first().unwrap(),
                chain_hashes.last().unwrap(),
                "Didn't send the right locator hashes in response to inv message"
            );
            assert_eq!(
                *get_headers_message.locator_hashes.last().unwrap(),
                genesis_header().id,
                "Didn't send the right locator hashes in response to inv message"
            );
            assert_eq!(
                get_headers_message.stop_hash,
                Some(*fork_hashes.last().unwrap()),
                "Didn't send the right stop hash when responding to inv message"
            );
        }
    } else {
        panic!("The manager didn't respond to inv message");
    }
}

#[test]
fn test_simple_sync_blocks_and_received_block_message_lifecycle() {
    let peer_addr: u64 = 1;
    let block_1 = Block { header: Header { id: 1, prev: 1000, work: 1 }, payload: vec![1] };
    let block_2 = Block { header: Header { id: 2, prev: 1, work: 1 }, payload: vec![2] };

    let mut blockchain_manager = new_manager();
    blockchain_manager.add_peer(peer_addr, 0);
    blockchain_manager.take_commands();

    // Make both headers known, then ask for successors of genesis so that
    // both bodies end up in the fetch frontier.
    let headers = vec![block_1.header, block_2.header];
    assert!(blockchain_manager
        .received_headers_message(peer_addr, &headers, 0)
        .is_ok());
    assert!(blockchain_manager
        .handle_client_request(vec![genesis_header().id])
        .is_none());

    {
        let peer_info = blockchain_manager.get_peer(peer_addr).expect("peer should be here");
        assert_eq!(peer_info.num_of_outstanding_get_data_requests, 0);
    }

    blockchain_manager.sync_blocks(0);
    {
        let peer_info = blockchain_manager.get_peer(peer_addr).expect("peer should be here");
        assert_eq!(peer_info.num_of_outstanding_get_data_requests, 2);
    }
    // One getdata command carrying both items was queued for that peer.
    {
        let commands = blockchain_manager.commands_queued();
        assert_eq!(commands.len(), 1);
        assert_eq!(commands[0].address, peer_addr);
        match &commands[0].message {
            NetworkMessage::GetData(items) => assert_eq!(items.len(), 2),
            _ => panic!("expected a getdata command"),
        }
    }

    let result = blockchain_manager.received_block_message(peer_addr, block_1);
    assert!(result.is_ok());
    {
        let peer_info = blockchain_manager.get_peer(peer_addr).expect("peer should be here");
        assert_eq!(peer_info.num_of_outstanding_get_data_requests, 1);
    }

    let result = blockchain_manager.received_block_message(peer_addr, block_2);
    assert!(result.is_ok());
    blockchain_manager.sync_blocks(0);
    {
        let peer_info = blockchain_manager.get_peer(peer_addr).expect("peer should be here");
        assert_eq!(peer_info.num_of_outstanding_get_data_requests, 0);
    }
}

#[test]
fn test_get_successor_block_hashes() {
    let mut blockchain_manager = new_manager();

    // Main chain 0 -> 1 -> 2 and side chain 0 -> 1' -> 2'.
    let main_chain = generate_headers(genesis_header().id, 1, 2);
    let side_chain = generate_headers(genesis_header().id, 11, 2);
    blockchain_manager.add_peer(9, 0);
    blockchain_manager.take_commands();
    assert!(blockchain_manager.received_headers_message(9, &main_chain, 0).is_ok());
    assert!(blockchain_manager.received_headers_message(9, &side_chain, 0).is_ok());

    let block_hashes = vec![genesis_header().id];
    let successor_hashes = blockchain_manager.get_successor_block_hashes(&block_hashes, 1);
    assert_eq!(successor_hashes.len(), 2);
    assert!(successor_hashes.contains(&main_chain[0].id));
    assert!(successor_hashes.contains(&side_chain[0].id));

    let block_hashes = vec![genesis_header().id, main_chain[0].id];
    let successor_hashes = blockchain_manager.get_successor_block_hashes(&block_hashes, 2);
    assert_eq!(successor_hashes.len(), 3);
    assert!(successor_hashes.contains(&side_chain[0].id));
    assert!(successor_hashes.contains(&side_chain[1].id));
    assert!(successor_hashes.contains(&main_chain[1].id));
}

/// A peer with no outstanding request that sends 21 headers is rejected;
/// 20 headers are accepted for processing.
#[test]
fn test_unsolicited_header_limits() {
    let mut blockchain_manager = new_manager();
    blockchain_manager.add_peer(1, 0);
    blockchain_manager.take_commands();

    // A small batch marks the peer as caught up, clearing its outstanding
    // request; later batches are unsolicited.
    let warmup = generate_headers(genesis_header().id, 1, 2);
    assert!(blockchain_manager.received_headers_message(1, &warmup, 0).is_ok());
    assert!(blockchain_manager.get_peer(1).unwrap().last_asked.is_none());

    let too_many = generate_headers(2, 200, 21);
    let event = headers_event(1, too_many);
    assert_eq!(
        blockchain_manager.process_event(event, 0),
        Err(ProcessEventError::InvalidMessage)
    );

    let acceptable = generate_headers(2, 300, 20);
    let event = headers_event(1, acceptable);
    assert!(blockchain_manager.process_event(event, 0).is_ok());
}

/// A batch above the protocol maximum is dropped even when solicited.
#[test]
fn test_oversized_header_batch_is_rejected() {
    let mut blockchain_manager = new_manager();
    blockchain_manager.add_peer(1, 0);
    let oversized = generate_headers(genesis_header().id, 1, 2001);
    let event = headers_event(1, oversized);
    assert_eq!(
        blockchain_manager.process_event(event, 0),
        Err(ProcessEventError::InvalidMessage)
    );
}

/// An oversized inventory message and one from an unknown peer are dropped.
#[test]
fn test_inventory_rejections() {
    let mut blockchain_manager = new_manager();
    blockchain_manager.add_peer(1, 0);

    let oversized: Vec<InventoryItem> = (0..50001u64).map(InventoryItem::Block).collect();
    let event = StreamEvent { address: 1, kind: StreamEventKind::Message(NetworkMessage::Inv(oversized)) };
    assert_eq!(
        blockchain_manager.process_event(event, 0),
        Err(ProcessEventError::InvalidMessage)
    );

    let event = StreamEvent {
        address: 77,
        kind: StreamEventKind::Message(NetworkMessage::Inv(vec![InventoryItem::Block(5)])),
    };
    assert_eq!(
        blockchain_manager.process_event(event, 0),
        Err(ProcessEventError::InvalidMessage)
    );
}

/// A block that cannot be applied surfaces as an invalid message.
#[test]
fn test_block_from_unknown_parent_is_rejected() {
    let mut blockchain_manager = new_manager();
    blockchain_manager.add_peer(1, 0);
    let orphan = Block { header: Header { id: 50, prev: 49, work: 1 }, payload: vec![] };
    let event = StreamEvent { address: 1, kind: StreamEventKind::Message(NetworkMessage::Block(orphan)) };
    assert_eq!(
        blockchain_manager.process_event(event, 0),
        Err(ProcessEventError::InvalidMessage)
    );
}

/// A fetch older than the timeout is dropped on the next pass, its owner's
/// counter goes down, and the item returns to the frontier for re-dispatch.
#[test]
fn test_timeout_recovery() {
    let mut blockchain_manager = new_manager();
    blockchain_manager.add_peer(1, 0);
    blockchain_manager.take_commands();
    let headers = generate_headers(genesis_header().id, 1, 2);
    assert!(blockchain_manager.received_headers_message(1, &headers, 0).is_ok());
    assert!(blockchain_manager.handle_client_request(vec![genesis_header().id]).is_none());

    blockchain_manager.sync_blocks(0);
    assert_eq!(
        blockchain_manager.get_peer(1).unwrap().num_of_outstanding_get_data_requests,
        2
    );

    // 100 seconds later, with no block received, the fetches have expired
    // and are re-dispatched fresh.
    blockchain_manager.sync_blocks(100);
    assert_eq!(
        blockchain_manager.get_peer(1).unwrap().num_of_outstanding_get_data_requests,
        2
    );
    // A pass within the timeout leaves the fresh fetches outstanding.
    blockchain_manager.sync_blocks(110);
    assert_eq!(
        blockchain_manager.get_peer(1).unwrap().num_of_outstanding_get_data_requests,
        2
    );
}

/// The tick reconciles the peer set with the connected addresses and
/// flushes the queued commands.
#[test]
fn test_tick_reconciles_peers_and_flushes() {
    let mut blockchain_manager = new_manager();
    blockchain_manager.add_peer(1, 0);
    blockchain_manager.add_peer(2, 0);

    let connected: Vec<u64> = vec![2, 3];
    let commands = blockchain_manager.tick(0, &connected);
    // Two greetings from add_peer plus one for the newly connected peer.
    assert_eq!(commands.len(), 3);
    assert!(blockchain_manager.commands_queued().is_empty());
    assert!(blockchain_manager.get_peer(1).is_none());
    assert!(blockchain_manager.get_peer(2).is_some());
    assert!(blockchain_manager.get_peer(3).is_some());
}

/// A client request prunes the queried bodies, returns a cached successor
/// body, and queues deeper successors for fetching.
#[test]
fn test_handle_client_request_returns_successor_body() {
    let mut blockchain_manager = new_manager();
    blockchain_manager.add_peer(1, 0);
    blockchain_manager.take_commands();

    let block_1 = Block { header: Header { id: 1, prev: 1000, work: 1 }, payload: vec![7, 8] };
    let block_2 = Block { header: Header { id: 2, prev: 1, work: 1 }, payload: vec![9] };
    let headers = vec![block_1.header, block_2.header];
    assert!(blockchain_manager.received_headers_message(1, &headers, 0).is_ok());
    assert!(blockchain_manager.handle_client_request(vec![genesis_header().id]).is_none());
    blockchain_manager.sync_blocks(0);
    assert!(blockchain_manager.received_block_message(1, block_1.clone()).is_ok());

    let body = blockchain_manager
        .handle_client_request(vec![genesis_header().id])
        .expect("block 1 should be cached");
    assert_eq!(body.header, block_1.header);
    assert_eq!(body.payload, block_1.payload);
}
