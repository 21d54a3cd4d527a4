use cmx_rdma::transport::{
    ConnectionPool, LocalBuffer, MockTransport, NixlTransport, PeerId, RemoteMemoryRegion,
    TransportError, TransportType,
};

#[test]
fn connect_disconnect_lifecycle() {
    let mut transport = MockTransport::new();
    let peer = PeerId("node-1".to_string());

    // Connect
    let tt = transport.connect(&peer, "127.0.0.1:9000").unwrap();
    assert_eq!(tt, TransportType::Mock);
    assert_eq!(transport.transport_type(&peer), Some(TransportType::Mock));

    // Disconnect
    transport.disconnect(&peer).unwrap();
    assert_eq!(transport.transport_type(&peer), None);

    // Disconnect again should fail
    let err = transport.disconnect(&peer).unwrap_err();
    assert!(matches!(err, TransportError::PeerNotFound(_)));
}

#[test]
fn write_then_read_roundtrip() {
    let mut transport = MockTransport::new();
    let peer = PeerId("node-2".to_string());
    transport.connect(&peer, "127.0.0.1:9001").unwrap();

    let lkey = transport.register_memory(0, 0).unwrap();

    // Write data to remote
    let src_data: Vec<u8> = vec![0xDE, 0xAD, 0xBE, 0xEF, 0xCA, 0xFE];
    let local_write = LocalBuffer { buf: src_data.clone(), lkey };
    let remote = RemoteMemoryRegion { peer: peer.clone(), addr: 0x1000, size: src_data.len() as u64, rkey: 42 };
    let written = transport.write(&local_write, &remote).unwrap();
    assert_eq!(written, src_data.len());

    // Read data back
    let mut local_read = LocalBuffer { buf: vec![0u8; src_data.len()], lkey };
    let read = transport.read(&remote, &mut local_read).unwrap();
    assert_eq!(read, src_data.len());
    assert_eq!(local_read.buf, src_data);
}

#[test]
fn read_from_nonexistent_peer_errors() {
    let transport = MockTransport::new();
    let peer = PeerId("ghost".to_string());

    let mut local = LocalBuffer { buf: vec![0u8; 64], lkey: 0 };
    let remote = RemoteMemoryRegion { peer, addr: 0x0, size: 64, rkey: 0 };

    let err = transport.read(&remote, &mut local).unwrap_err();
    assert!(matches!(err, TransportError::PeerNotFound(_)));
}

#[test]
fn read_of_missing_memory_names_the_address() {
    let mut transport = MockTransport::new();
    let peer = PeerId("node-3".to_string());
    transport.connect(&peer, "addr").unwrap();
    let mut local = LocalBuffer { buf: vec![9u8; 4], lkey: 0 };
    let remote = RemoteMemoryRegion { peer, addr: 0x1f40, size: 4, rkey: 0 };
    match transport.read(&remote, &mut local) {
        Err(TransportError::TransferFailed(msg)) => {
            assert_eq!(msg, "no remote memory at addr 0x1f40 for peer node-3")
        }
        _ => panic!("expected a transfer failure"),
    }
    assert_eq!(local.buf, vec![9u8; 4]);
}

#[test]
fn reads_copy_no_more_than_buffer_data_and_region() {
    let mut transport = MockTransport::default();
    let peer = PeerId("p".to_string());
    transport.connect(&peer, "a").unwrap();
    transport.insert_remote_memory(peer.clone(), 0, vec![1, 2, 3, 4, 5]);
    // Buffer smaller than the data.
    let mut small = LocalBuffer { buf: vec![0u8; 3], lkey: 0 };
    let region = RemoteMemoryRegion { peer: peer.clone(), addr: 0, size: 100, rkey: 0 };
    assert_eq!(transport.read(&region, &mut small).unwrap(), 3);
    assert_eq!(small.buf, vec![1, 2, 3]);
    // Buffer larger than the data: the rest of the buffer is kept.
    let mut big = LocalBuffer { buf: vec![7u8; 8], lkey: 0 };
    assert_eq!(transport.read(&region, &mut big).unwrap(), 5);
    assert_eq!(big.buf, vec![1, 2, 3, 4, 5, 7, 7, 7]);
    // Region smaller than both.
    let narrow = RemoteMemoryRegion { peer, addr: 0, size: 2, rkey: 0 };
    let mut buf = LocalBuffer { buf: vec![0u8; 8], lkey: 0 };
    assert_eq!(transport.read(&narrow, &mut buf).unwrap(), 2);
    assert_eq!(buf.buf, vec![1, 2, 0, 0, 0, 0, 0, 0]);
}

#[test]
fn writes_are_cut_to_the_region_and_need_a_connection() {
    let mut transport = MockTransport::new();
    let peer = PeerId("w".to_string());
    let local = LocalBuffer { buf: vec![1, 2, 3, 4], lkey: 0 };
    let region = RemoteMemoryRegion { peer: peer.clone(), addr: 8, size: 2, rkey: 0 };
    assert!(matches!(transport.write(&local, &region), Err(TransportError::PeerNotFound(p)) if p == "w"));
    transport.connect(&peer, "a").unwrap();
    assert_eq!(transport.write(&local, &region).unwrap(), 2);
    let mut back = LocalBuffer { buf: vec![0u8; 4], lkey: 0 };
    let wide = RemoteMemoryRegion { peer, addr: 8, size: 4, rkey: 0 };
    assert_eq!(transport.read(&wide, &mut back).unwrap(), 2);
    assert_eq!(back.buf, vec![1, 2, 0, 0]);
}

#[test]
fn local_keys_count_up_from_one() {
    let mut transport = MockTransport::new();
    assert_eq!(transport.register_memory(0, 16).unwrap(), 1);
    assert_eq!(transport.register_memory(0, 16).unwrap(), 2);
    assert!(transport.deregister_memory(1).is_ok());
}

#[test]
fn transport_type_names() {
    assert_eq!(TransportType::InfiniBand.display_name(), "InfiniBand");
    assert_eq!(TransportType::RoCEv2.display_name(), "RoCE v2");
    assert_eq!(TransportType::Tcp.display_name(), "TCP");
    assert_eq!(TransportType::Mock.display_name(), "Mock");
}

#[test]
fn nixl_is_not_available_in_this_build() {
    match NixlTransport::new() {
        Err(msg) => assert_eq!(msg, "NIXL transport not available. Build with --features nixl or use MockTransport."),
        Ok(_) => panic!("NIXL should not be available"),
    }
}

#[test]
fn get_or_connect_reuses_connection() {
    let mut pool = ConnectionPool::new(MockTransport::new());

    let peer = PeerId("node-1".to_string());
    let tt1 = pool.get_or_connect(&peer, "127.0.0.1:9000").unwrap();
    let tt2 = pool.get_or_connect(&peer, "127.0.0.1:9000").unwrap();

    assert_eq!(tt1, TransportType::Mock);
    assert_eq!(tt2, TransportType::Mock);
    assert_eq!(pool.connected_peers().len(), 1);
}

#[test]
fn disconnect_removes_from_pool() {
    let mut pool = ConnectionPool::new(MockTransport::new());

    let peer = PeerId("node-1".to_string());
    pool.get_or_connect(&peer, "127.0.0.1:9000").unwrap();
    assert_eq!(pool.connected_peers().len(), 1);

    pool.disconnect(&peer).unwrap();
    assert_eq!(pool.connected_peers().len(), 0);
}

#[test]
fn multiple_peers() {
    let mut pool = ConnectionPool::new(MockTransport::new());

    for i in 0..3 {
        let peer = PeerId(format!("node-{i}"));
        pool.get_or_connect(&peer, &format!("127.0.0.1:900{i}")).unwrap();
    }

    assert_eq!(pool.connected_peers().len(), 3);
}

#[test]
fn health_check_drops_peers_the_transport_lost() {
    let mut pool = ConnectionPool::new(MockTransport::new());
    let a = PeerId("a".to_string());
    let b = PeerId("b".to_string());
    pool.get_or_connect(&a, "x").unwrap();
    pool.get_or_connect(&b, "y").unwrap();
    // Nothing is stale yet.
    pool.remove_stale();
    assert_eq!(pool.connected_peers().len(), 2);
    // Disconnect at the pool removes from both.
    pool.disconnect(&a).unwrap();
    assert!(pool.transport().transport_type(&a).is_none());
    assert!(matches!(pool.disconnect(&a), Err(TransportError::PeerNotFound(_))));
    pool.remove_stale();
    let peers = pool.connected_peers();
    assert_eq!(peers, vec![b]);
}
