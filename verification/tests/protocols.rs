use proto_hackers::broker::{BrokerMsg, BrokerState};
use proto_hackers::chat;
use proto_hackers::chat::Room;
use proto_hackers::cipher::{CipherOp, ObfuscationLayer, Workshop};
use proto_hackers::framing::StreamBuffer;
use proto_hackers::lrcp::{OutMsg, Packet, ServerState};
use proto_hackers::pest::{
    PolicyAction, PolicyType, PopulationObs, PopulationTarget, ServerMessage, SiteState,
};
use proto_hackers::speed;
use proto_hackers::speed::{Camera, ClientMsg, Dispatcher, ServerState as SpeedState};
use proto_hackers::store::{is_valid_path, Dir};
use proto_hackers::util;

#[test]
fn chat_scenario() {
    let mut room = Room::new();
    assert_eq!(
        chat::welcome_msg(),
        b"Welcome to budgetchat! What shall I call you?\n".to_vec()
    );
    // alice joins an empty room
    let listing = chat::room_contains_msg(&room.users);
    assert_eq!(listing, b"* The room contains \n".to_vec());
    assert!(room.add_user(b"alice".to_vec()));
    // bob joins; bob's listing shows alice
    let listing = chat::room_contains_msg(&room.users);
    assert_eq!(listing, b"* The room contains alice\n".to_vec());
    assert!(room.add_user(b"bob".to_vec()));
    assert_eq!(
        chat::entered_msg(b"bob"),
        b"* bob has entered the room\n".to_vec()
    );
    assert_eq!(chat::chat_msg(b"alice", b"hi"), b"[alice] hi\n".to_vec());
    room.remove_user(b"alice");
    assert!(!room.has_user(b"alice"));
    assert!(room.has_user(b"bob"));
    assert_eq!(
        chat::left_msg(b"alice"),
        b"* alice has left the room\n".to_vec()
    );
}

#[test]
fn chat_rejects_bad_names() {
    let mut room = Room::new();
    assert!(!room.add_user(b"".to_vec()));
    assert!(!room.add_user(b"bad name".to_vec()));
    assert!(room.add_user(b"alice".to_vec()));
    assert!(!room.add_user(b"alice".to_vec()));
}

#[test]
fn chat_two_names_listing() {
    let mut room = Room::new();
    assert!(room.add_user(b"alice".to_vec()));
    assert!(room.add_user(b"bob".to_vec()));
    assert_eq!(
        chat::room_contains_msg(&room.users),
        b"* The room contains alice, bob\n".to_vec()
    );
}

#[test]
fn speed_scenario() {
    let mut st = SpeedState::new();
    assert!(st.add_camera(Camera { id: 1, road: 66, mile: 100, limit: 60 }));
    let r = st.read_plate(1, b"UN1X".to_vec(), 0).unwrap();
    assert_eq!(r.len(), 0);
    assert!(st.add_camera(Camera { id: 2, road: 66, mile: 110, limit: 60 }));
    // 10 miles in 45 seconds: 800 mph, far over the limit; queued for
    // want of a dispatcher
    let r = st.read_plate(2, b"UN1X".to_vec(), 45).unwrap();
    assert_eq!(r.len(), 0);
    let flushed = st
        .add_dispatcher(Dispatcher { id: 3, roads: vec![66] })
        .unwrap();
    assert_eq!(flushed.len(), 1);
    let t = &flushed[0];
    assert_eq!(t.recipient, Some(3));
    assert_eq!(t.plate, b"UN1X".to_vec());
    assert_eq!(t.road, 66);
    assert_eq!(t.mile1, 100);
    assert_eq!(t.timestamp1, 0);
    assert_eq!(t.mile2, 110);
    assert_eq!(t.timestamp2, 45);
    assert_eq!(t.speed, 80000);
}

#[test]
fn speed_one_ticket_per_day() {
    let mut st = SpeedState::new();
    assert!(st.add_dispatcher(Dispatcher { id: 9, roads: vec![7] }).is_some());
    assert!(st.add_camera(Camera { id: 1, road: 7, mile: 0, limit: 10 }));
    assert!(st.add_camera(Camera { id: 2, road: 7, mile: 50, limit: 10 }));
    st.read_plate(1, b"AA11".to_vec(), 0).unwrap();
    let first = st.read_plate(2, b"AA11".to_vec(), 60).unwrap();
    assert_eq!(first.len(), 1);
    // a second violation the same day earns nothing more
    st.read_plate(1, b"AA11".to_vec(), 120).unwrap();
    let again = st.read_plate(2, b"AA11".to_vec(), 180).unwrap();
    assert_eq!(again.len(), 0);
}

#[test]
fn speed_role_rules() {
    let mut st = SpeedState::new();
    assert!(st.add_camera(Camera { id: 1, road: 5, mile: 1, limit: 9 }));
    assert!(!st.add_camera(Camera { id: 1, road: 6, mile: 2, limit: 9 }));
    assert!(st.add_dispatcher(Dispatcher { id: 1, roads: vec![5] }).is_none());
    assert!(st.read_plate(42, b"X".to_vec(), 0).is_none());
    assert!(st.mark_heartbeat(1));
    assert!(!st.mark_heartbeat(1));
    st.remove_client(1);
    assert!(st.mark_heartbeat(1));
}

#[test]
fn speed_client_msg_parse() {
    // IAmCamera{road=66,mile=100,limit=60}
    let bytes = [0x80u8, 0x00, 0x42, 0x00, 0x64, 0x00, 0x3c];
    let (m, used) = speed::parse_client_msg(&bytes).unwrap();
    assert_eq!(used, 7);
    match m {
        ClientMsg::IAmCamera { road, mile, limit } => {
            assert_eq!((road, mile, limit), (66, 100, 60));
        }
        _ => panic!("wrong message"),
    }
    // Plate{"UN1X", 45}
    let bytes = [0x20u8, 4, b'U', b'N', b'1', b'X', 0, 0, 0, 45];
    let (m, used) = speed::parse_client_msg(&bytes).unwrap();
    assert_eq!(used, 10);
    match m {
        ClientMsg::Plate { plate, timestamp } => {
            assert_eq!(plate, b"UN1X".to_vec());
            assert_eq!(timestamp, 45);
        }
        _ => panic!("wrong message"),
    }
    // a truncated message and an unknown type byte both yield nothing
    assert!(speed::parse_client_msg(&bytes[..5]).is_none());
    assert!(speed::parse_client_msg(&[0x99u8, 0, 0]).is_none());
}

#[test]
fn speed_ticket_encoding() {
    let t = proto_hackers::speed::Ticket {
        recipient: Some(3),
        plate: b"UN1X".to_vec(),
        road: 66,
        mile1: 100,
        timestamp1: 0,
        mile2: 110,
        timestamp2: 45,
        speed: 8000,
    };
    let bytes = speed::encode_ticket(&t);
    assert_eq!(
        bytes,
        vec![
            0x21, 4, b'U', b'N', b'1', b'X', 0x00, 0x42, 0x00, 0x64, 0, 0, 0, 0, 0x00, 0x6e, 0,
            0, 0, 45, 0x1f, 0x40
        ]
    );
    assert_eq!(speed::encode_heartbeat(), vec![0x41]);
    assert_eq!(speed::encode_error(b"bad"), vec![0x10, 3, b'b', b'a', b'd']);
}

#[test]
fn lrcp_scenario() {
    let mut st = ServerState::new();
    let r = st.process_request(b"/connect/1/");
    assert_eq!(r.len(), 1);
    match &r[0] {
        OutMsg::Datagram { session, data } => {
            assert_eq!(*session, 1);
            assert_eq!(data, &b"/ack/1/0/".to_vec());
        }
        _ => panic!("expected a datagram"),
    }
    let r = st.process_request(b"/data/1/0/hello\n/");
    assert_eq!(r.len(), 2);
    match &r[0] {
        OutMsg::Datagram { data, .. } => assert_eq!(data, &b"/ack/1/6/".to_vec()),
        _ => panic!("expected the ack first"),
    }
    match &r[1] {
        OutMsg::Reliable { data, .. } => assert_eq!(data, &b"/data/1/0/olleh\n/".to_vec()),
        _ => panic!("expected the reversed line"),
    }
    // the ack of everything sent cancels the retransmitter
    let r = st.process_request(b"/ack/1/6/");
    assert_eq!(r.len(), 1);
    assert!(matches!(r[0], OutMsg::Cancel { session: 1 }));
    // closing answers with a close
    let r = st.process_request(b"/close/1/");
    assert_eq!(r.len(), 1);
    match &r[0] {
        OutMsg::Close { session } => assert_eq!(*session, 1),
        _ => panic!("expected a close"),
    }
}

#[test]
fn lrcp_unknown_session_and_bad_packets() {
    let mut st = ServerState::new();
    let r = st.process_request(b"/data/9/0/x/");
    assert_eq!(r.len(), 1);
    assert!(matches!(r[0], OutMsg::Close { session: 9 }));
    assert_eq!(st.process_request(b"/banana/1/").len(), 0);
    assert_eq!(st.process_request(b"data/1/0/x/").len(), 0);
    assert_eq!(st.process_request(b"/data/1/0//").len(), 0);
    assert_eq!(st.process_request(b"/connect/99999999999/").len(), 0);
}

#[test]
fn lrcp_escaping() {
    assert!(matches!(
        proto_hackers::lrcp::parse_packet(b"/data/1/0/a\\/b/"),
        Some(Packet::Data { .. })
    ));
    if let Some(Packet::Data { data, .. }) = proto_hackers::lrcp::parse_packet(b"/data/1/0/a\\/b/")
    {
        assert_eq!(data, b"a/b".to_vec());
    }
    let esc = proto_hackers::lrcp::escape_bytes(b"a/b\\c");
    assert_eq!(esc, b"a\\/b\\\\c".to_vec());
    assert_eq!(proto_hackers::lrcp::unescape_bytes(&esc), b"a/b\\c".to_vec());
}

#[test]
fn broker_scenario() {
    let mut b = BrokerState::new();
    let r = b.put(b"q", 5, b"{\"x\":1}".to_vec());
    assert_eq!(r.len(), 1);
    assert!(matches!(r[0], BrokerMsg::PutOk { id: 1 }));
    let r = b.get(7, vec![b"q".to_vec()], false);
    assert_eq!(r.len(), 1);
    match &r[0] {
        BrokerMsg::JobGiven { id, priority, queue, payload } => {
            assert_eq!(*id, 1);
            assert_eq!(*priority, 5);
            assert_eq!(queue, &b"q".to_vec());
            assert_eq!(payload, &b"{\"x\":1}".to_vec());
        }
        _ => panic!("expected the job"),
    }
    // another client waits; the abort puts the job back and wakes it
    let r = b.get(8, vec![b"q".to_vec()], true);
    assert_eq!(r.len(), 1);
    assert!(matches!(r[0], BrokerMsg::Waiting));
    let r = b.abort(7, 1);
    assert_eq!(r.len(), 2);
    assert!(matches!(r[0], BrokerMsg::Done));
    assert!(matches!(r[1], BrokerMsg::Notify { client: 8 }));
    let r = b.get(8, vec![b"q".to_vec()], true);
    assert!(matches!(r[0], BrokerMsg::JobGiven { id: 1, .. }));
}

#[test]
fn broker_priorities_and_errors() {
    let mut b = BrokerState::new();
    b.put(b"q", 1, b"low".to_vec());
    b.put(b"q", 9, b"high".to_vec());
    b.put(b"r", 5, b"other".to_vec());
    let r = b.get(1, vec![b"q".to_vec(), b"r".to_vec()], false);
    assert!(matches!(r[0], BrokerMsg::JobGiven { id: 2, priority: 9, .. }));
    // aborting a job this client does not hold is refused
    let r = b.abort(1, 3);
    assert!(matches!(r[0], BrokerMsg::Rejected));
    let r = b.abort(99, 2);
    assert!(matches!(r[0], BrokerMsg::NoJob));
    // an empty get without wait answers no-job
    let r = b.get(1, vec![b"nothing".to_vec()], false);
    assert!(matches!(r[0], BrokerMsg::NoJob));
    let r = b.delete(1);
    assert!(matches!(r[0], BrokerMsg::Done));
    let r = b.delete(1);
    assert!(matches!(r[0], BrokerMsg::NoJob));
}

#[test]
fn broker_disconnect_requeues() {
    let mut b = BrokerState::new();
    b.put(b"q", 5, b"a".to_vec());
    b.put(b"q", 4, b"b".to_vec());
    let r = b.get(1, vec![b"q".to_vec()], false);
    assert!(matches!(r[0], BrokerMsg::JobGiven { id: 1, .. }));
    let r = b.get(1, vec![b"q".to_vec()], false);
    assert!(matches!(r[0], BrokerMsg::JobGiven { id: 2, .. }));
    let r = b.get(2, vec![b"q".to_vec()], false);
    assert!(matches!(r[0], BrokerMsg::NoJob));
    let _ = b.disconnect(1);
    let r = b.get(2, vec![b"q".to_vec()], false);
    assert!(matches!(r[0], BrokerMsg::JobGiven { id: 1, priority: 5, .. }));
    let r = b.get(2, vec![b"q".to_vec()], false);
    assert!(matches!(r[0], BrokerMsg::JobGiven { id: 2, priority: 4, .. }));
}

#[test]
fn store_scenario() {
    let mut root = Dir::new("");
    let rev = root.put_file(b"a/b.txt", b"hello".to_vec());
    assert_eq!(rev, 1);
    // the same body again stores no new revision
    let rev = root.put_file(b"a/b.txt", b"hello".to_vec());
    assert_eq!(rev, 1);
    let listing = root.get_list(b"a");
    assert_eq!(listing, vec![b"b.txt r1".to_vec()]);
    let f = root.get_file(b"a/b.txt").unwrap();
    assert_eq!(f.revisions.len(), 1);
    assert_eq!(f.revisions[0], b"hello".to_vec());
    // changed content makes revision 2, read back as the latest
    let rev = root.put_file(b"a/b.txt", b"world".to_vec());
    assert_eq!(rev, 2);
    let f = root.get_file(b"a/b.txt").unwrap();
    assert_eq!(f.revisions[1], b"world".to_vec());
    assert_eq!(root.get_list(b"a"), vec![b"b.txt r2".to_vec()]);
}

#[test]
fn store_listing_rules() {
    let mut root = Dir::new("");
    root.put_file(b"d/x", b"1".to_vec());
    root.put_file(b"d/sub/y", b"2".to_vec());
    root.put_file(b"d/a", b"3".to_vec());
    // sorted ascending; the subdirectory is a DIR entry
    assert_eq!(
        root.get_list(b"d"),
        vec![b"a r1".to_vec(), b"sub/ DIR".to_vec(), b"x r1".to_vec()]
    );
    // a file shadows a directory of the same name
    root.put_file(b"d/sub", b"4".to_vec());
    assert_eq!(
        root.get_list(b"d"),
        vec![b"a r1".to_vec(), b"sub r1".to_vec(), b"x r1".to_vec()]
    );
    assert_eq!(root.get_list(b"nosuch"), Vec::<Vec<u8>>::new());
}

#[test]
fn store_path_rules() {
    assert!(is_valid_path("/a/b.txt"));
    assert!(is_valid_path("/A_9-."));
    assert!(!is_valid_path("a"));
    assert!(!is_valid_path("/a//b"));
    assert!(!is_valid_path("/a b"));
    assert!(!is_valid_path(""));
}

#[test]
fn pest_frame_roundtrip() {
    let msgs = vec![
        ServerMessage::Hello { protocol: b"pestcontrol".to_vec(), version: 1 },
        ServerMessage::Okay,
        ServerMessage::DialAuthority { site: 12345 },
        ServerMessage::Error { msg: b"bad".to_vec() },
        ServerMessage::DeletePolicy { policy: 123 },
        ServerMessage::PolicyResult { policy: 9 },
        ServerMessage::CreatePolicy { species: b"dog".to_vec(), action: 0xa0 },
        ServerMessage::TargetPopulations {
            site: 12345,
            targets: vec![PopulationTarget { species: b"dog".to_vec(), min: 1, max: 3 }],
        },
        ServerMessage::SiteVisit {
            site: 12345,
            observations: vec![PopulationObs { species: b"dog".to_vec(), count: 1 }],
        },
    ];
    for m in &msgs {
        assert!(m.fits_wire());
        let bytes = m.to_bytes();
        let back = proto_hackers::pest::decode_frame(&bytes).expect("frame must parse");
        assert!(back == *m);
        // a flipped byte breaks the checksum
        let mut bad = bytes.clone();
        bad[5] = bad[5].wrapping_add(1);
        assert!(proto_hackers::pest::decode_frame(&bad).is_none());
    }
}

#[test]
fn pest_hello_bytes() {
    let m = ServerMessage::Hello { protocol: b"pestcontrol".to_vec(), version: 1 };
    let bytes = m.to_bytes();
    assert_eq!(
        bytes,
        vec![
            0x50, 0x00, 0x00, 0x00, 0x19, 0x00, 0x00, 0x00, 0x0b, 0x70, 0x65, 0x73, 0x74, 0x63,
            0x6f, 0x6e, 0x74, 0x72, 0x6f, 0x6c, 0x00, 0x00, 0x00, 0x01, 0xce
        ]
    );
}

#[test]
fn pest_conflicting_observations_rejected() {
    let m = ServerMessage::SiteVisit {
        site: 1,
        observations: vec![
            PopulationObs { species: b"dog".to_vec(), count: 1 },
            PopulationObs { species: b"dog".to_vec(), count: 2 },
        ],
    };
    let bytes = m.to_bytes();
    assert!(proto_hackers::pest::decode_frame(&bytes).is_none());
    // the same count twice is fine
    let m = ServerMessage::SiteVisit {
        site: 1,
        observations: vec![
            PopulationObs { species: b"dog".to_vec(), count: 2 },
            PopulationObs { species: b"dog".to_vec(), count: 2 },
        ],
    };
    assert!(proto_hackers::pest::decode_frame(&m.to_bytes()).is_some());
}

#[test]
fn pest_policy_reconciliation() {
    let mut site = SiteState::new();
    site.targets.push(PopulationTarget { species: b"dog".to_vec(), min: 1, max: 3 });
    // nothing observed: conserve
    let acts = site.get_actions(&[]);
    assert_eq!(acts.len(), 1);
    match &acts[0] {
        PolicyAction::Add { species, policy_type } => {
            assert_eq!(species, &b"dog".to_vec());
            assert!(matches!(policy_type, PolicyType::Conserve));
        }
        _ => panic!("expected an add"),
    }
    site.record_policy(b"dog".to_vec(), PolicyType::Conserve, 42);
    // in band: the standing policy goes
    let obs = vec![PopulationObs { species: b"dog".to_vec(), count: 2 }];
    let acts = site.get_actions(&obs);
    assert_eq!(acts.len(), 1);
    match &acts[0] {
        PolicyAction::Delete { id, species } => {
            assert_eq!(*id, 42);
            assert_eq!(species, &b"dog".to_vec());
        }
        _ => panic!("expected a delete"),
    }
    site.remove_policy(b"dog");
    // over the band: cull
    let obs = vec![PopulationObs { species: b"dog".to_vec(), count: 9 }];
    let acts = site.get_actions(&obs);
    assert_eq!(acts.len(), 1);
    assert!(matches!(
        &acts[0],
        PolicyAction::Add { policy_type: PolicyType::Cull, .. }
    ));
    assert_eq!(PolicyType::Conserve.to_byte(), 0xa0);
    assert_eq!(PolicyType::Cull.to_byte(), 0x90);
}

#[test]
fn cipher_scenario() {
    // xor(0x7b), addpos, reversebits
    let spec = vec![0x02u8, 0x7b, 0x05, 0x01, 0x00];
    let mut server = ObfuscationLayer::new(spec.clone()).expect("a real cipher");
    let mut client = ObfuscationLayer::new(spec).expect("a real cipher");
    let msg = b"4toy car,26toy robot\n".to_vec();
    let encoded = client.encode(&msg);
    assert_ne!(encoded, msg);
    let decoded = server.decode(&encoded);
    assert_eq!(decoded, msg);
    let mut shop = Workshop::new();
    let outs = shop.add_data(&decoded).expect("well-formed toys");
    assert_eq!(outs, vec![b"26toy robot\n".to_vec()]);
}

#[test]
fn cipher_rejects_no_op() {
    assert!(ObfuscationLayer::new(vec![0x00]).is_none());
    // xor(0) twice is the identity as well
    assert!(ObfuscationLayer::new(vec![0x02, 0x00, 0x00]).is_none());
    // a truncated specification is refused
    assert!(ObfuscationLayer::new(vec![0x02]).is_none());
    assert!(ObfuscationLayer::new(vec![0x07, 0x00]).is_none());
}

#[test]
fn cipher_ops_invert() {
    let ops = [
        CipherOp::Reversebits,
        CipherOp::Xor(0x5a),
        CipherOp::Xorpos,
        CipherOp::Add(13),
        CipherOp::Addpos,
    ];
    for op in &ops {
        for b in [0u8, 1, 0x7f, 0xfe, 0xff] {
            for pos in [0usize, 1, 255, 256, 1000] {
                assert_eq!(op.decode(op.encode(b, pos), pos), b);
            }
        }
    }
}

#[test]
fn workshop_buffers_partial_lines() {
    let mut shop = Workshop::new();
    assert_eq!(shop.add_data(b"3toy a,5to").unwrap().len(), 0);
    let outs = shop.add_data(b"y b\n1toy c\n").unwrap();
    assert_eq!(outs, vec![b"5toy b\n".to_vec(), b"1toy c\n".to_vec()]);
    // a line with a count that fits no u32 is refused
    let mut shop = Workshop::new();
    assert!(shop.add_data(b"9999999999toy x\n").is_none());
}

#[test]
fn session_reverses_lines() {
    let mut s = proto_hackers::lrcp::Session::new();
    s.push(b"hel");
    s.push(b"lo\nwor");
    assert_eq!(s.length_received, 9);
    assert_eq!(s.data_to_send, b"olleh\n".to_vec());
    s.push(b"ld\n");
    assert_eq!(s.data_to_send, b"olleh\ndlrow\n".to_vec());
}

#[test]
fn framing_lines_and_exact() {
    let mut sb = StreamBuffer::new();
    sb.feed(b"GET /a");
    assert!(sb.take_line().is_none());
    sb.feed(b" r1\nrest");
    assert_eq!(sb.take_line().unwrap(), b"GET /a r1".to_vec());
    assert!(sb.take_exact(5).is_none());
    sb.feed(b"12345");
    assert_eq!(sb.take_exact(5).unwrap(), b"rest1".to_vec());
    assert_eq!(sb.buf, b"2345".to_vec());
}

#[test]
fn decimal_numerals() {
    assert_eq!(util::format_dec(0), b"0".to_vec());
    assert_eq!(util::format_dec(12345), b"12345".to_vec());
    assert_eq!(util::format_dec(u64::MAX), b"18446744073709551615".to_vec());
    assert_eq!(util::parse_dec_bounded(b"12345", u64::MAX), Some(12345));
    assert_eq!(util::parse_dec_bounded(b"", u64::MAX), None);
    assert_eq!(util::parse_dec_bounded(b"12a", u64::MAX), None);
    assert_eq!(util::parse_dec_bounded(b"256", 255), None);
    assert_eq!(util::leading_number(b"26toy robot"), Some(26));
    assert_eq!(util::leading_number(b"toy"), None);
    assert_eq!(util::leading_number(b"99999999999toy"), None);
}

#[test]
fn byte_order_helpers() {
    assert!(util::bytes_le(b"a", b"b"));
    assert!(util::bytes_le(b"a", b"ab"));
    assert!(!util::bytes_le(b"b", b"ab"));
    assert!(util::bytes_le(b"", b""));
    assert!(util::bytes_eq(b"abc", b"abc"));
    assert!(!util::bytes_eq(b"abc", b"abd"));
}

#[test]
fn store_protocol_scenario() {
    let mut st = proto_hackers::store::ServerState::new();
    // PUT /a/b.txt 5 announces a five-byte body
    let reply = st.get_response(b"PUT /a/b.txt 5");
    match reply {
        proto_hackers::store::Reply::Read { path, length } => {
            assert_eq!(path, b"/a/b.txt".to_vec());
            assert_eq!(length, 5);
            let msg = st.put_file_data(&path, b"hello".to_vec());
            assert_eq!(msg, b"OK r1\nREADY".to_vec());
            // the same body again answers the standing revision
            let msg = st.put_file_data(&path, b"hello".to_vec());
            assert_eq!(msg, b"OK r1\nREADY".to_vec());
        }
        _ => panic!("expected a body read"),
    }
    match st.get_response(b"LIST /a") {
        proto_hackers::store::Reply::Done(msg) => {
            assert_eq!(msg, b"OK 1\nb.txt r1\nREADY".to_vec());
        }
        _ => panic!("expected a listing"),
    }
    match st.get_response(b"get /a/b.txt r1") {
        proto_hackers::store::Reply::Done(msg) => {
            assert_eq!(msg, b"OK 5\nhelloREADY".to_vec());
        }
        _ => panic!("expected the file"),
    }
    match st.get_response(b"HELP") {
        proto_hackers::store::Reply::Done(msg) => {
            assert_eq!(msg, b"OK usage: HELP|GET|PUT|LIST\nREADY".to_vec());
        }
        _ => panic!("expected usage"),
    }
    match st.get_response(b"NOPE x") {
        proto_hackers::store::Reply::Abort(msg) => {
            assert_eq!(msg, b"ERR illegal method: NOPE x".to_vec());
        }
        _ => panic!("expected the connection to close"),
    }
}

#[test]
fn store_protocol_errors() {
    let mut st = proto_hackers::store::ServerState::new();
    match st.get_response(b"GET /missing") {
        proto_hackers::store::Reply::Done(msg) => {
            assert_eq!(msg, b"ERR no such file\nREADY".to_vec());
        }
        _ => panic!("expected an error"),
    }
    match st.get_response(b"GET bad//path") {
        proto_hackers::store::Reply::Done(msg) => {
            assert_eq!(msg, b"ERR illegal file name\nREADY".to_vec());
        }
        _ => panic!("expected an error"),
    }
    match st.get_response(b"PUT /dir/ 3") {
        proto_hackers::store::Reply::Done(msg) => {
            assert_eq!(msg, b"ERR illegal file name\nREADY".to_vec());
        }
        _ => panic!("expected an error"),
    }
    let reply = st.get_response(b"PUT /f 1");
    match reply {
        proto_hackers::store::Reply::Read { path, .. } => {
            // a body that is not text is refused
            let msg = st.put_file_data(&path, vec![0x01]);
            assert_eq!(msg, b"ERR text files only\nREADY".to_vec());
            let msg = st.put_file_data(&path, b"x".to_vec());
            assert_eq!(msg, b"OK r1\nREADY".to_vec());
        }
        _ => panic!("expected a body read"),
    }
    match st.get_response(b"GET /f r2") {
        proto_hackers::store::Reply::Done(msg) => {
            assert_eq!(msg, b"ERR no such revision\nREADY".to_vec());
        }
        _ => panic!("expected an error"),
    }
    match st.get_response(b"LIST a b") {
        proto_hackers::store::Reply::Done(msg) => {
            assert_eq!(msg, b"ERR usage: LIST dir\nREADY".to_vec());
        }
        _ => panic!("expected an error"),
    }
}

#[test]
fn lrcp_ack_beyond_sent_closes_session() {
    let mut st = ServerState::new();
    st.process_request(b"/connect/5/");
    st.process_request(b"/data/5/0/hi\n/");
    // acknowledging more than was ever sent tears the session down
    let r = st.process_request(b"/ack/5/999/");
    assert_eq!(r.len(), 2);
    assert!(matches!(r[0], OutMsg::Cancel { session: 5 }));
    assert!(matches!(r[1], OutMsg::Close { session: 5 }));
    // the session is gone: further data is answered with a close
    let r = st.process_request(b"/data/5/3/x/");
    assert_eq!(r.len(), 1);
    assert!(matches!(r[0], OutMsg::Close { session: 5 }));
}

#[test]
fn pest_obs_parser_rejects_conflicts() {
    // count, then twice the same species with different counts
    let mut payload: Vec<u8> = vec![0, 0, 0, 2];
    for count in [1u8, 2u8] {
        payload.extend_from_slice(&[0, 0, 0, 3]);
        payload.extend_from_slice(b"dog");
        payload.extend_from_slice(&[0, 0, 0, count]);
    }
    let mut index = 0;
    assert!(ServerMessage::parse_population_obs(&payload, &mut index).is_none());
    assert_eq!(index, 0);
    // equal counts parse
    let mut payload: Vec<u8> = vec![0, 0, 0, 2];
    for _ in 0..2 {
        payload.extend_from_slice(&[0, 0, 0, 3]);
        payload.extend_from_slice(b"dog");
        payload.extend_from_slice(&[0, 0, 0, 2]);
    }
    let mut index = 0;
    let os = ServerMessage::parse_population_obs(&payload, &mut index).unwrap();
    assert_eq!(os.len(), 2);
    assert_eq!(index, payload.len());
}
