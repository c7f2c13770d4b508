use fragmentos::{FragMsgSender, FragStateMachine, SendError, Shaper};
use rand::rngs::StdRng;
use rand::{Rng, SeedableRng};

const MAX_DGRAM_LEN: usize = 22;

fn nonce_from(rng: &mut StdRng) -> [u8; 8] {
    let mut nonce = [0u8; 8];
    rng.fill_bytes(&mut nonce);
    nonce
}

/// All fragments of one message, as the sender hands them out.
fn send_one(sender: &mut FragMsgSender<u32>, msg: &[u8], address: u32, nonce: &[u8; 8]) -> Vec<(Vec<u8>, u32)> {
    sender.load(msg, address, nonce).unwrap();
    let mut out = Vec::new();
    while let Some(d) = sender.next_dgram() {
        out.push(d);
    }
    assert!(!sender.is_busy());
    out
}

#[test]
fn test_frag_msg_sender_basic() {
    let orig_message: Vec<u8> = b"This is some message to be split".to_vec();
    const ADDRESS: u32 = 0x12345678;
    let mut rng = StdRng::seed_from_u64(12345);

    let mut fms = FragMsgSender::new(MAX_DGRAM_LEN).unwrap();
    let nonce = nonce_from(&mut rng);
    let sent_dgrams = send_one(&mut fms, &orig_message, ADDRESS, &nonce);

    let mut fsm = FragStateMachine::new();
    let b = (sent_dgrams.len() + 1) / 2;
    for i in 0..b - 1 {
        let (ref dgram, address) = sent_dgrams[i];
        assert_eq!(address, ADDRESS);
        assert_eq!(fsm.received_frag_message(dgram), None);
        for _ in 0..2 {
            fsm.time_tick();
        }
    }
    let (ref dgram, _address) = sent_dgrams[sent_dgrams.len() - 1];
    let united = fsm.received_frag_message(dgram).unwrap();
    assert_eq!(united, orig_message);
}

#[test]
fn basic_test_sender_receiver() {
    let mut rng = StdRng::seed_from_u64(12345);
    let mut sender = FragMsgSender::new(MAX_DGRAM_LEN).unwrap();
    let mut fsm = FragStateMachine::new();

    let messages: Vec<(Vec<u8>, u32)> = vec![
        (b"How are you today?".to_vec(), 0x12345678),
        (b"This is message number two, are you ready for more messages?".to_vec(), 0x87654321),
        (b"This is message number three, and still sending... Very nice.".to_vec(), 0xabcdef12),
        (b"This is message number four, and still sending... Very nice.".to_vec(), 0xabcdef12),
        (b"short".to_vec(), 0x0bcdef12),
        (b"a".to_vec(), 0x1bcdef12),
        (b"".to_vec(), 0x2bcdef12),
    ];

    let mut incoming_messages = Vec::new();
    for (msg, address) in &messages {
        let nonce = nonce_from(&mut rng);
        for (dgram, addr) in send_one(&mut sender, msg, *address, &nonce) {
            if let Some(m) = fsm.received_frag_message(&dgram) {
                incoming_messages.push((m, addr));
            }
        }
    }
    assert_eq!(incoming_messages, messages);
}

#[test]
fn sender_config_and_size_errors() {
    assert!(matches!(FragMsgSender::<u32>::new(18), Err(SendError::DatagramLenOutOfRange)));
    assert!(matches!(FragMsgSender::<u32>::new(256), Err(SendError::DatagramLenOutOfRange)));
    let mut s = FragMsgSender::<u32>::new(19).unwrap();
    let too_big = vec![0u8; 120];
    assert_eq!(s.load(&too_big, 1, b"nonce123"), Err(SendError::InputTooLarge));
    assert!(!s.is_busy());
    assert_eq!(s.load(&too_big[..119], 1, b"nonce123"), Ok(()));
    assert!(s.is_busy());
}

#[test]
fn sender_keeps_unsent_fragment_first() {
    let mut s = FragMsgSender::<u32>::new(22).unwrap();
    s.load(b"This is some message to be split", 7, b"nonce123").unwrap();
    let (d0, a0) = s.next_dgram().unwrap();
    assert_eq!(a0, 7);
    assert_eq!(d0[9], 0);
    s.unsend(d0.clone());
    let (again, _) = s.next_dgram().unwrap();
    assert_eq!(again, d0);
    let (d1, _) = s.next_dgram().unwrap();
    assert_eq!(d1[9], 1);
}

#[test]
fn pipeline_of_random_messages_through_shaper() {
    let mut rng = StdRng::seed_from_u64(99);
    let mut sender = FragMsgSender::new(200).unwrap();
    let mut shaper: Shaper<(Vec<u8>, u32)> = Shaper::new(80, 1).unwrap();
    let mut fsm = FragStateMachine::new();

    let mut messages = Vec::new();
    for i in 0..100u32 {
        let mut m = vec![0u8; 32];
        rng.fill_bytes(&mut m);
        messages.push((m, i));
    }
    let mut next_msg = 0;
    let mut received = Vec::new();
    for _ in 0..1_000_000 {
        while let Some(item) = shaper.take_ready() {
            if let Some(m) = fsm.received_frag_message(&item.0) {
                received.push((m, item.1));
            }
        }
        while shaper.has_room() {
            if !sender.is_busy() {
                if next_msg == messages.len() {
                    break;
                }
                let nonce = nonce_from(&mut rng);
                let (ref m, a) = messages[next_msg];
                sender.load(m, a, &nonce).unwrap();
                next_msg += 1;
            }
            match sender.next_dgram() {
                Some(d) => shaper.push(d),
                None => {}
            }
        }
        if next_msg == messages.len() && !sender.is_busy() && shaper.pending_len() == 0 {
            break;
        }
        shaper.time_tick();
    }
    assert_eq!(received, messages);
}
