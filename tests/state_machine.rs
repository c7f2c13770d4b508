use fragmentos::{split_message, FragStateMachine, MESSAGE_ID_TICKS};

#[test]
fn test_time_tick_basic() {
    let mut fsm = FragStateMachine::new();
    fsm.time_tick();
    fsm.time_tick();
    fsm.time_tick();
}

#[test]
fn test_received_frag_message_basic() {
    let mut fsm = FragStateMachine::new();

    let orig_message = b"This is some message to be split";
    let frags = split_message(orig_message, b"nonce123", 22).unwrap();

    let b = (frags.len() + 1) / 2;
    for i in 0..b - 1 {
        assert_eq!(fsm.received_frag_message(&frags[i]), None);
    }
    let united = fsm.received_frag_message(&frags[frags.len() - 1]).unwrap();
    assert_eq!(united, orig_message);
}

#[test]
fn test_received_frag_same() {
    let mut fsm = FragStateMachine::new();
    let orig_message = b"This is some message to be split";
    let frags = split_message(orig_message, b"nonce123", 22).unwrap();

    let b = (frags.len() + 1) / 2;
    for i in 0..b - 2 {
        assert_eq!(fsm.received_frag_message(&frags[i]), None);
    }
    for _ in 0..100 {
        assert_eq!(fsm.received_frag_message(&frags[b - 2]), None);
    }

    let united = fsm.received_frag_message(&frags[frags.len() - 1]).unwrap();
    assert_eq!(united, orig_message);
}

#[test]
fn test_received_frag_late() {
    let mut fsm = FragStateMachine::new();

    let orig_message = b"This is some message to be split";
    let frags = split_message(orig_message, b"nonce123", 22).unwrap();

    let b = (frags.len() + 1) / 2;
    for i in 0..b - 1 {
        assert_eq!(fsm.received_frag_message(&frags[i]), None);
    }

    for _ in 0..MESSAGE_ID_TICKS + 1 {
        fsm.time_tick();
    }

    assert_eq!(fsm.received_frag_message(&frags[frags.len() - 1]), None);

    fsm.time_tick();

    for i in 0..b {
        assert_eq!(fsm.received_frag_message(&frags[i]), None);
    }

    for _ in 0..MESSAGE_ID_TICKS + 1 {
        fsm.time_tick();
    }

    for i in 0..b - 1 {
        assert_eq!(fsm.received_frag_message(&frags[i]), None);
    }
    let united = fsm.received_frag_message(&frags[frags.len() - 1]).unwrap();
    assert_eq!(united, orig_message);
}

#[test]
fn test_received_frag_rest_frags_ignored() {
    let mut fsm = FragStateMachine::new();

    let orig_message = b"This is some message to be split";
    let frags = split_message(orig_message, b"nonce123", 22).unwrap();

    let b = (frags.len() + 1) / 2;
    for i in 0..b - 1 {
        assert_eq!(fsm.received_frag_message(&frags[i]), None);
    }

    let united = fsm.received_frag_message(&frags[frags.len() - 1]).unwrap();
    assert_eq!(united, orig_message);

    fsm.time_tick();

    for i in b..frags.len() {
        assert_eq!(fsm.received_frag_message(&frags[i]), None);
    }
}

#[test]
fn test_received_frag_cur_messages_timeout() {
    let mut fsm = FragStateMachine::new();

    let orig_message = b"This is some message to be split";
    let frags = split_message(orig_message, b"nonce123", 22).unwrap();

    let b = (frags.len() + 1) / 2;
    for i in 0..b - 1 {
        assert_eq!(fsm.received_frag_message(&frags[i]), None);
        for _ in 0..MESSAGE_ID_TICKS - 1 {
            fsm.time_tick();
        }
    }

    assert_eq!(fsm.received_frag_message(&frags[frags.len() - 1]), None);
}

#[test]
fn exactly_b_fragments_complete_in_any_order() {
    let m = b"This is some message to be split";
    let frags = split_message(m, b"nonce123", 22).unwrap();
    let b = (frags.len() + 1) / 2;
    let mut fsm = FragStateMachine::new();
    // Parity fragments first, from the end.
    let order: Vec<usize> = (frags.len() - b..frags.len()).rev().collect();
    for (n, &i) in order.iter().enumerate() {
        let r = fsm.received_frag_message(&frags[i]);
        if n + 1 < b {
            assert_eq!(r, None);
        } else {
            assert_eq!(r, Some(m.to_vec()));
        }
    }
}

#[test]
fn completed_message_is_not_delivered_twice() {
    let m = b"This is some message to be split";
    let frags = split_message(m, b"nonce123", 22).unwrap();
    let b = (frags.len() + 1) / 2;
    let mut fsm = FragStateMachine::new();
    for i in 0..b - 1 {
        assert_eq!(fsm.received_frag_message(&frags[i]), None);
    }
    assert_eq!(fsm.received_frag_message(&frags[b - 1]), Some(m.to_vec()));
    for f in &frags {
        assert_eq!(fsm.received_frag_message(f), None);
    }
    // Replays keep the id blocked for a full lifetime from the last one.
    for _ in 0..MESSAGE_ID_TICKS - 1 {
        fsm.time_tick();
    }
    assert_eq!(fsm.received_frag_message(&frags[0]), None);
    for _ in 0..MESSAGE_ID_TICKS - 1 {
        fsm.time_tick();
    }
    for i in 1..b {
        assert_eq!(fsm.received_frag_message(&frags[i]), None);
    }
}

#[test]
fn corrupted_and_foreign_fragments_are_dropped() {
    let m = b"This is some message to be split";
    let frags = split_message(m, b"nonce123", 22).unwrap();
    let b = (frags.len() + 1) / 2;
    let mut fsm = FragStateMachine::new();
    let mut bad = frags[0].clone();
    bad[12] ^= 0x80;
    assert_eq!(fsm.received_frag_message(&bad), None);
    assert_eq!(fsm.received_frag_message(&[]), None);
    assert_eq!(fsm.received_frag_message(&[0u8; 5]), None);
    for i in 0..b - 1 {
        assert_eq!(fsm.received_frag_message(&frags[i]), None);
    }
    assert_eq!(fsm.received_frag_message(&frags[b - 1]), Some(m.to_vec()));
}

#[test]
fn two_messages_interleaved() {
    let m1 = b"This is some message to be split";
    let m2 = b"And here is a second one, longer than the first";
    let f1 = split_message(m1, b"nonce123", 22).unwrap();
    let f2 = split_message(m2, b"nonce456", 22).unwrap();
    let b1 = (f1.len() + 1) / 2;
    let b2 = (f2.len() + 1) / 2;
    let mut fsm = FragStateMachine::new();
    let mut out = Vec::new();
    for i in 0..b1.max(b2) {
        if i < b2 {
            if let Some(m) = fsm.received_frag_message(&f2[i]) {
                out.push(m);
            }
        }
        if i < b1 {
            if let Some(m) = fsm.received_frag_message(&f1[i]) {
                out.push(m);
            }
        }
    }
    assert_eq!(out, vec![m1.to_vec(), m2.to_vec()]);
}

#[test]
fn first_fragment_fed_many_times() {
    let m = b"This is some message to be split";
    let frags = split_message(m, b"nonce123", 22).unwrap();
    let b = (frags.len() + 1) / 2;
    let mut fsm = FragStateMachine::new();
    for _ in 0..100 {
        assert_eq!(fsm.received_frag_message(&frags[0]), None);
    }
    for i in 1..b - 1 {
        assert_eq!(fsm.received_frag_message(&frags[i]), None);
    }
    assert_eq!(fsm.received_frag_message(&frags[frags.len() - 1]), Some(m.to_vec()));
}

#[test]
fn assembly_expires_after_its_lifetime() {
    let m = b"This is some message to be split";
    let frags = split_message(m, b"nonce123", 22).unwrap();
    let b = (frags.len() + 1) / 2;
    let mut fsm = FragStateMachine::new();
    for i in 0..b - 1 {
        assert_eq!(fsm.received_frag_message(&frags[i]), None);
    }
    // One tick short of the lifetime: the assembly is still there.
    for _ in 0..MESSAGE_ID_TICKS - 1 {
        fsm.time_tick();
    }
    assert_eq!(fsm.received_frag_message(&frags[b - 1]), Some(m.to_vec()));

    let mut fsm = FragStateMachine::new();
    for i in 0..b - 1 {
        assert_eq!(fsm.received_frag_message(&frags[i]), None);
    }
    for _ in 0..MESSAGE_ID_TICKS {
        fsm.time_tick();
    }
    assert_eq!(fsm.received_frag_message(&frags[b - 1]), None);
}
