use fragmentos::{
    max_message, parse_fragment, short_hash, split_message, unite_message, verify_frag_message,
    DataShare, ECC_LEN, MESSAGE_ID_LEN,
};

fn message_id_of(frag: &[u8]) -> [u8; MESSAGE_ID_LEN] {
    let mut id = [0u8; MESSAGE_ID_LEN];
    id.copy_from_slice(&frag[0..MESSAGE_ID_LEN]);
    id
}

fn shares_of(frags: &[Vec<u8>], indices: &[usize]) -> Vec<DataShare> {
    indices
        .iter()
        .map(|&i| DataShare {
            input: i as u8,
            data: frags[i][MESSAGE_ID_LEN + 2..frags[i].len() - ECC_LEN].to_vec(),
        })
        .collect()
}

#[test]
fn test_max_message() {
    assert!(max_message(0).is_err());
    assert!(max_message(MESSAGE_ID_LEN + ECC_LEN + 1).is_err());
    assert!(max_message(512).unwrap() > 512);
}

#[test]
fn test_calc_message_id() {
    short_hash(b"Dummy T message");
}

#[test]
fn test_split_unite_message() {
    let orig_message = b"This is some message to be split";
    let frags = split_message(orig_message, b"nonce123", 22).unwrap();
    assert!(frags.len() > 1);

    let message_id = message_id_of(&frags[0]);
    let b = frags[0][MESSAGE_ID_LEN];

    let frag_len = frags[0].len();
    for frag in &frags {
        assert_eq!(frag.len(), frag_len);
    }

    let data_shares = (0..b)
        .map(|i| DataShare {
            input: i,
            data: (&frags[i as usize][MESSAGE_ID_LEN + 1 + 1..frag_len - ECC_LEN]).to_vec(),
        })
        .collect::<Vec<DataShare>>();

    let new_message = unite_message(&message_id, &data_shares[0..b as usize]).unwrap();
    assert_eq!(orig_message, &new_message[..]);
}

#[test]
fn test_verify_frag_message() {
    let orig_message = b"This is some message to be split";
    let mut frags = split_message(orig_message, b"nonce123", 22).unwrap();

    assert!(verify_frag_message(&frags[0]));

    frags[0][5] = 0x41;
    frags[0][6] = 0x32;
    frags[0][7] = 0xfe;
    frags[0][10] = 0x29;
    assert!(!verify_frag_message(&frags[0]));
}

#[test]
fn max_message_exact_values() {
    assert_eq!(max_message(18), Err(()));
    assert_eq!(max_message(19), Ok(119));
    assert_eq!(max_message(22), Ok(503));
    assert_eq!(max_message(200), Ok(128 * 182 - 9));
}

#[test]
fn short_hash_is_sha512_256_prefix() {
    // SHA-512/256("abc") starts with 53048e2681941ef9.
    assert_eq!(short_hash(b"abc"), [0x53, 0x04, 0x8e, 0x26, 0x81, 0x94, 0x1e, 0xf9]);
}

#[test]
fn split_message_layout_of_first_scenario() {
    let m = b"This is some message to be split";
    let frags = split_message(m, b"nonce123", 22).unwrap();
    // 9 + 32 = 41 bytes over shares of 4 bytes: b = 11, 21 fragments.
    assert_eq!(frags.len(), 21);
    assert!(frags.len() % 2 == 1 && frags.len() >= 3);
    for (i, f) in frags.iter().enumerate() {
        assert_eq!(f.len(), 22);
        assert_eq!(f[8], 11);
        assert_eq!(f[9] as usize, i);
        assert_eq!(&f[0..8], &frags[0][0..8]);
        assert_eq!(&f[f.len() - 8..], &short_hash(&f[..f.len() - 8])[..]);
    }
    // The first share holds the start of the padded payload: nonce, then
    // the padding count (3).
    assert_eq!(&frags[0][10..14], b"nonc");
    assert_eq!(&frags[1][10..14], &[b'e', b'1', b'2', b'3']);
    assert_eq!(frags[2][10], 3);
}

#[test]
fn split_message_rejects_too_large() {
    let big = vec![7u8; 504];
    assert_eq!(split_message(&big, b"nonce123", 22), Err(()));
    let fits = vec![7u8; 503];
    let frags = split_message(&fits, b"nonce123", 22).unwrap();
    assert_eq!(frags.len(), 255);
    assert_eq!(split_message(b"x", b"nonce123", 18), Err(()));
}

#[test]
fn split_message_single_share() {
    let m = b"short one";
    let frags = split_message(m, b"nonce123", 200).unwrap();
    assert_eq!(frags.len(), 1);
    let id = message_id_of(&frags[0]);
    let back = unite_message(&id, &shares_of(&frags, &[0])).unwrap();
    assert_eq!(back, m.to_vec());
}

#[test]
fn split_message_empty_message() {
    let frags = split_message(b"", b"nonce123", 22).unwrap();
    // 9 bytes over shares of 4: b = 3, no padding, so shares of 3 bytes.
    assert_eq!(frags.len(), 5);
    for f in &frags {
        assert_eq!(f.len(), 21);
    }
    let id = message_id_of(&frags[0]);
    let back = unite_message(&id, &shares_of(&frags, &[4, 1, 3])).unwrap();
    assert_eq!(back, Vec::<u8>::new());
}

#[test]
fn round_trip_any_b_fragments() {
    let m = b"This is some message to be split";
    let frags = split_message(m, b"nonce123", 22).unwrap();
    let b = (frags.len() + 1) / 2;
    let id = message_id_of(&frags[0]);
    let choices: Vec<Vec<usize>> = vec![
        (0..b).collect(),
        (frags.len() - b..frags.len()).collect(),
        (0..frags.len()).step_by(2).collect(),
        (0..frags.len()).rev().step_by(2).collect(),
    ];
    for chosen in choices {
        assert_eq!(chosen.len(), b);
        let back = unite_message(&id, &shares_of(&frags, &chosen)).unwrap();
        assert_eq!(back, m.to_vec());
    }
}

#[test]
fn unite_message_rejects_wrong_id() {
    let m = b"This is some message to be split";
    let frags = split_message(m, b"nonce123", 22).unwrap();
    let b = (frags.len() + 1) / 2;
    let mut id = message_id_of(&frags[0]);
    id[0] ^= 1;
    let chosen: Vec<usize> = (0..b).collect();
    assert_eq!(unite_message(&id, &shares_of(&frags, &chosen)), Err(()));
    assert_eq!(unite_message(&id, &[]), Err(()));
}

#[test]
fn unite_message_fewer_than_b_fails() {
    let m = b"This is some message to be split";
    let frags = split_message(m, b"nonce123", 22).unwrap();
    let b = (frags.len() + 1) / 2;
    let id = message_id_of(&frags[0]);
    let chosen: Vec<usize> = (1..b).collect();
    assert_eq!(unite_message(&id, &shares_of(&frags, &chosen)), Err(()));
}

#[test]
fn flipping_any_bit_is_detected() {
    let m = b"This is some message to be split";
    let frags = split_message(m, b"nonce123", 22).unwrap();
    let f = &frags[3];
    assert!(parse_fragment(f).is_some());
    for byte in 0..f.len() - 8 {
        for bit in 0..8 {
            let mut g = f.clone();
            g[byte] ^= 1 << bit;
            assert!(!verify_frag_message(&g));
            assert!(parse_fragment(&g).is_none());
        }
    }
}

#[test]
fn parse_fragment_fields_and_rejections() {
    let m = b"This is some message to be split";
    let frags = split_message(m, b"nonce123", 22).unwrap();
    let p = parse_fragment(&frags[4]).unwrap();
    assert_eq!(&p.message_id[..], &frags[4][0..8]);
    assert_eq!(p.b, 11);
    assert_eq!(p.share_index, 4);
    assert_eq!(p.share_data, frags[4][10..14].to_vec());

    // Too short, though the trailer matches.
    let mut short = vec![1u8; 9];
    short.extend_from_slice(&short_hash(&short));
    assert!(verify_frag_message(&short));
    assert!(parse_fragment(&short).is_none());

    // b = 0.
    let mut zero_b = vec![0u8; 12];
    zero_b[8] = 0;
    let h = short_hash(&zero_b);
    zero_b.extend_from_slice(&h);
    assert!(verify_frag_message(&zero_b));
    assert!(parse_fragment(&zero_b).is_none());

    // share_index = 2b - 1.
    let mut bad_index = vec![0u8; 12];
    bad_index[8] = 2;
    bad_index[9] = 3;
    let h = short_hash(&bad_index);
    bad_index.extend_from_slice(&h);
    assert!(parse_fragment(&bad_index).is_none());
    bad_index.truncate(12);
    bad_index[9] = 2;
    let h = short_hash(&bad_index);
    bad_index.extend_from_slice(&h);
    assert!(parse_fragment(&bad_index).is_some());

    assert!(!verify_frag_message(&[1, 2, 3]));
}
