use fragmentos::{split_data, unite_data, DataShare, SplitDataError, UniteDataError};

#[test]
fn split_unite_data() {
    let my_data = &[1, 2, 3, 4, 5, 6, 7, 8, 9, 10, 11, 12, 13, 14, 15, 16, 17, 18, 19, 20];

    for b in 1..5_usize {
        let data_shares = split_data(my_data, b as u8).unwrap();

        let mut new_data = unite_data(&data_shares[0..b]).unwrap();
        assert_eq!(new_data.len(), b * ((my_data.len() + b - 1) / b));

        new_data.truncate(my_data.len());
        assert_eq!(my_data, &new_data[..]);
    }
}

fn subsets(n: usize, k: usize) -> Vec<Vec<usize>> {
    if k == 0 {
        return vec![vec![]];
    }
    if n < k {
        return vec![];
    }
    let mut with_last = subsets(n - 1, k - 1);
    for s in with_last.iter_mut() {
        s.push(n - 1);
    }
    let mut all = subsets(n - 1, k);
    all.extend(with_last);
    all
}

#[test]
fn split_data_four_of_seven() {
    let input = b"\x12\x34\x56\x78\x90\xab\xcd\xef\x55";
    let shares = split_data(input, 4).unwrap();
    assert_eq!(shares.len(), 7);
    for (i, s) in shares.iter().enumerate() {
        assert_eq!(s.input as usize, i);
        assert_eq!(s.data.len(), 3);
    }
    assert_eq!(shares[0].data, vec![0x12, 0x34, 0x56]);
    assert_eq!(shares[2].data, vec![0xcd, 0xef, 0x55]);
    assert_eq!(shares[3].data, vec![0, 0, 0]);
    let all = subsets(7, 4);
    assert_eq!(all.len(), 35);
    for chosen in all {
        let picked: Vec<DataShare> = chosen
            .iter()
            .map(|&i| DataShare { input: shares[i].input, data: shares[i].data.clone() })
            .collect();
        let mut back = unite_data(&picked).unwrap();
        assert_eq!(back.len(), 12);
        assert_eq!(&back[9..], &[0, 0, 0]);
        back.truncate(9);
        assert_eq!(&back[..], &input[..]);
    }
}

#[test]
fn split_data_one_share_is_the_data() {
    let shares = split_data(b"abc", 1).unwrap();
    assert_eq!(shares.len(), 1);
    assert_eq!(shares[0].input, 0);
    assert_eq!(shares[0].data, b"abc".to_vec());
    assert_eq!(unite_data(&shares).unwrap(), b"abc".to_vec());
}

#[test]
fn parity_shares_rebuild_the_data() {
    let data = [10u8, 20, 30, 40];
    let shares = split_data(&data, 2).unwrap();
    assert_eq!(shares.len(), 3);
    // The parity share differs from the data shares it is computed from.
    assert_ne!(shares[2].data, shares[0].data);
    assert_ne!(shares[2].data, shares[1].data);
    let picked = vec![
        DataShare { input: 2, data: shares[2].data.clone() },
        DataShare { input: 1, data: shares[1].data.clone() },
    ];
    assert_eq!(unite_data(&picked).unwrap(), data.to_vec());
}

#[test]
fn split_data_errors() {
    assert!(matches!(split_data(b"abc", 0), Err(SplitDataError::NumBlocksIsZero)));
    assert!(matches!(split_data(b"abc", 129), Err(SplitDataError::NumBlocksTooLarge)));
    assert!(matches!(split_data(b"", 2), Err(SplitDataError::ReedSolomonEncodeFailed(_))));
    assert_eq!(split_data(b"abc", 128).unwrap().len(), 255);
}

#[test]
fn unite_data_errors() {
    assert!(matches!(unite_data(&[]), Err(UniteDataError::NumBlocksIsZero)));
    let many: Vec<DataShare> = (0..129).map(|i| DataShare { input: i as u8, data: vec![1] }).collect();
    assert!(matches!(unite_data(&many), Err(UniteDataError::NumBlocksTooLarge)));
    let bad_index = vec![
        DataShare { input: 0, data: vec![1] },
        DataShare { input: 3, data: vec![2] },
    ];
    assert!(matches!(unite_data(&bad_index), Err(UniteDataError::InvalidShareIndex)));
    let same_index = vec![
        DataShare { input: 1, data: vec![1] },
        DataShare { input: 1, data: vec![2] },
    ];
    assert!(matches!(unite_data(&same_index), Err(UniteDataError::ReedSolomonDecodeFailed(_))));
    let uneven = vec![
        DataShare { input: 0, data: vec![1, 2] },
        DataShare { input: 1, data: vec![2] },
    ];
    assert!(matches!(unite_data(&uneven), Err(UniteDataError::ReedSolomonDecodeFailed(_))));
}
