use fragmentos::{adjust_wait, ConfigError, Shaper, MAX_TOKENS_PER_MS, MAX_WAIT, WAIT_ADJUST};

/// Runs items through a shaper whose downstream always accepts; returns what
/// came out and the bytes released in each period with the rate of that
/// period.
fn run_shaper(items: Vec<Vec<u8>>, queue_len: usize, min_rate: u64) -> (Vec<Vec<u8>>, Vec<(u64, u64)>) {
    let mut shaper: Shaper<Vec<u8>> = Shaper::new(queue_len, min_rate).unwrap();
    let mut source = items.into_iter();
    let mut out = Vec::new();
    let mut periods = Vec::new();
    let mut upstream_open = true;
    let mut rate = min_rate;
    for _ in 0..100_000 {
        let mut released = 0u64;
        while let Some(item) = shaper.take_ready() {
            released += item.len() as u64;
            out.push(item);
        }
        periods.push((released, rate));
        while upstream_open && shaper.has_room() {
            match source.next() {
                Some(item) => shaper.push(item),
                None => upstream_open = false,
            }
        }
        if !upstream_open && shaper.pending_len() == 0 {
            break;
        }
        shaper.time_tick();
        rate = shaper.current_rate();
    }
    (out, periods)
}

#[test]
fn test_rate_limit_basic() {
    let items: Vec<Vec<u8>> = (0..100u32).map(|i| i.to_be_bytes().to_vec()).collect();
    let (out, _) = run_shaper(items.clone(), 5, 1);
    assert_eq!(out, items);
}

#[test]
fn test_rate_limit_variable_len() {
    let items: Vec<Vec<u8>> = (0..400).map(|i| vec![i as u8; (i % 17) as usize]).collect();
    let (out, _) = run_shaper(items.clone(), 5, 1);
    assert_eq!(out, items);
}

#[test]
fn shaper_respects_rate_within_one_item() {
    let items: Vec<Vec<u8>> = (0..300).map(|i| vec![1u8; 1 + (i % 40)]).collect();
    let (out, periods) = run_shaper(items.clone(), 8, 1);
    assert_eq!(out, items);
    let mut released = 0u64;
    let mut granted = 0u64;
    for (r, rate) in periods {
        released += r;
        granted += rate;
        // Released bytes never run ahead of granted tokens.
        assert!(released <= granted);
    }
}

#[test]
fn shaper_config_errors() {
    assert!(matches!(Shaper::<Vec<u8>>::new(0, 1), Err(ConfigError::QueueCapacityZero)));
    assert!(matches!(Shaper::<Vec<u8>>::new(3, 0), Err(ConfigError::MinRateOutOfRange)));
    assert!(matches!(
        Shaper::<Vec<u8>>::new(3, MAX_TOKENS_PER_MS + 1),
        Err(ConfigError::MinRateOutOfRange)
    ));
    assert!(Shaper::<Vec<u8>>::new(1, MAX_TOKENS_PER_MS).is_ok());
}

#[test]
fn shaper_rate_ramps_up_and_decays() {
    let mut s: Shaper<Vec<u8>> = Shaper::new(4, 2).unwrap();
    assert_eq!(s.current_rate(), 2);
    s.push(vec![0u8; 100]);
    assert!(s.take_ready().is_none());
    s.time_tick();
    assert_eq!(s.current_rate(), 5);
    assert!(s.take_ready().is_none());
    s.time_tick();
    assert_eq!(s.current_rate(), 11);
    assert!(s.take_ready().is_none());
    s.time_tick();
    assert_eq!(s.current_rate(), 23);
    assert!(s.take_ready().is_none());
    s.time_tick();
    assert_eq!(s.current_rate(), 47);
    // 2 + 5 + 11 + 23 + 47 = 88 < 100.
    assert!(s.take_ready().is_none());
    s.time_tick();
    assert_eq!(s.current_rate(), 95);
    assert_eq!(s.take_ready(), Some(vec![0u8; 100]));
    s.time_tick();
    assert_eq!(s.current_rate(), 94);
    s.time_tick();
    assert_eq!(s.current_rate(), 93);
}

#[test]
fn shaper_refused_item_goes_first() {
    let mut s: Shaper<Vec<u8>> = Shaper::new(4, 10).unwrap();
    s.push(vec![1, 2, 3]);
    s.push(vec![4]);
    let first = s.take_ready().unwrap();
    assert_eq!(first, vec![1, 2, 3]);
    s.refused(first);
    assert_eq!(s.pending_len(), 2);
    assert_eq!(s.take_ready(), Some(vec![1, 2, 3]));
    assert_eq!(s.take_ready(), Some(vec![4]));
    assert_eq!(s.take_ready(), None);
}

#[test]
fn wait_adjustment() {
    assert_eq!(adjust_wait(MAX_WAIT, 0, 64), MAX_WAIT);
    assert_eq!(adjust_wait(1000, 0, 64), 1000 + WAIT_ADJUST);
    assert_eq!(adjust_wait(1000, 60, 64), 501);
    assert_eq!(adjust_wait(1000, 30, 64), 1000);
    assert_eq!(adjust_wait(1000, 1, 0), 501);
}

#[test]
fn shaper_tokens_accumulate_while_idle() {
    let mut s: Shaper<Vec<u8>> = Shaper::new(4, 3).unwrap();
    for _ in 0..3 {
        assert_eq!(s.take_ready(), None);
        s.time_tick();
        assert_eq!(s.current_rate(), 3);
    }
    // 3 + 3 * 3 = 12 tokens at hand: a 12-byte item goes at once.
    s.push(vec![9u8; 12]);
    assert_eq!(s.take_ready(), Some(vec![9u8; 12]));
    s.push(vec![9u8; 1]);
    assert_eq!(s.take_ready(), None);
}

#[test]
fn shaper_refusal_keeps_tokens_for_the_item() {
    let mut s: Shaper<Vec<u8>> = Shaper::new(4, 5).unwrap();
    s.push(vec![1, 2, 3, 4, 5]);
    assert!(!s.can_refuse());
    let item = s.take_ready().unwrap();
    assert!(s.can_refuse());
    s.refused(item);
    assert!(!s.can_refuse());
    // No tokens are left, yet the item is already paid for.
    assert_eq!(s.take_ready(), Some(vec![1, 2, 3, 4, 5]));
}
