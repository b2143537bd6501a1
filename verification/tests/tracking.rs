use minsec::duration::Duration;
use minsec::sync::nft::parse_entry;
use minsec::tracker::{TrackKey, Tracker, Verdict};

fn key(n: u8) -> TrackKey {
    TrackKey {
        filter: 0,
        net: parse_entry(&format!("10.0.0.{n}/32"), 4).unwrap(),
    }
}

#[test]
fn bans_at_threshold_within_window() {
    let mut t = Tracker::new(100);
    let ft = Duration::from_secs(600);
    for i in 0..4 {
        assert_eq!(t.hit(key(1), 1000 + i, ft, 5), Verdict::Below { hits: i + 1 });
    }
    assert_eq!(t.hit(key(1), 1004, ft, 5), Verdict::Ban { hits: 5 });
    assert!(t.is_empty(), "ban resets the window");
}

#[test]
fn old_hits_age_out() {
    let mut t = Tracker::new(100);
    let ft = Duration::from_secs(60);
    for i in 0..4 {
        t.hit(key(1), 1000 + i, ft, 5);
    }
    assert_eq!(t.hit(key(1), 2000, ft, 5), Verdict::Below { hits: 1 });
}

#[test]
fn ring_wraps_with_small_maxretry() {
    let mut t = Tracker::new(100);
    let ft = Duration::from_secs(600);
    assert_eq!(t.hit(key(1), 1, ft, 1), Verdict::Ban { hits: 1 });
    assert_eq!(t.hit(key(2), 1, ft, 2), Verdict::Below { hits: 1 });
    assert_eq!(t.hit(key(2), 2, ft, 2), Verdict::Ban { hits: 2 });
}

#[test]
fn cap_and_sweep() {
    let mut t = Tracker::new(16);
    let ft = Duration::from_secs(600);
    for n in 0..40u8 {
        t.hit(key(n), 1000 + n as u32, ft, 5);
    }
    assert!(t.len() <= 16);
    let n = t.len();
    assert_eq!(t.sweep(5000, Duration::from_secs(10)), n);
    assert!(t.is_empty());
}

#[test]
fn cap_evicts_oldest_in_batches() {
    let mut t = Tracker::new(64);
    let ft = Duration::from_secs(6000);
    for n in 0..64u8 {
        t.hit(key(n), 1000 + n as u32, ft, 5);
    }
    assert_eq!(t.len(), 64);
    // One new key at the cap evicts a batch (64/32 = 2) of the oldest,
    // so the next new key fits without another scan.
    t.hit(key(100), 2000, ft, 5);
    assert_eq!(t.len(), 63);
    t.hit(key(101), 2000, ft, 5);
    assert_eq!(t.len(), 64);
    // The oldest two went; the newest survivors did not.
    assert_eq!(t.hit(key(0), 2001, ft, 5), Verdict::Below { hits: 1 });
    assert_eq!(t.hit(key(63), 2001, ft, 5), Verdict::Below { hits: 2 });
}

#[test]
fn sweep_removes_idle() {
    let mut t = Tracker::new(16);
    let ft = Duration::from_secs(600);
    t.hit(key(1), 1000, ft, 5);
    t.hit(key(2), 4000, ft, 5);
    assert_eq!(t.sweep(4100, Duration::from_secs(600)), 1);
    assert_eq!(t.len(), 1);
}

#[test]
fn sweep_goes_by_the_newest_hit() {
    let mut t = Tracker::new(16);
    let ft = Duration::from_secs(10);
    // Enough spread-out hits that the ring has wrapped several times.
    for i in 0..11u32 {
        assert!(matches!(t.hit(key(1), 1000 + 100 * i, ft, 3), Verdict::Below { .. }));
    }
    assert_eq!(t.sweep(2050, Duration::from_secs(60)), 0);
    assert_eq!(t.sweep(2061, Duration::from_secs(60)), 1);
}

#[test]
fn only_the_last_hits_count() {
    let mut t = Tracker::new(16);
    let ft = Duration::from_secs(100);
    assert_eq!(t.hit(key(1), 10, ft, 3), Verdict::Below { hits: 1 });
    assert_eq!(t.hit(key(1), 200, ft, 3), Verdict::Below { hits: 1 });
    assert_eq!(t.hit(key(1), 210, ft, 3), Verdict::Below { hits: 2 });
    assert_eq!(t.hit(key(1), 290, ft, 3), Verdict::Ban { hits: 3 });
}

#[test]
fn filters_are_tracked_apart_and_forgotten() {
    let mut t = Tracker::new(0);
    let ft = Duration::from_secs(100);
    let a = key(1);
    let b = TrackKey { filter: 1, net: a.net };
    assert_eq!(t.hit(a, 10, ft, 2), Verdict::Below { hits: 1 });
    assert_eq!(t.hit(b, 10, ft, 2), Verdict::Below { hits: 1 });
    t.forget(&a);
    assert_eq!(t.len(), 1);
    assert_eq!(t.hit(a, 11, ft, 2), Verdict::Below { hits: 1 });
}

#[test]
fn any_hit_bans_without_a_threshold() {
    let mut t = Tracker::new(16);
    assert_eq!(t.hit(key(1), 5, Duration::from_secs(1), 0), Verdict::Ban { hits: 1 });
    // Beyond the ring the threshold is never reached.
    for i in 0..40 {
        assert!(matches!(t.hit(key(2), i, Duration::from_secs(600), 33), Verdict::Below { .. }));
    }
}

#[test]
fn a_swept_key_fares_like_a_kept_one() {
    let ft = Duration::from_secs(60);
    let mut kept = Tracker::new(16);
    let mut swept = Tracker::new(16);
    for t in [1000, 1010] {
        kept.hit(key(1), t, ft, 3);
        swept.hit(key(1), t, ft, 3);
    }
    assert_eq!(swept.sweep(1080, ft), 1);
    assert_eq!(kept.hit(key(1), 1081, ft, 3), swept.hit(key(1), 1081, ft, 3));
}
