use vault_manifest::hlc::Hlc;

#[test]
fn ticks_advance_logical_when_wall_clock_stalls() {
    let mut c = Hlc::zero();
    let a = c.tick(100);
    let b = c.tick(100);
    assert_eq!(a.physical_ms, 100);
    assert_eq!(b.physical_ms, 100);
    assert!(b.logical > a.logical);
}

#[test]
fn observe_takes_the_max_and_stays_strictly_increasing() {
    let mut local = Hlc::zero();
    local.tick(50);
    let remote = Hlc { physical_ms: 200, logical: 3 };
    let merged = local.observe(remote, 60);
    assert_eq!(merged.physical_ms, 200);
    assert_eq!(merged.logical, 4);
}

#[test]
fn tick_jumps_to_a_later_wall_clock_and_resets_logical() {
    let mut c = Hlc { physical_ms: 10, logical: 7 };
    let t = c.tick(25);
    assert_eq!(t, Hlc { physical_ms: 25, logical: 0 });
    assert_eq!(c, t);
}

#[test]
fn tick_with_a_wall_clock_behind_keeps_physical_and_counts_up() {
    let mut c = Hlc { physical_ms: 30, logical: 2 };
    let t = c.tick(5);
    assert_eq!(t, Hlc { physical_ms: 30, logical: 3 });
}

#[test]
fn observe_with_equal_physical_takes_the_larger_logical_plus_one() {
    let mut c = Hlc { physical_ms: 40, logical: 9 };
    let r = c.observe(Hlc { physical_ms: 40, logical: 2 }, 10);
    assert_eq!(r, Hlc { physical_ms: 40, logical: 10 });
}

#[test]
fn observe_when_local_is_ahead_counts_up_locally() {
    let mut c = Hlc { physical_ms: 90, logical: 1 };
    let r = c.observe(Hlc { physical_ms: 40, logical: 8 }, 10);
    assert_eq!(r, Hlc { physical_ms: 90, logical: 2 });
}

#[test]
fn observe_when_wall_clock_is_ahead_resets_logical() {
    let mut c = Hlc { physical_ms: 90, logical: 1 };
    let r = c.observe(Hlc { physical_ms: 40, logical: 8 }, 500);
    assert_eq!(r, Hlc { physical_ms: 500, logical: 0 });
    assert_eq!(c, r);
}

#[test]
fn is_after_orders_by_physical_then_logical() {
    let a = Hlc { physical_ms: 5, logical: 9 };
    let b = Hlc { physical_ms: 6, logical: 0 };
    let c = Hlc { physical_ms: 6, logical: 1 };
    assert!(b.is_after(&a));
    assert!(!a.is_after(&b));
    assert!(c.is_after(&b));
    assert!(!c.is_after(&c));
}

#[test]
fn can_tick_refuses_only_a_counter_overflow() {
    let c = Hlc { physical_ms: 10, logical: u32::MAX };
    assert!(!c.can_tick(10));
    assert!(!c.can_tick(9));
    assert!(c.can_tick(11));
    assert!(Hlc { physical_ms: 10, logical: 0 }.can_tick(10));
}
