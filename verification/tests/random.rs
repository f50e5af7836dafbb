use uid_store::PseudoRandom;

fn seeded(now: u128) -> PseudoRandom {
    let mut rng = PseudoRandom::new();
    rng.seed_from_nanos(now);
    rng
}

#[test]
fn draws_from_a_zero_instant() {
    let mut rng = seeded(0);
    assert_eq!(rng.next_u64(), 4555837035659193258);
    assert_eq!(rng.next_u64(), 17812057854832077598);
    assert_eq!(rng.next_u64(), 1518172633981390833);
    assert_eq!(rng.next_u64(), 10089943720516898228);
}

#[test]
fn draws_from_a_plausible_instant() {
    let mut rng = seeded(1700000000123456789);
    assert_eq!(rng.next_u64(), 17357383929493243127);
    assert_eq!(rng.next_u64(), 4930906316845072966);
    assert_eq!(rng.next_u64(), 12262134744940940928);
    assert_eq!(rng.next_u64(), 6853131839116021676);
}

#[test]
fn draw32_is_the_top_half_of_draw64() {
    let mut wide = seeded(1700000000123456789);
    let mut narrow = seeded(1700000000123456789);
    for _ in 0..1000 {
        assert_eq!(narrow.next_u32() as u64, wide.next_u64() >> 32);
    }
    let mut rng = seeded(1700000000123456789);
    assert_eq!(rng.next_u32(), 4041330872);
    assert_eq!(rng.next_u32(), 1148066091);
    assert_eq!(rng.next_u32(), 2855000725);
    assert_eq!(rng.next_u32(), 1595619097);
}

#[test]
fn seeding_reads_only_the_low_64_bits() {
    let mut low = seeded(5);
    let mut high = seeded((1u128 << 64) + 5);
    for _ in 0..100 {
        assert_eq!(low.next_u64(), high.next_u64());
    }
    let mut rng = seeded((1u128 << 64) + 5);
    assert_eq!(rng.next_u64(), 4555837034974167978);
    assert_eq!(rng.next_u64(), 17812057855657001758);
    assert_eq!(rng.next_u64(), 1518305497452515313);
    assert_eq!(rng.next_u64(), 14949163714419127885);
}

#[test]
fn seeding_at_the_largest_instant() {
    let mut rng = seeded(u128::MAX);
    assert_eq!(rng.next_u64(), 13890907038334546381);
    assert_eq!(rng.next_u64(), 634686219159565401);
    assert_eq!(rng.next_u64(), 16928584342487044486);
    assert_eq!(rng.next_u64(), 11499557492619823056);
}

#[test]
fn same_instant_same_stream() {
    let mut a = seeded(987654321);
    let mut b = seeded(987654321);
    for _ in 0..1000 {
        assert_eq!(a.next_u64(), b.next_u64());
    }
}

#[test]
fn reseeding_discards_the_old_state() {
    let mut rng = seeded(1);
    for _ in 0..17 {
        rng.next_u64();
    }
    rng.seed_from_nanos(0);
    assert_eq!(rng.next_u64(), 4555837035659193258);
}

#[test]
fn blank_generator_seeds_itself_on_the_first_draw() {
    let mut rng = PseudoRandom::new();
    let first = rng.next_u64();
    let mut later = 0;
    for _ in 0..8 {
        later |= rng.next_u64();
    }
    // A generator left blank would return zero for ever.
    assert!(first != 0 || later != 0);
}

#[test]
fn seeding_from_the_clock_gives_a_live_stream() {
    let mut rng = PseudoRandom::new();
    rng.seed();
    let mut seen = 0;
    for _ in 0..8 {
        seen |= rng.next_u64();
    }
    assert!(seen != 0);
}
