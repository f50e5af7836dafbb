use std::collections::HashSet;
use uid_store::{
    random_max_size, random_string, uid_to_number, Alphabet, PseudoRandom, Recipe, UidStore,
};

fn seeded(now: u128) -> PseudoRandom {
    let mut rng = PseudoRandom::new();
    rng.seed_from_nanos(now);
    rng
}

#[test]
fn test_random_max_size() {
    let mut rng = PseudoRandom::new();
    let mut u = UidStore::new();
    for _ in [0..100000] {
        assert!(uid_to_number(u.next_u16(&mut rng)).unwrap() <= u16::MAX.into());
        assert!(uid_to_number(u.next_u32(&mut rng)).unwrap() <= u32::MAX.try_into().unwrap());
        assert!(uid_to_number(u.next_u64(&mut rng)).unwrap() <= u64::MAX.try_into().unwrap());
    }
    let mut u = UidStore::new();
    for _ in [0..50000] {
        assert!(uid_to_number(u.next_u16(&mut rng)).unwrap() <= u16::MAX.into());
    }
    let mut u = UidStore::new();
    let _ = u.make_unique_u16(&mut rng, "BBB");
    for _ in [0..50000] {
        let v = u.make_unique_u16(&mut rng, "BBB");
        assert!(!v.is_none());
        let v = uid_to_number(&v.unwrap()).unwrap();
        assert!(v <= u16::MAX.into());
    }
}

#[test]
fn test_unique() {
    let mut rng = PseudoRandom::new();
    let mut u = UidStore::new();
    let id: String;
    let id2: String;
    {
        id = u.next(&mut rng, 10).to_string();
        assert_eq!(id.len(), 10, "failed");
        assert!(u.contains(&id));
    };
    assert_eq!(u.size(), 1, "failed");
    {
        id2 = u.next(&mut rng, 8).to_string();
        assert_eq!(id2.len(), 8, "failed");
        assert!(u.contains(&id2));
    };
    assert_eq!(u.size(), 2, "failed");
    assert_ne!(id, id2, "failed");

    let xo = "0123456789";
    {
        let o = u.make_unique(&mut rng, xo);
        assert!(o.is_none(), "failed. Found {:?}", o.unwrap());
    };
    assert_eq!(u.size(), 3, "failed");

    {
        let o = u.make_unique(&mut rng, xo);
        assert!(o.is_some(), "failed. Found {:?}", o);
        assert_ne!(o.unwrap(), xo, "failed");
    };
    assert_eq!(u.size(), 4, "failed");
}

#[test]
fn new_store_is_empty() {
    let u = UidStore::new();
    assert_eq!(u.size(), 0);
    assert!(!u.contains(""));
    assert!(!u.contains("A"));
}

#[test]
fn issued_identifiers_are_all_different() {
    let mut rng = PseudoRandom::new();
    let mut u = UidStore::new();
    let mut seen: HashSet<String> = HashSet::new();
    for k in 1..=2000usize {
        let id = match k % 5 {
            0 => u.next(&mut rng, 6).to_string(),
            1 => u.next_human(&mut rng, 6).to_string(),
            2 => u.next_u32(&mut rng).to_string(),
            3 => u.next_u64(&mut rng).to_string(),
            _ => u.next_u16(&mut rng).to_string(),
        };
        assert!(seen.insert(id.clone()), "{} was issued twice", id);
        assert!(u.contains(&id));
        assert_eq!(u.size(), k);
    }
}

#[test]
fn first_issue_is_the_first_candidate() {
    let mut rng = seeded(42);
    let mut u = UidStore::new();
    assert_eq!(u.next(&mut rng, 3), "CBc");
    assert_eq!(u.next(&mut rng, 3), "w0o");
    assert_eq!(u.next(&mut rng, 3), "LmG");
    assert_eq!(u.next(&mut rng, 3), "vfX");
    assert_eq!(u.size(), 4);
}

#[test]
fn a_taken_candidate_is_passed_over() {
    let mut rng = seeded(42);
    let mut u = UidStore::new();
    assert!(u.make_unique(&mut rng, "CBc").is_none());
    assert!(u.make_unique(&mut rng, "w0o").is_none());
    // The first two candidates are in use: the third one is issued, and the
    // generator has moved on by three strings.
    assert_eq!(u.next(&mut rng, 3), "LmG");
    assert_eq!(u.size(), 3);
    let mut other = seeded(42);
    for _ in 0..3 {
        random_string(&mut other, 3);
    }
    assert_eq!(rng.next_u64(), other.next_u64());
}

#[test]
fn collisions_among_single_digits_are_retried() {
    // From this instant the digits drawn are 2 7 0 8 6 2 9 2 0 9 9 3.
    let recipe = Recipe::Fixed { length: 1, alphabet: Alphabet::Digits };
    let mut rng = seeded(42);
    let mut u = UidStore::new();
    assert_eq!(u.issue(&mut rng, recipe), "2");
    assert_eq!(u.issue(&mut rng, recipe), "7");
    assert_eq!(u.issue(&mut rng, recipe), "0");
    assert_eq!(u.issue(&mut rng, recipe), "8");
    assert_eq!(u.issue(&mut rng, recipe), "6");
    assert_eq!(u.issue(&mut rng, recipe), "9");
    assert_eq!(u.issue(&mut rng, recipe), "3");
    assert_eq!(u.size(), 7);
    let mut other = seeded(42);
    for _ in 0..12 {
        other.next_u32();
    }
    assert_eq!(rng.next_u64(), other.next_u64());
}

#[test]
fn bounded_issues_from_a_known_instant() {
    let mut rng = seeded(42);
    let mut u = UidStore::new();
    assert_eq!(u.next_u16(&mut rng), "9KO");
    assert_eq!(u.next_u16(&mut rng), "VzB");
    assert_eq!(u.next_u16(&mut rng), "ikB");
    assert_eq!(u.next_u16(&mut rng), "DWO");
}

#[test]
fn bounded_issue_passes_over_a_taken_number() {
    let mut rng = seeded(42);
    let mut u = UidStore::new();
    assert!(u.make_unique_u16(&mut rng, "9KO").is_none());
    assert_eq!(u.make_unique_u16(&mut rng, "9KO"), Some("VzB"));
    assert_eq!(u.size(), 2);
    let mut other = seeded(42);
    random_max_size(&mut other, 65535);
    random_max_size(&mut other, 65535);
    assert_eq!(rng.next_u64(), other.next_u64());
}

#[test]
fn bounded_issues_stay_in_range() {
    let mut rng = PseudoRandom::new();
    let mut u = UidStore::new();
    for _ in 0..3000 {
        assert!(uid_to_number(u.next_u16(&mut rng)).unwrap() < 65535);
        assert!(uid_to_number(u.next_u32(&mut rng)).unwrap() < 4294967295);
        assert!(uid_to_number(u.next_u64(&mut rng)).unwrap() < usize::MAX);
    }
}

#[test]
fn human_issues_hold_no_confusable_character() {
    let mut rng = PseudoRandom::new();
    let mut u = UidStore::new();
    for _ in 0..2000 {
        let id = u.next_human(&mut rng, 8).to_string();
        assert_eq!(id.len(), 8);
        for c in id.chars() {
            assert!(!"ILOSZilo0125".contains(c), "found {}", c);
        }
    }
}

#[test]
fn human_issue_from_a_known_instant() {
    let mut rng = seeded(1700000000123456789);
    let mut u = UidStore::new();
    random_string(&mut rng, 8);
    assert_eq!(u.next_human(&mut rng, 8), "WrQaEyGX");
}

#[test]
fn registering_twice_replaces_the_second() {
    let mut rng = PseudoRandom::new();
    let mut u = UidStore::new();
    assert!(u.make_unique(&mut rng, "XYZ").is_none());
    assert!(u.contains("XYZ"));
    assert_eq!(u.size(), 1);
    let replacement = u.make_unique(&mut rng, "XYZ").map(|s| s.to_string());
    assert!(replacement.is_some());
    let replacement = replacement.unwrap();
    assert_ne!(replacement, "XYZ");
    assert_eq!(replacement.len(), 3);
    assert!(u.contains(&replacement));
    assert!(u.contains("XYZ"));
    assert_eq!(u.size(), 2);
}

#[test]
fn registering_a_new_identifier_takes_no_draw() {
    let mut rng = seeded(3);
    let mut u = UidStore::new();
    assert!(u.make_unique(&mut rng, "ifh983u").is_none());
    assert!(u.make_unique(&mut rng, "Rig3hGa").is_none());
    assert!(u.make_unique_u16(&mut rng, "h84gh8A").is_none());
    assert_eq!(u.size(), 3);
    let mut untouched = seeded(3);
    assert_eq!(rng.next_u64(), untouched.next_u64());
}

#[test]
fn replacement_has_the_length_in_bytes_of_what_it_replaces() {
    let mut rng = PseudoRandom::new();
    let mut u = UidStore::new();
    let name = "\u{e9}t\u{e9}";
    assert!(u.make_unique(&mut rng, name).is_none());
    let replacement = u.make_unique(&mut rng, name).unwrap().to_string();
    assert_eq!(replacement.len(), name.len());
    assert_eq!(replacement.len(), 5);
}

#[test]
fn the_empty_identifier_is_issued_once() {
    let mut rng = seeded(9);
    let mut u = UidStore::new();
    assert_eq!(u.next(&mut rng, 0), "");
    assert!(u.contains(""));
    assert_eq!(u.size(), 1);
    let mut untouched = seeded(9);
    assert_eq!(rng.next_u64(), untouched.next_u64());
}

#[test]
fn contains_tells_issued_from_unknown() {
    let mut rng = seeded(42);
    let mut u = UidStore::new();
    let id = u.next(&mut rng, 3).to_string();
    assert_eq!(id, "CBc");
    assert!(u.contains("CBc"));
    assert!(!u.contains("CBC"));
    assert!(!u.contains("CB"));
    assert!(!u.contains("w0o"));
}

#[test]
fn issue_within_takes_the_first_new_candidate() {
    // From this instant the digits drawn are 2 7 0 8 6 2 9 2 0 9 9 3.
    let recipe = Recipe::Fixed { length: 1, alphabet: Alphabet::Digits };
    let mut rng = seeded(42);
    let mut u = UidStore::new();
    for expected in ["2", "7", "0", "8", "6"] {
        assert_eq!(u.issue_within(&mut rng, recipe, 1).map(|s| s.as_str()), Some(expected));
    }
    assert_eq!(u.size(), 5);
    // The sixth digit is in use: one attempt is not enough, three are.
    assert_eq!(u.issue_within(&mut rng, recipe, 1), None);
    assert_eq!(u.size(), 5);
    // 9 is new, and the run stops at it.
    assert_eq!(u.issue_within(&mut rng, recipe, 3).map(|s| s.as_str()), Some("9"));
    assert_eq!(u.size(), 6);
    let mut other = seeded(42);
    for _ in 0..7 {
        other.next_u32();
    }
    assert_eq!(rng.next_u64(), other.next_u64());
}

#[test]
fn issue_within_gives_up_on_a_full_store() {
    let recipe = Recipe::Fixed { length: 1, alphabet: Alphabet::Digits };
    let mut rng = seeded(42);
    let mut u = UidStore::new();
    for digit in ["0", "1", "2", "3", "4", "5", "6", "7", "8", "9"] {
        assert!(u.make_unique(&mut rng, digit).is_none());
    }
    assert_eq!(u.issue_within(&mut rng, recipe, 25), None);
    assert_eq!(u.size(), 10);
    for digit in ["0", "1", "2", "3", "4", "5", "6", "7", "8", "9"] {
        assert!(u.contains(digit));
    }
    // Each of the 25 candidates took its draw.
    let mut other = seeded(42);
    for _ in 0..25 {
        other.next_u32();
    }
    assert_eq!(rng.next_u64(), other.next_u64());
}

#[test]
fn issue_within_no_attempts_is_no_issue() {
    let mut rng = seeded(42);
    let mut u = UidStore::new();
    assert_eq!(u.issue_within(&mut rng, Recipe::Bounded { max: 65535 }, 0), None);
    assert_eq!(u.size(), 0);
    let mut untouched = seeded(42);
    assert_eq!(rng.next_u64(), untouched.next_u64());
}

#[test]
fn issue_within_agrees_with_issue() {
    let mut a = seeded(42);
    let mut b = seeded(42);
    let mut bounded = UidStore::new();
    let mut unbounded = UidStore::new();
    for _ in 0..200 {
        let recipe = Recipe::Bounded { max: 65535 };
        let one = bounded.issue_within(&mut a, recipe, 1000).map(|s| s.to_string());
        let other = unbounded.issue(&mut b, recipe).to_string();
        assert_eq!(one, Some(other));
    }
    assert_eq!(a.next_u64(), b.next_u64());
}

#[test]
fn second_registration_within_a_bound() {
    let mut rng = seeded(42);
    let mut u = UidStore::new();
    assert!(u.make_unique(&mut rng, "XYZ").is_none());
    assert!(u.contains("XYZ"));
    let recipe = Recipe::Fixed { length: "XYZ".len(), alphabet: Alphabet::Full };
    let replacement = u.issue_within(&mut rng, recipe, 10).map(|s| s.to_string());
    assert_eq!(replacement, Some("CBc".to_string()));
    assert_eq!(u.size(), 2);
}
