use font_toolkit::int_set::IntSet;

#[test]
fn insert_and_contains() {
    let mut set = IntSet::empty();
    assert!(set.is_empty());
    assert_eq!(set.first(), None);
    assert_eq!(set.last(), None);
    for v in [7, 3, 5, 4, 100, 0, u32::MAX, 6] {
        set.insert(v);
    }
    assert!(!set.is_empty());
    for v in [0, 3, 4, 5, 6, 7, 100, u32::MAX] {
        assert!(set.contains(v));
    }
    for v in [1, 2, 8, 99, 101, u32::MAX - 1] {
        assert!(!set.contains(v));
    }
    assert_eq!(set.first(), Some(0));
    assert_eq!(set.last(), Some(u32::MAX));
}

#[test]
fn insert_range_melts_neighbours() {
    let mut a = IntSet::empty();
    a.insert_range(10, 20);
    a.insert_range(30, 40);
    a.insert_range(21, 29);
    let mut b = IntSet::empty();
    b.insert_range(10, 40);
    assert_eq!(a, b);
    // An empty range adds nothing.
    a.insert_range(50, 49);
    assert_eq!(a, b);
    // A range within the set adds nothing.
    a.insert_range(15, 35);
    assert_eq!(a, b);
    // Ranges that overlap the set at both ends.
    a.insert_range(5, 12);
    a.insert_range(38, 45);
    b.insert_range(5, 45);
    assert_eq!(a, b);
    assert!(!a.contains(4) && a.contains(5) && a.contains(45) && !a.contains(46));
}

#[test]
fn equal_sets_are_equal_however_built() {
    let a = IntSet::from_values(&[1, 2, 3, 10, 11]);
    let mut b = IntSet::empty();
    b.insert(11);
    b.insert_range(1, 3);
    b.insert(10);
    assert_eq!(a, b);
    assert_eq!(a.clone(), b);
    let mut all = IntSet::empty();
    all.insert_range(0, u32::MAX);
    assert_eq!(all, IntSet::all());
}

#[test]
fn cursor_walks_down() {
    let set = IntSet::from_values(&[1, 2, 3, 10, 20, 21]);
    let mut walked = Vec::new();
    let mut cursor = set.last_cursor();
    while let Some(c) = cursor {
        walked.push(c.value());
        cursor = set.cursor_before(c);
    }
    assert_eq!(walked, vec![21, 20, 10, 3, 2, 1]);
    assert!(IntSet::empty().last_cursor().is_none());
}

fn members(set: &IntSet) -> Vec<u32> {
    let mut out = Vec::new();
    let mut cursor = set.last_cursor();
    while let Some(at) = cursor {
        out.push(at.value());
        cursor = set.cursor_before(at);
    }
    out.reverse();
    out
}

#[test]
fn ranges_at_both_ends() {
    let mut set = IntSet::empty();
    set.insert_range(100, 110);
    // Above, with a gap; next to the highest; over the highest.
    set.insert_range(120, 130);
    set.insert(131);
    set.insert_range(125, 140);
    set.insert_range(112, 119);
    // Below, with a gap; next to the lowest; over the lowest.
    set.insert_range(50, 60);
    set.insert(49);
    set.insert_range(40, 55);
    set.insert_range(61, 70);
    // Between the two ends, and over everything.
    set.insert(111);
    let mut expected: Vec<u32> = (40..=70).collect();
    expected.extend(100..=140);
    assert_eq!(members(&set), expected);
    set.insert_range(0, 200);
    assert_eq!(members(&set), (0..=200).collect::<Vec<u32>>());
    assert_eq!(set.first(), Some(0));
    assert_eq!(set.last(), Some(200));
}

#[test]
fn inserts_agree_with_an_ordered_set() {
    let mut state: u64 = 0x2545_f491_4f6c_dd1d;
    let mut step = move || {
        state = state
            .wrapping_mul(6364136223846793005)
            .wrapping_add(1442695040888963407);
        (state >> 33) as u32
    };
    let mut set = IntSet::empty();
    let mut model = std::collections::BTreeSet::new();
    for round in 0..600 {
        let lo = step() % 2000;
        if round % 3 == 0 {
            let hi = lo + step() % 12;
            set.insert_range(lo, hi);
            model.extend(lo..=hi);
        } else {
            set.insert(lo);
            model.insert(lo);
        }
        if round % 50 == 0 {
            assert_eq!(members(&set), model.iter().copied().collect::<Vec<u32>>());
        }
    }
    assert_eq!(members(&set), model.iter().copied().collect::<Vec<u32>>());
    for v in 0..2020 {
        assert_eq!(set.contains(v), model.contains(&v));
    }
}

#[test]
fn cursor_walks_up() {
    let mut set = IntSet::from_values(&[9, 3, 4, 5, 100]);
    set.insert_range(u32::MAX - 1, u32::MAX);
    let mut seen = Vec::new();
    let mut cursor = set.first_cursor();
    while let Some(at) = cursor {
        seen.push(at.value());
        cursor = set.cursor_after(at);
    }
    assert_eq!(seen, vec![3, 4, 5, 9, 100, u32::MAX - 1, u32::MAX]);
    let mut down = members(&set);
    down.reverse();
    seen.reverse();
    assert_eq!(seen, down);
    assert!(IntSet::empty().first_cursor().is_none());
}
