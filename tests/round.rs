#[test]
fn div_round_up() {
    assert_eq!(parttable::div_round_up(42, 10), 5);
}

#[test]
fn div_round_up_aligned() {
    assert_eq!(parttable::div_round_up(42, 14), 3);
}

#[test]
fn div_round_up_one_aligned() {
    assert_eq!(parttable::div_round_up(42, 1), 42);
}

#[test]
fn round_up() {
    assert_eq!(parttable::round_up(42, 10), 50);
}

#[test]
fn round_up_already_aligned() {
    assert_eq!(parttable::round_up(42, 14), 42);
}

#[test]
fn round_up_one_aligned() {
    assert_eq!(parttable::round_up(42, 1), 42);
}

#[test]
fn round_down() {
    assert_eq!(parttable::round_down(42, 10), 40);
}

#[test]
fn round_down_already_aligned() {
    assert_eq!(parttable::round_down(42, 14), 42);
}

#[test]
fn round_down_one_aligned() {
    assert_eq!(parttable::round_down(42, 1), 42);
}

#[test]
fn start_end_to_size() {
    assert_eq!(parttable::start_end_to_size(10, 19), 10);
}

#[test]
fn start_end_to_size_start_equal_end() {
    assert_eq!(parttable::start_end_to_size(10, 10), 1);
}

#[test]
fn start_end_to_size_zero_zero() {
    assert_eq!(parttable::start_end_to_size(0, 0), 1);
}

#[test]
fn start_size_to_end() {
    assert_eq!(parttable::start_size_to_end(10, 10), 19);
}

#[test]
fn start_size_to_end_one_size() {
    assert_eq!(parttable::start_size_to_end(10, 1), 10);
}

#[test]
fn size_end_to_start() {
    assert_eq!(parttable::size_end_to_start(10, 19), 10);
}

#[test]
fn size_end_to_start_zero_start() {
    assert_eq!(parttable::size_end_to_start(10, 9), 0);
}

#[test]
fn rounding_edge_values() {
    assert_eq!(parttable::round_down(0, 7), 0);
    assert_eq!(parttable::round_up(0, 7), 0);
    assert_eq!(parttable::div_round_up(0, 7), 0);
    assert_eq!(parttable::div_round_up(usize::MAX, 2), usize::MAX / 2 + 1);
    assert_eq!(parttable::div_round_up(1, 512), 1);
    assert_eq!(parttable::div_round_up(513, 512), 2);
    assert_eq!(parttable::round_up(usize::MAX - 1, 2), usize::MAX - 1);
}

#[test]
fn range_conversions_agree() {
    let end = parttable::start_size_to_end(34, 100);
    assert_eq!(end, 133);
    assert_eq!(parttable::start_end_to_size(34, end), 100);
    assert_eq!(parttable::size_end_to_start(100, end), 34);
}
