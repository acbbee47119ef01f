use koutput_reads::sequencer::Sequencer;

fn block(n: u8) -> Vec<u8> {
    vec![n, n, n]
}

#[test]
fn blocks_in_order_are_released_at_once() {
    let s = Sequencer::new();
    assert_eq!(s.next_number(), 0);
    let (s, out) = s.push(0, block(0));
    assert_eq!(out, vec![block(0)]);
    let (s, out) = s.push(1, block(1));
    assert_eq!(out, vec![block(1)]);
    assert_eq!(s.next_number(), 2);
    assert_eq!(s.waiting_count(), 0);
}

#[test]
fn block_that_comes_early_waits_for_its_turn() {
    let s = Sequencer::new();
    let (s, out) = s.push(2, block(2));
    assert!(out.is_empty());
    let (s, out) = s.push(1, block(1));
    assert!(out.is_empty());
    assert_eq!(s.waiting_count(), 2);
    assert_eq!(s.next_number(), 0);
    let (s, out) = s.push(0, block(0));
    assert_eq!(out, vec![block(0), block(1), block(2)]);
    assert_eq!(s.next_number(), 3);
    assert_eq!(s.waiting_count(), 0);
}

#[test]
fn release_stops_at_the_first_gap() {
    let s = Sequencer::new();
    let (s, _) = s.push(1, block(1));
    let (s, _) = s.push(3, block(3));
    let (s, _) = s.push(4, block(4));
    let (s, out) = s.push(0, block(0));
    assert_eq!(out, vec![block(0), block(1)]);
    assert_eq!(s.next_number(), 2);
    assert_eq!(s.waiting_count(), 2);
    let (s, out) = s.push(2, block(2));
    assert_eq!(out, vec![block(2), block(3), block(4)]);
    assert_eq!(s.next_number(), 5);
    assert_eq!(s.waiting_count(), 0);
}

#[test]
fn any_order_of_arrival_gives_the_order_of_reading() {
    let arrivals: [u64; 8] = [5, 2, 7, 0, 1, 3, 6, 4];
    let mut s = Sequencer::new();
    let mut written: Vec<Vec<u8>> = Vec::new();
    for n in arrivals {
        let (next, out) = s.push(n, block(n as u8));
        s = next;
        written.extend(out);
    }
    let expected: Vec<Vec<u8>> = (0..8u8).map(block).collect();
    assert_eq!(written, expected);
    assert_eq!(s.next_number(), 8);
}

#[test]
fn block_whose_turn_has_passed_is_dropped() {
    let s = Sequencer::new();
    let (s, _) = s.push(0, block(0));
    let (s, out) = s.push(0, block(9));
    assert!(out.is_empty());
    assert_eq!(s.next_number(), 1);
    assert_eq!(s.waiting_count(), 0);
}

#[test]
fn second_block_under_a_waiting_number_is_dropped() {
    let s = Sequencer::new();
    let (s, _) = s.push(1, block(1));
    let (s, out) = s.push(1, block(9));
    assert!(out.is_empty());
    assert_eq!(s.waiting_count(), 1);
    let (_, out) = s.push(0, block(0));
    assert_eq!(out, vec![block(0), block(1)]);
}

#[test]
fn block_with_the_last_number_is_dropped() {
    let s = Sequencer::new();
    let (s, out) = s.push(u64::MAX, block(1));
    assert!(out.is_empty());
    assert_eq!(s.waiting_count(), 0);
    let (s, out) = s.push(u64::MAX - 1, block(2));
    assert!(out.is_empty());
    assert_eq!(s.waiting_count(), 1);
}
