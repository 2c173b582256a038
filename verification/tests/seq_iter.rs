use remda::random::Random;
use remda::seq_iter::SeqBuffer;

fn deliver(arrivals: &[(usize, u32)]) -> Vec<u32> {
    let mut buffer = SeqBuffer::new();
    let mut out = Vec::new();
    for &(index, item) in arrivals {
        out.extend(buffer.accept(index, item));
    }
    out
}

#[test]
fn a_new_buffer_expects_the_first_item() {
    let buffer: SeqBuffer<u32> = SeqBuffer::new();
    assert_eq!(buffer.next_index(), Some(0));
    assert_eq!(buffer.held(), 0);
}

#[test]
fn items_in_order_leave_at_once() {
    let mut buffer = SeqBuffer::new();
    assert_eq!(buffer.accept(0, 'a'), vec!['a']);
    assert_eq!(buffer.accept(1, 'b'), vec!['b']);
    assert_eq!(buffer.accept(2, 'c'), vec!['c']);
    assert_eq!(buffer.next_index(), Some(3));
    assert_eq!(buffer.held(), 0);
}

#[test]
fn an_early_item_is_held_back() {
    let mut buffer = SeqBuffer::new();
    assert_eq!(buffer.accept(1, 'b'), Vec::<char>::new());
    assert_eq!(buffer.held(), 1);
    assert_eq!(buffer.next_index(), Some(0));
    assert_eq!(buffer.accept(0, 'a'), vec!['a', 'b']);
    assert_eq!(buffer.held(), 0);
    assert_eq!(buffer.next_index(), Some(2));
}

#[test]
fn a_gap_stops_the_run() {
    let mut buffer = SeqBuffer::new();
    assert_eq!(buffer.accept(3, 'd'), Vec::<char>::new());
    assert_eq!(buffer.accept(1, 'b'), Vec::<char>::new());
    assert_eq!(buffer.accept(0, 'a'), vec!['a', 'b']);
    assert_eq!(buffer.held(), 1);
    assert_eq!(buffer.accept(2, 'c'), vec!['c', 'd']);
    assert_eq!(buffer.next_index(), Some(4));
}

#[test]
fn reversed_arrivals_leave_in_order_at_the_last() {
    let mut buffer = SeqBuffer::new();
    let count = 100;
    for index in (1..count).rev() {
        assert_eq!(buffer.accept(index, index * 10), Vec::<usize>::new());
    }
    assert_eq!(buffer.held(), count - 1);
    let out = buffer.accept(0, 0);
    assert_eq!(out, (0..count).map(|index| index * 10).collect::<Vec<_>>());
    assert_eq!(buffer.held(), 0);
    assert_eq!(buffer.next_index(), Some(count));
}

#[test]
fn any_order_of_arrival_gives_the_order_of_the_indices() {
    for _ in 0..50 {
        let mut order: Vec<usize> = (0..64).collect();
        Random::shuffle(&mut order);
        let arrivals: Vec<(usize, u32)> =
            order.iter().map(|&index| (index, 1000 + index as u32)).collect();
        assert_eq!(deliver(&arrivals), (0..64).map(|index| 1000 + index).collect::<Vec<u32>>());
    }
}

#[test]
fn interleaved_arrivals() {
    let arrivals = [(2, 2), (0, 0), (4, 4), (1, 1), (5, 5), (3, 3)];
    assert_eq!(deliver(&arrivals), vec![0, 1, 2, 3, 4, 5]);
}

#[test]
fn an_item_that_comes_a_second_time_waits_behind_the_first() {
    let mut buffer = SeqBuffer::new();
    assert_eq!(buffer.accept(1, 'x'), Vec::<char>::new());
    assert_eq!(buffer.accept(1, 'y'), Vec::<char>::new());
    assert_eq!(buffer.accept(0, 'a'), vec!['a', 'x']);
    assert_eq!(buffer.held(), 1);
    assert_eq!(buffer.next_index(), Some(2));
    assert_eq!(buffer.accept(2, 'c'), Vec::<char>::new());
    assert_eq!(buffer.held(), 2);
}

#[test]
fn the_largest_index_ends_the_sequence() {
    let mut buffer = SeqBuffer::new();
    assert_eq!(buffer.accept(usize::MAX, 'z'), Vec::<char>::new());
    assert_eq!(buffer.held(), 1);
    assert_eq!(buffer.next_index(), Some(0));
}
