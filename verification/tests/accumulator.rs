use ordered_batch::accumulator::{PrefixAccumulator, WriteError, UNSET};

#[test]
fn new_accumulator_has_no_total() {
    let acc = PrefixAccumulator::new(4);
    assert_eq!(acc.len(), 4);
    assert_eq!(acc.current_total(), 0);
    assert_eq!(acc.frontier(), 0);
    assert_eq!(acc.written_total(), Some(0));
}

#[test]
fn accumulator_without_positions_takes_no_write() {
    let mut acc = PrefixAccumulator::new(0);
    assert_eq!(acc.len(), 0);
    assert_eq!(acc.try_write(0, 1), Err(WriteError::OutOfRange));
    assert_eq!(acc.current_total(), 0);
    assert_eq!(acc.frontier(), 0);
}

#[test]
fn writes_in_position_order_add_up() {
    let mut acc = PrefixAccumulator::new(4);
    let mut totals = Vec::new();
    for position in 0..4 {
        acc.write(position, 3);
        totals.push(acc.current_total());
    }
    assert_eq!(totals, vec![3, 6, 9, 12]);
    assert_eq!(acc.frontier(), 4);
}

#[test]
fn hole_beyond_the_frontier_is_not_counted() {
    let mut acc = PrefixAccumulator::new(4);
    assert_eq!(acc.try_write(2, 50), Ok(()));
    assert_eq!(acc.current_total(), 0);
    assert_eq!(acc.frontier(), 0);
    assert_eq!(acc.try_write(0, 7), Ok(()));
    assert_eq!(acc.current_total(), 7);
    assert_eq!(acc.frontier(), 1);
    assert_eq!(acc.written_total(), Some(57));
}

#[test]
fn filling_the_gap_counts_everything_it_unblocks() {
    let mut acc = PrefixAccumulator::new(5);
    assert_eq!(acc.try_write(1, 10), Ok(()));
    assert_eq!(acc.try_write(2, 20), Ok(()));
    assert_eq!(acc.try_write(4, 40), Ok(()));
    assert_eq!(acc.current_total(), 0);
    assert_eq!(acc.try_write(0, 1), Ok(()));
    assert_eq!(acc.current_total(), 31);
    assert_eq!(acc.frontier(), 3);
    assert_eq!(acc.try_write(3, 30), Ok(()));
    assert_eq!(acc.current_total(), 101);
    assert_eq!(acc.frontier(), 5);
}

#[test]
fn writes_in_reverse_order_count_only_at_the_end() {
    let mut acc = PrefixAccumulator::new(4);
    for position in [3, 2, 1] {
        assert_eq!(acc.try_write(position, position + 1), Ok(()));
        assert_eq!(acc.current_total(), 0);
        assert_eq!(acc.frontier(), 0);
    }
    assert_eq!(acc.try_write(0, 1), Ok(()));
    assert_eq!(acc.current_total(), 1 + 2 + 3 + 4);
    assert_eq!(acc.frontier(), 4);
}

#[test]
fn total_after_all_writes_is_the_sum_in_any_order() {
    let values = [5usize, 0, 17, 3, 8, 1];
    let orders: [[usize; 6]; 4] =
        [[0, 1, 2, 3, 4, 5], [5, 4, 3, 2, 1, 0], [2, 0, 5, 1, 4, 3], [1, 3, 5, 0, 2, 4]];
    for order in orders {
        let mut acc = PrefixAccumulator::new(values.len());
        let mut last = 0;
        for position in order {
            assert_eq!(acc.try_write(position, values[position]), Ok(()));
            assert!(acc.current_total() >= last);
            last = acc.current_total();
        }
        assert_eq!(acc.current_total(), 34);
        assert_eq!(acc.written_total(), Some(34));
        assert_eq!(acc.frontier(), values.len());
    }
}

#[test]
fn frontier_is_the_longest_written_prefix() {
    let cases: [(&[usize], usize); 6] =
        [(&[], 0), (&[1, 2, 3], 0), (&[0], 1), (&[0, 1, 3], 2), (&[4, 0, 2, 1], 3), (&[4, 3, 2, 1, 0], 5)];
    for (written, frontier) in cases {
        let mut acc = PrefixAccumulator::new(5);
        for &position in written {
            assert_eq!(acc.try_write(position, 1), Ok(()));
        }
        assert_eq!(acc.frontier(), frontier);
        assert_eq!(acc.current_total(), frontier);
        assert_eq!(acc.written_total(), Some(written.len()));
    }
}

#[test]
fn second_write_to_a_position_is_rejected() {
    let mut acc = PrefixAccumulator::new(3);
    assert_eq!(acc.try_write(1, 7), Ok(()));
    assert_eq!(acc.try_write(1, 7), Err(WriteError::AlreadyWritten));
    assert_eq!(acc.try_write(1, 9), Err(WriteError::AlreadyWritten));
    assert_eq!(acc.try_write(1, 0), Err(WriteError::AlreadyWritten));
    assert_eq!(acc.try_write(1, UNSET), Err(WriteError::AlreadyWritten));
    assert_eq!(acc.try_write(0, 2), Ok(()));
    assert_eq!(acc.try_write(0, 2), Err(WriteError::AlreadyWritten));
    assert_eq!(acc.current_total(), 9);
}

#[test]
fn zero_is_a_value_like_any_other() {
    let mut acc = PrefixAccumulator::new(2);
    assert_eq!(acc.try_write(0, 0), Ok(()));
    assert_eq!(acc.frontier(), 1);
    assert_eq!(acc.current_total(), 0);
    assert_eq!(acc.try_write(0, 0), Err(WriteError::AlreadyWritten));
}

#[test]
fn position_outside_the_accumulator_is_rejected() {
    let mut acc = PrefixAccumulator::new(3);
    assert_eq!(acc.try_write(3, 1), Err(WriteError::OutOfRange));
    assert_eq!(acc.try_write(usize::MAX, 1), Err(WriteError::OutOfRange));
    assert_eq!(acc.try_write(3, UNSET), Err(WriteError::OutOfRange));
    assert_eq!(acc.written_total(), Some(0));
}

#[test]
fn reserved_value_is_rejected() {
    let mut acc = PrefixAccumulator::new(3);
    assert_eq!(UNSET, usize::MAX);
    assert_eq!(acc.try_write(0, usize::MAX), Err(WriteError::ReservedValue));
    assert_eq!(acc.try_write(2, usize::MAX), Err(WriteError::ReservedValue));
    assert_eq!(acc.frontier(), 0);
    assert_eq!(acc.try_write(0, usize::MAX - 1), Ok(()));
    assert_eq!(acc.current_total(), usize::MAX - 1);
}

#[test]
fn total_that_does_not_fit_is_rejected() {
    let mut acc = PrefixAccumulator::new(3);
    assert_eq!(acc.try_write(0, usize::MAX - 1), Ok(()));
    assert_eq!(acc.try_write(1, 2), Err(WriteError::Overflow));
    assert_eq!(acc.current_total(), usize::MAX - 1);
    assert_eq!(acc.frontier(), 1);
    assert_eq!(acc.try_write(1, 1), Ok(()));
    assert_eq!(acc.current_total(), usize::MAX);
    assert_eq!(acc.try_write(2, 0), Ok(()));
    assert_eq!(acc.current_total(), usize::MAX);
    assert_eq!(acc.frontier(), 3);
}

#[test]
fn overflow_is_found_behind_the_written_position() {
    let mut acc = PrefixAccumulator::new(4);
    assert_eq!(acc.try_write(1, 10), Ok(()));
    assert_eq!(acc.try_write(2, usize::MAX - 12), Ok(()));
    // A hole write never overflows the prefix: the prefix does not reach it.
    assert_eq!(acc.current_total(), 0);
    assert_eq!(acc.written_total(), Some(usize::MAX - 2));
    assert_eq!(acc.try_write(0, 3), Err(WriteError::Overflow));
    assert_eq!(acc.current_total(), 0);
    assert_eq!(acc.frontier(), 0);
    assert_eq!(acc.try_write(0, 2), Ok(()));
    assert_eq!(acc.current_total(), usize::MAX);
    assert_eq!(acc.frontier(), 3);
}

#[test]
fn rejected_write_changes_nothing() {
    let mut acc = PrefixAccumulator::new(3);
    assert_eq!(acc.try_write(0, 4), Ok(()));
    assert_eq!(acc.try_write(2, 6), Ok(()));
    for (position, value) in [(0, 1), (2, 1), (3, 1), (1, usize::MAX), (1, usize::MAX - 3)] {
        assert!(acc.try_write(position, value).is_err());
        assert_eq!(acc.current_total(), 4);
        assert_eq!(acc.frontier(), 1);
        assert_eq!(acc.written_total(), Some(10));
        assert_eq!(acc.len(), 3);
    }
    assert_eq!(acc.try_write(1, 5), Ok(()));
    assert_eq!(acc.current_total(), 15);
}

#[test]
fn written_total_counts_the_holes_too() {
    let mut acc = PrefixAccumulator::new(4);
    acc.write(3, 9);
    acc.write(1, 4);
    assert_eq!(acc.current_total(), 0);
    assert_eq!(acc.written_total(), Some(13));
}

#[test]
fn written_total_that_does_not_fit_is_none() {
    let mut acc = PrefixAccumulator::new(4);
    assert_eq!(acc.try_write(1, usize::MAX - 1), Ok(()));
    assert_eq!(acc.try_write(3, 2), Ok(()));
    assert_eq!(acc.written_total(), None);
    assert_eq!(acc.current_total(), 0);
}
