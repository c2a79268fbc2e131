use todc::snapshot::aad_plus_93::bounded::BoundedAtomicContents;
use todc::snapshot::aad_plus_93::unbounded::{UnboundedAtomicContents, UnboundedIntContents};
use todc::snapshot::ar_98::CompleteBinaryTree;
use todc::snapshot::{
    BoundedAtomicSnapshot, BoundedMutexSnapshot, LatticeMutexSnapshot, MutexSnapshot, Snapshot,
    UnboundedAtomicSnapshot, UnboundedMutexSnapshot,
};

#[test]
fn mutex_reads_and_writes() {
    let mut snapshot: MutexSnapshot<usize, 3> = MutexSnapshot::new();

    let view = snapshot.scan(0);
    assert_eq!(view, [0, 0, 0]);

    snapshot.update(1, 123);
    let view = snapshot.scan(1);
    assert_eq!(view, [0, 123, 0]);

    snapshot.update(2, 321);
    let view = snapshot.scan(2);
    assert_eq!(view, [0, 123, 321]);
}

#[test]
fn bounded_reads_and_writes() {
    let mut snapshot: BoundedMutexSnapshot<usize, 3> = BoundedMutexSnapshot::new();
    assert_eq!([0, 0, 0], snapshot.scan(0));
    snapshot.update(1, 11);
    snapshot.update(2, 12);
    assert_eq!([0, 11, 12], snapshot.scan(0));

    let mut snapshot: BoundedAtomicSnapshot<3> = BoundedAtomicSnapshot::new();
    assert_eq!([0, 0, 0], snapshot.scan(0));
    snapshot.update(1, 11);
    snapshot.update(2, 12);
    assert_eq!([0, 11, 12], snapshot.scan(0));
}

#[test]
fn unbounded_reads_and_writes() {
    let mut snapshot: UnboundedMutexSnapshot<usize, 3> = UnboundedMutexSnapshot::new();
    assert_eq!([0, 0, 0], snapshot.scan(0));
    snapshot.update(1, 11);
    snapshot.update(2, 12);
    assert_eq!([0, 11, 12], snapshot.scan(0));

    let mut snapshot: UnboundedAtomicSnapshot<3> = UnboundedAtomicSnapshot::new();
    assert_eq!([0, 0, 0], snapshot.scan(0));
    snapshot.update(1, 11);
    snapshot.update(2, 12);
    assert_eq!([0, 11, 12], snapshot.scan(0));
}

#[test]
fn ar_98_reads_and_writes() {
    let mut snapshot: LatticeMutexSnapshot<usize, 3, 16> = LatticeMutexSnapshot::new();
    assert_eq!([0, 0, 0], snapshot.scan(0));
    snapshot.update(1, 1);
    snapshot.update(2, 2);
    assert_eq!([0, 1, 2], snapshot.scan(0));
    snapshot.update(0, 10);
    snapshot.update(1, 11);
    snapshot.update(2, 12);
    assert_eq!([10, 11, 12], snapshot.scan(0));
}

#[test]
fn lattice_snapshot_serves_m_operations() {
    let mut snapshot: LatticeMutexSnapshot<u32, 2, 8> = LatticeMutexSnapshot::new();
    for round in 0..4u32 {
        snapshot.update(0, round);
        assert_eq!([round, 0], snapshot.scan(1));
    }
}

#[test]
fn snapshots_agree_on_the_same_operations() {
    let mut mutex: MutexSnapshot<usize, 4> = MutexSnapshot::new();
    let mut bounded: BoundedMutexSnapshot<usize, 4> = BoundedMutexSnapshot::new();
    let mut unbounded: UnboundedMutexSnapshot<usize, 4> = UnboundedMutexSnapshot::new();
    let mut lattice: LatticeMutexSnapshot<usize, 4, 64> = LatticeMutexSnapshot::new();
    for step in 0..12usize {
        let i = step % 4;
        let value = step * 7 + 1;
        mutex.update(i, value);
        bounded.update(i, value);
        unbounded.update(i, value);
        lattice.update(i, value);
        let expected = mutex.scan((step + 1) % 4);
        assert_eq!(expected, bounded.scan((step + 1) % 4));
        assert_eq!(expected, unbounded.scan((step + 1) % 4));
        assert_eq!(expected, lattice.scan((step + 1) % 4));
    }
}

#[test]
fn decodes_if_two_threads() {
    let contents = UnboundedIntContents {
        value: 200,
        view: [1, 2],
        sequence: 10_000,
    };
    let encoding: u64 = contents.clone().into();
    assert_eq!(contents, UnboundedIntContents::from(encoding));
}

#[test]
fn decodes_if_three_threads() {
    let contents = UnboundedIntContents {
        value: 200,
        view: [1, 2, 3],
        sequence: 10_000,
    };
    let encoding: u64 = contents.clone().into();
    assert_eq!(contents, UnboundedIntContents::from(encoding));
}

#[test]
fn decodes_if_four_threads() {
    let contents = UnboundedIntContents {
        value: 200,
        view: [1, 2, 3, 4],
        sequence: 10_000,
    };
    let encoding: u64 = contents.clone().into();
    assert_eq!(contents, UnboundedIntContents::from(encoding));
}

#[test]
fn decodes_if_five_threads() {
    let contents = UnboundedIntContents {
        value: 200,
        view: [1, 2, 3, 4, 5],
        sequence: 10_000,
    };
    let encoding: u64 = contents.clone().into();
    assert_eq!(contents, UnboundedIntContents::from(encoding));
}

#[test]
fn encodes_if_two_threads() {
    let mut contents: UnboundedIntContents<2> = UnboundedIntContents::default();
    contents.value = 0b00100100;
    contents.view = [0b10000001, 0b10000000];
    contents.sequence = 0b11000000_11000000;
    let actual: u64 = contents.into();
    let expected: u64 = 0b00000000_00000000_00000000_11000000_11000000_10000000_10000001_00100100;
    assert_eq!(actual, expected);
}

#[test]
fn encodes_if_three_threads() {
    let mut contents: UnboundedIntContents<3> = UnboundedIntContents::default();
    contents.value = 0b00100100;
    contents.view = [0b10000011, 0b10000001, 0b10000000];
    contents.sequence = 0b11000000_11000000;
    let actual: u64 = contents.into();
    let expected: u64 = 0b00000000_00000000_11000000_11000000_10000000_10000001_10000011_00100100;
    assert_eq!(actual, expected);
}

#[test]
fn encodes_if_four_threads() {
    let mut contents: UnboundedIntContents<4> = UnboundedIntContents::default();
    contents.value = 0b00100100;
    contents.view = [0b10000111, 0b10000011, 0b10000001, 0b10000000];
    contents.sequence = 0b11000000_11000000;
    let actual: u64 = contents.into();
    let expected: u64 = 0b00000000_11000000_11000000_10000000_10000001_10000011_10000111_00100100;
    assert_eq!(actual, expected);
}

#[test]
fn encodes_if_five_threads() {
    let mut contents: UnboundedIntContents<5> = UnboundedIntContents::default();
    contents.value = 0b00100100;
    contents.view = [0b10001111, 0b10000111, 0b10000011, 0b10000001, 0b10000000];
    contents.sequence = 0b11000000_11000000;
    let actual: u64 = contents.into();
    let expected: u64 = 0b11000000_11000000_10000000_10000001_10000011_10000111_10001111_00100100;
    assert_eq!(actual, expected);
}

#[test]
fn decodes_if_two_processes() {
    let contents = UnboundedAtomicContents {
        value: 200,
        view: [1, 2],
        sequence: 10_000,
    };
    let encoding: u64 = contents.into();
    assert_eq!(contents, UnboundedAtomicContents::from(encoding));
}

#[test]
fn decodes_if_three_processes() {
    let contents = UnboundedAtomicContents {
        value: 200,
        view: [1, 2, 3],
        sequence: 10_000,
    };
    let encoding: u64 = contents.into();
    assert_eq!(contents, UnboundedAtomicContents::from(encoding));
}

#[test]
fn decodes_if_four_processes() {
    let contents = UnboundedAtomicContents {
        value: 200,
        view: [1, 2, 3, 4],
        sequence: 10_000,
    };
    let encoding: u64 = contents.into();
    assert_eq!(contents, UnboundedAtomicContents::from(encoding));
}

#[test]
fn decodes_if_five_processes() {
    let contents = UnboundedAtomicContents {
        value: 200,
        view: [1, 2, 3, 4, 5],
        sequence: 10_000,
    };
    let encoding: u64 = contents.into();
    assert_eq!(contents, UnboundedAtomicContents::from(encoding));
}

#[test]
fn default_zeroes_for_one_to_five_processes() {
    let actual: u64 = UnboundedAtomicContents::<1>::default().into();
    assert_eq!(actual, 0);
    let actual: u64 = UnboundedAtomicContents::<2>::default().into();
    assert_eq!(actual, 0);
    let actual: u64 = UnboundedAtomicContents::<3>::default().into();
    assert_eq!(actual, 0);
    let actual: u64 = UnboundedAtomicContents::<4>::default().into();
    assert_eq!(actual, 0);
    let actual: u64 = UnboundedAtomicContents::<5>::default().into();
    assert_eq!(actual, 0);
}

#[test]
fn encodes_if_two_processes() {
    let contents: UnboundedAtomicContents<2> = UnboundedAtomicContents {
        value: 0b00100100,
        view: [0b10000001, 0b10000000],
        sequence: 0b11000000_11000000,
    };
    let actual: u64 = contents.into();
    let expected: u64 = 0b00000000_00000000_00000000_11000000_11000000_10000000_10000001_00100100;
    assert_eq!(actual, expected);
}

#[test]
fn encodes_if_three_processes() {
    let contents: UnboundedAtomicContents<3> = UnboundedAtomicContents {
        value: 0b00100100,
        view: [0b10000011, 0b10000001, 0b10000000],
        sequence: 0b11000000_11000000,
    };
    let actual: u64 = contents.into();
    let expected: u64 = 0b00000000_00000000_11000000_11000000_10000000_10000001_10000011_00100100;
    assert_eq!(actual, expected);
}

#[test]
fn encodes_if_four_processes() {
    let contents: UnboundedAtomicContents<4> = UnboundedAtomicContents {
        value: 0b00100100,
        view: [0b10000111, 0b10000011, 0b10000001, 0b10000000],
        sequence: 0b11000000_11000000,
    };
    let actual: u64 = contents.into();
    let expected: u64 = 0b00000000_11000000_11000000_10000000_10000001_10000011_10000111_00100100;
    assert_eq!(actual, expected);
}

#[test]
fn encodes_if_five_processes() {
    let contents: UnboundedAtomicContents<5> = UnboundedAtomicContents {
        value: 0b00100100,
        view: [0b10001111, 0b10000111, 0b10000011, 0b10000001, 0b10000000],
        sequence: 0b11000000_11000000,
    };
    let actual: u64 = contents.into();
    let expected: u64 = 0b11000000_11000000_10000000_10000001_10000011_10000111_10001111_00100100;
    assert_eq!(actual, expected);
}

#[test]
fn encodes_default_as_zeros() {
    let actual: u64 = BoundedAtomicContents::<6>::default().into();
    let expected: u64 = 0;
    assert_eq!(actual, expected);
}

#[test]
fn decodes_zeroes_as_default() {
    let actual: BoundedAtomicContents<6> = 0.into();
    let expected: BoundedAtomicContents<6> = BoundedAtomicContents::default();
    assert_eq!(actual, expected);
}

#[test]
fn encodes_to_u64_correctly() {
    let contents: BoundedAtomicContents<6> = BoundedAtomicContents::<6> {
        value: 0b00100100,
        view: [
            0b10011111, 0b10001111, 0b10000111, 0b10000011, 0b10000001, 0b10000000,
        ],
        handshakes: [true, false, true, false, true, false],
        toggle: true,
    };
    let actual: u64 = contents.into();
    let expected: u64 = 0b10010101_10000000_10000001_10000011_10000111_10001111_10011111_00100100;
    assert_eq!(actual, expected);
}

#[test]
fn decodes_from_u64_correctly() {
    let contents = BoundedAtomicContents {
        value: 200,
        view: [1, 2, 3, 4, 5, 6],
        handshakes: [true, false, false, false, false, true],
        toggle: false,
    };
    let encoding: u64 = contents.into();
    assert_eq!(contents, BoundedAtomicContents::from(encoding));
}

#[test]
fn bounded_contents_round_trip_for_small_counts() {
    let contents = BoundedAtomicContents {
        value: 255,
        view: [255],
        handshakes: [true],
        toggle: true,
    };
    let encoding: u64 = contents.into();
    assert_eq!(encoding >> 63, 1);
    assert_eq!(contents, BoundedAtomicContents::from(encoding));
}

#[test]
fn ar_98_test_leaf_has_level_one() {
    assert_eq!(CompleteBinaryTree::Leaf(1).level(), 1)
}

#[test]
fn ar_98_test_root_has_same_level_as_height() {
    assert_eq!(CompleteBinaryTree::<usize>::new(10).level(), 10);
}

#[test]
fn ar_98_test_child_has_one_fewer_level() {
    let root = CompleteBinaryTree::<usize>::new(3);
    let expected = root.level() - 1;
    if let CompleteBinaryTree::Node(_, left, right) = root {
        assert_eq!(left.level(), expected);
        assert_eq!(right.level(), expected);
    }
}
