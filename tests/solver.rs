use parttable::{build_layout, LayoutError, PartitionLayout, PartitionLayoutHint};

fn hint(offset: Option<usize>, size: Option<usize>) -> PartitionLayoutHint {
    PartitionLayoutHint { offset_lba: offset, size_lba: size }
}

fn mixed_request() -> Vec<PartitionLayoutHint> {
    vec![
        hint(None, Some(10)),
        hint(Some(20), Some(5)),
        hint(None, None),
        hint(None, Some(7)),
        hint(Some(900), Some(50)),
        hint(None, Some(3)),
    ]
}

#[test]
fn solver_is_deterministic() {
    let a = build_layout(4, 999, &mixed_request());
    let b = build_layout(4, 999, &mixed_request());
    assert_eq!(a, b);
    assert!(a.is_ok());
}

#[test]
fn solver_mixed_request_exact_ranges() {
    let v = build_layout(4, 999, &mixed_request()).unwrap();
    let got: Vec<(usize, usize)> = v.iter().map(|l| (l.start_lba, l.end_lba)).collect();
    assert_eq!(
        got,
        vec![(4, 13), (20, 24), (25, 892), (893, 899), (900, 949), (997, 999)]
    );
}

#[test]
fn solver_no_overlap_and_bounds() {
    let requests = vec![
        mixed_request(),
        vec![hint(None, Some(1)), hint(None, Some(1)), hint(None, None)],
        vec![hint(None, None), hint(None, Some(1))],
        vec![hint(Some(500), None)],
    ];
    for req in requests {
        let v = build_layout(10, 1000, &req).unwrap();
        assert_eq!(v.len(), req.len());
        for w in v.windows(2) {
            assert!(w[0].end_lba < w[1].start_lba);
        }
        for l in &v {
            assert!(10 <= l.start_lba && l.start_lba <= l.end_lba && l.end_lba <= 1000);
        }
    }
}

#[test]
fn solver_two_unsized_always_refused() {
    for req in [
        vec![hint(None, None), hint(None, None)],
        vec![hint(Some(5), None), hint(None, Some(1)), hint(None, None)],
        vec![hint(None, None), hint(None, None), hint(None, None)],
    ] {
        assert_eq!(build_layout(0, 1_000_000, &req), Err(LayoutError::MultipleUnsizedPartitions));
    }
}

#[test]
fn solver_single_unsized_takes_the_rest() {
    let req = vec![hint(None, Some(100)), hint(None, None), hint(None, Some(200))];
    let v = build_layout(34, 999, &req).unwrap();
    let size = v[1].end_lba - v[1].start_lba + 1;
    assert_eq!(size, (999 - 34 + 1) - 300);
    assert_eq!(v[1].start_lba, v[0].end_lba + 1);
    assert_eq!(v[1].end_lba + 1, v[2].start_lba);
}

#[test]
fn solver_device_too_small() {
    assert_eq!(build_layout(10, 9, &[]), Err(LayoutError::DeviceTooSmall));
    assert_eq!(
        build_layout(10, 9, &[hint(None, None), hint(None, None)]),
        Err(LayoutError::DeviceTooSmall)
    );
    assert_eq!(build_layout(10, 10, &[hint(None, None)]).unwrap(), vec![PartitionLayout { start_lba: 10, end_lba: 10 }]);
}

#[test]
fn solver_rejects_empty_and_oversized_partitions() {
    assert_eq!(build_layout(0, 100, &[hint(None, Some(0))]), Err(LayoutError::OverlapOrOutOfRange));
    assert_eq!(build_layout(0, 100, &[hint(None, Some(102))]), Err(LayoutError::OverlapOrOutOfRange));
    assert_eq!(
        build_layout(0, 100, &[hint(None, None), hint(None, Some(102))]),
        Err(LayoutError::OverlapOrOutOfRange)
    );
    assert_eq!(
        build_layout(0, 100, &[hint(None, Some(50)), hint(None, None), hint(None, Some(51))]),
        Err(LayoutError::OverlapOrOutOfRange)
    );
    assert_eq!(
        build_layout(10, 100, &[hint(Some(5), Some(10))]),
        Err(LayoutError::OverlapOrOutOfRange)
    );
    assert_eq!(
        build_layout(10, 100, &[hint(Some(50), None), hint(Some(40), Some(5))]),
        Err(LayoutError::OverlapOrOutOfRange)
    );
}

#[test]
fn solver_handles_the_top_of_the_range() {
    let max = usize::MAX;
    let v = build_layout(0, max, &[hint(None, Some(10)), hint(None, None)]).unwrap();
    assert_eq!(v[1], PartitionLayout { start_lba: 10, end_lba: max });
    let v = build_layout(0, max, &[hint(Some(max), Some(1))]).unwrap();
    assert_eq!(v[0], PartitionLayout { start_lba: max, end_lba: max });
    assert_eq!(
        build_layout(0, max, &[hint(Some(max), Some(2))]),
        Err(LayoutError::OverlapOrOutOfRange)
    );
    assert_eq!(
        build_layout(0, max, &[hint(Some(max), Some(1)), hint(None, Some(1))]),
        Err(LayoutError::OverlapOrOutOfRange)
    );
}
