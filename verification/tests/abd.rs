use todc::abd::{latest, majority, LocalValue};

#[test]
fn orders_by_label_first() {
    let first = LocalValue { label: 0, value: 1 };
    let second = LocalValue { label: 1, value: 0 };
    assert!(first < second)
}

#[test]
fn orders_by_value_if_labels_match() {
    let first = LocalValue { label: 0, value: 0 };
    let second = LocalValue { label: 0, value: 1 };
    assert!(first < second)
}

#[test]
fn precedes_agrees_with_the_derived_order() {
    let values = [
        LocalValue { label: 0u32, value: 0u32 },
        LocalValue { label: 0, value: 1 },
        LocalValue { label: 1, value: 0 },
        LocalValue { label: 1, value: 7 },
        LocalValue { label: 2, value: 0 },
    ];
    for a in values.iter() {
        for b in values.iter() {
            assert_eq!(a.precedes(b), a < b);
        }
    }
}

#[test]
fn merge_keeps_the_greater_value() {
    let mut local = LocalValue { label: 1u32, value: 5u32 };
    local.merge(LocalValue { label: 0, value: 9 });
    assert_eq!(local, LocalValue { label: 1, value: 5 });
    local.merge(LocalValue { label: 1, value: 6 });
    assert_eq!(local, LocalValue { label: 1, value: 6 });
    local.merge(LocalValue { label: 2, value: 0 });
    assert_eq!(local, LocalValue { label: 2, value: 0 });
    local.merge(LocalValue { label: 2, value: 0 });
    assert_eq!(local, LocalValue { label: 2, value: 0 });
}

#[test]
fn majority_is_half_rounded_up() {
    assert_eq!(majority(0), 0);
    assert_eq!(majority(1), 1);
    assert_eq!(majority(2), 1);
    assert_eq!(majority(3), 2);
    assert_eq!(majority(4), 2);
    assert_eq!(majority(7), 4);
}

#[test]
fn latest_returns_the_greatest_reply() {
    let info = vec![
        Some(LocalValue { label: 1u32, value: 3u32 }),
        None,
        Some(LocalValue { label: 2, value: 1 }),
        Some(LocalValue { label: 2, value: 0 }),
        None,
    ];
    assert_eq!(latest(&info), Some(LocalValue { label: 2, value: 1 }));
    let none: Vec<Option<LocalValue<u32>>> = vec![None, None];
    assert_eq!(latest(&none), None);
    assert_eq!(latest(&Vec::new()), None);
}

#[test]
fn merge_keeps_the_same_value_whichever_way() {
    let a = LocalValue { label: 3u32, value: 1u32 };
    let b = LocalValue { label: 2u32, value: 9u32 };
    let mut x = a;
    x.merge(b);
    let mut y = b;
    y.merge(a);
    assert_eq!(x, y);
    assert_eq!(x, a);
}
