use loro_core::value::{ContainerID, LoroValue, MapEntry, ValueError, MAX_DEPTH};

fn nested_list(depth: usize) -> LoroValue {
    let mut v = LoroValue::Null;
    let mut i = 0;
    while i < depth {
        v = LoroValue::List(vec![v]);
        i += 1;
    }
    v
}

#[test]
fn depth_of_leaves_is_zero() {
    assert_eq!(LoroValue::Null.get_depth(), 0);
    assert_eq!(LoroValue::Bool(true).get_depth(), 0);
    assert_eq!(LoroValue::I64(-3).get_depth(), 0);
    assert_eq!(LoroValue::String(String::from("abc")).get_depth(), 0);
}

#[test]
fn depth_counts_nesting() {
    assert_eq!(nested_list(1).get_depth(), 1);
    assert_eq!(nested_list(5).get_depth(), 5);
    let m = LoroValue::Dict(vec![MapEntry { key: String::from("k"), value: nested_list(2) }]);
    assert_eq!(m.get_depth(), 3);
}

#[test]
fn depth_bound_is_exact_at_the_boundary() {
    let ok = nested_list(MAX_DEPTH);
    assert!(!ok.is_too_deep());
    assert_eq!(ok.check_depth(), Ok(()));
    let too_deep = nested_list(MAX_DEPTH + 1);
    assert!(too_deep.is_too_deep());
    assert_eq!(too_deep.check_depth(), Err(ValueError::DepthExceeded));
}

#[test]
fn get_by_key_finds_first_entry() {
    let m = LoroValue::Dict(vec![
        MapEntry { key: String::from("a"), value: LoroValue::I64(1) },
        MapEntry { key: String::from("b"), value: LoroValue::I64(2) },
    ]);
    assert_eq!(m.get_by_key("a"), Some(&LoroValue::I64(1)));
    assert_eq!(m.get_by_key("b"), Some(&LoroValue::I64(2)));
    assert_eq!(m.get_by_key("c"), None);
    assert_eq!(LoroValue::Null.get_by_key("a"), None);
}

#[test]
fn get_by_index_stays_in_bounds() {
    let l = LoroValue::List(vec![LoroValue::Bool(true), LoroValue::I64(7)]);
    assert_eq!(l.get_by_index(0), Some(&LoroValue::Bool(true)));
    assert_eq!(l.get_by_index(1), Some(&LoroValue::I64(7)));
    assert_eq!(l.get_by_index(2), None);
    assert_eq!(LoroValue::I64(0).get_by_index(0), None);
}

#[test]
fn is_false_only_for_false() {
    assert!(LoroValue::Bool(false).is_false());
    assert!(!LoroValue::Bool(true).is_false());
    assert!(!LoroValue::Null.is_false());
    assert!(!LoroValue::I64(0).is_false());
}

#[test]
fn conversions_report_wrong_variant() {
    assert_eq!(LoroValue::Bool(true).into_bool(), Ok(true));
    assert_eq!(LoroValue::I64(5).into_bool(), Err(ValueError::WrongVariant));
    assert_eq!(LoroValue::I64(5).into_i64(), Ok(5));
    assert_eq!(LoroValue::Double(0x3ff0000000000000).into_double_bits(), Ok(0x3ff0000000000000));
    assert_eq!(LoroValue::Binary(vec![1, 2]).into_binary(), Ok(vec![1, 2]));
    assert_eq!(
        LoroValue::String(String::from("s")).into_string(),
        Ok(String::from("s"))
    );
    assert_eq!(LoroValue::Null.into_string(), Err(ValueError::WrongVariant));
    let cid = ContainerID { client: 7, counter: 3 };
    assert_eq!(LoroValue::Container(cid).into_container(), Ok(cid));
    assert_eq!(LoroValue::Null.into_list(), Err(ValueError::WrongVariant));
    assert_eq!(LoroValue::Null.into_map(), Err(ValueError::WrongVariant));
}

#[test]
fn equality_is_structural() {
    let a = LoroValue::List(vec![LoroValue::I64(1), LoroValue::String(String::from("x"))]);
    let b = LoroValue::List(vec![LoroValue::I64(1), LoroValue::String(String::from("x"))]);
    let c = LoroValue::List(vec![LoroValue::I64(2), LoroValue::String(String::from("x"))]);
    assert_eq!(a, b);
    assert_ne!(a, c);
    assert_ne!(
        LoroValue::Container(ContainerID { client: 1, counter: 0 }),
        LoroValue::Container(ContainerID { client: 1, counter: 1 })
    );
}

#[test]
fn structural_hash_agrees_with_equality() {
    let a = LoroValue::List(vec![LoroValue::I64(1), LoroValue::String(String::from("x"))]);
    let b = LoroValue::List(vec![LoroValue::I64(1), LoroValue::String(String::from("x"))]);
    assert_eq!(a.structural_hash(), b.structural_hash());
}

#[test]
fn structural_hash_depends_on_content() {
    let variants = vec![
        LoroValue::Null,
        LoroValue::Bool(false),
        LoroValue::Bool(true),
        LoroValue::I64(0),
        LoroValue::I64(1),
        LoroValue::Double(0),
        LoroValue::String(String::from("ab")),
        LoroValue::String(String::from("ba")),
        LoroValue::Binary(vec![0, 1]),
        LoroValue::List(vec![LoroValue::Null]),
        LoroValue::Dict(vec![MapEntry { key: String::from("k"), value: LoroValue::Null }]),
        LoroValue::Container(ContainerID { client: 0, counter: 0 }),
    ];
    let mut i = 0;
    while i < variants.len() {
        let mut j = i + 1;
        while j < variants.len() {
            assert_ne!(variants[i].structural_hash(), variants[j].structural_hash());
            j += 1;
        }
        i += 1;
    }
}

#[test]
fn duplicate_map_keys_are_rejected() {
    let dup = LoroValue::Dict(vec![
        MapEntry { key: String::from("k"), value: LoroValue::I64(1) },
        MapEntry { key: String::from("k"), value: LoroValue::I64(2) },
    ]);
    assert!(!dup.check_keys());
    assert_eq!(dup.validate(), Err(ValueError::DuplicateKey));

    let nested = LoroValue::List(vec![dup]);
    assert!(!nested.check_keys());
    assert_eq!(nested.validate(), Err(ValueError::DuplicateKey));

    let ok = LoroValue::Dict(vec![
        MapEntry { key: String::from("a"), value: LoroValue::I64(1) },
        MapEntry { key: String::from("b"), value: LoroValue::I64(2) },
    ]);
    assert!(ok.check_keys());
    assert_eq!(ok.validate(), Ok(()));
}
