use soundmodule::algoparam::algoparam_get_first_param;
use soundmodule::algoparam::algoparam_get_first_set;
use soundmodule::algoparam::algoparam_get_next_param;
use soundmodule::algoparam::algoparam_get_next_set;
use soundmodule::algoparam::AlgoParam;
use soundmodule::algoparam::AlgoParamNode;
use soundmodule::algoparam::AlgoParamSet;
use soundmodule::algoparam::AlgoParamUnit;
use soundmodule::algoparam::LastValue;
use soundmodule::algoparam::OutOfRangeError;
use soundmodule::algoparam::ParamErrorKind;
use soundmodule::keys::KEY_NOT_FOUND;

fn lv(x: f32) -> LastValue {
    LastValue { bits: x.to_bits() }
}

fn param(id: &str, name: &str) -> AlgoParam<LastValue> {
    AlgoParam::new(
        id,
        name,
        0.0f32.to_bits(),
        1.0f32.to_bits(),
        0.0f32.to_bits(),
        AlgoParamUnit::GENERIC,
        lv(0.0),
        vec![],
    )
    .unwrap()
}

fn build_tree() -> AlgoParamSet<LastValue> {
    let mut root = AlgoParamSet::<LastValue>::new("root", "Root").unwrap();
    let mut subset1 = AlgoParamSet::<LastValue>::new("subset1", "subset 1").unwrap();
    let mut subset2 = AlgoParamSet::<LastValue>::new("subset2", "subset 2").unwrap();

    let param1_1 = param("param1_1", "Param 1.1");
    let param1_2 = param("param1_2", "Param 1.2");

    let _ = subset1.add(AlgoParamNode::Param(param1_1));
    let _ = subset1.add(AlgoParamNode::Param(param1_2));

    let param2_1 = param("param2_1", "Param 2.1");
    let param2_2 = param("param2_2", "Param 2.2");

    let _ = subset2.add(AlgoParamNode::Param(param2_1));
    let _ = subset2.add(AlgoParamNode::Param(param2_2));
    let _ = subset2.add(AlgoParamNode::ParamSet(
        AlgoParamSet::<LastValue>::new("mock", "Mock Algorithm").unwrap(),
    ));

    let param3 = param("param3", "Param 3");
    let _ = root.add(AlgoParamNode::ParamSet(subset1));
    let _ = root.add(AlgoParamNode::ParamSet(subset2));

    let _ = root.add(AlgoParamNode::Param(param3));

    root
}

#[test]
fn test_find_first_param() {
    let tree = build_tree();
    let mut basekey = KEY_NOT_FOUND;
    // Test first subset retrieval
    let first_subset = algoparam_get_first_set(&tree, &mut basekey);
    assert_eq!(first_subset.unwrap().identifier, "subset1");
    let expected = (0x00u64 << 56) | 0x00ff_ffff_ffff_ffff;
    assert_eq!(basekey, expected);
    let subset1 = basekey;

    // Test next subset retrieval
    let next_subset = algoparam_get_next_set(&tree, &mut basekey);
    assert_eq!(next_subset.unwrap().identifier, "subset2");
    let expected = (0x01u64 << 56) | 0x00ff_ffff_ffff_ffff;
    assert_eq!(basekey, expected);
    let subset2 = basekey;
    let _ = algoparam_get_next_set(&tree, &mut basekey);
    assert_eq!(basekey, KEY_NOT_FOUND);

    // Test first parameter retrieval
    basekey = KEY_NOT_FOUND;
    let first_param = algoparam_get_first_param(&tree, &mut basekey);
    assert_eq!(first_param.unwrap().identifier, "param3");
    let expected = (0x02u64 << 56) | 0x00ff_ffff_ffff_ffff;
    assert_eq!(basekey, expected);

    // Test next parameter retrieval - this should fail
    let _ = algoparam_get_next_param(&tree, &mut basekey);
    assert_eq!(basekey, KEY_NOT_FOUND);

    // Test first parameter retrieval from subset1
    basekey = subset1;
    let first_param_subset1 = algoparam_get_first_param(&tree, &mut basekey);
    assert_eq!(first_param_subset1.unwrap().identifier, "param1_1");
    let expected = (0x0000u64 << 48) | 0x0000_ffff_ffff_ffff;
    assert_eq!(basekey, expected);

    // Test next parameter retrieval from subset1
    let next_param_subset1 = algoparam_get_next_param(&tree, &mut basekey);
    assert_eq!(next_param_subset1.unwrap().identifier, "param1_2");
    let expected = (0x0001u64 << 48) | 0x0000_ffff_ffff_ffff;
    assert_eq!(basekey, expected);

    // next retrieval should fail
    let _ = algoparam_get_next_param(&tree, &mut basekey);
    assert_eq!(basekey, KEY_NOT_FOUND);

    // Check that we can't find any sets
    basekey = subset1;
    let _ = algoparam_get_first_set(&tree, &mut basekey);
    assert_eq!(basekey, KEY_NOT_FOUND);

    // repeat for subset2
    basekey = subset2;
    let first_param_subset2 = algoparam_get_first_param(&tree, &mut basekey);
    assert_eq!(first_param_subset2.unwrap().identifier, "param2_1");
    let expected = (0x0100u64 << 48) | 0x0000_ffff_ffff_ffff;
    assert_eq!(basekey, expected);

    // Test next parameter retrieval from subset2
    let next_param_subset2 = algoparam_get_next_param(&tree, &mut basekey);
    assert_eq!(next_param_subset2.unwrap().identifier, "param2_2");
    let expected = (0x0101u64 << 48) | 0x0000_ffff_ffff_ffff;
    assert_eq!(basekey, expected);

    // next retrieval should fail
    let _ = algoparam_get_next_param(&tree, &mut basekey);
    assert_eq!(basekey, KEY_NOT_FOUND);

    basekey = subset2;
    let subsubset1 = algoparam_get_first_set(&tree, &mut basekey);
    assert_eq!(subsubset1.unwrap().identifier, "mock");

    let _ = algoparam_get_next_set(&tree, &mut basekey);
    assert_eq!(basekey, KEY_NOT_FOUND);
}

#[test]
fn capacity_exceeded_on_255th_child() {
    let mut b = AlgoParamSet::<LastValue>::new("b", "B").unwrap();
    for i in 0..254usize {
        let p = AlgoParam::new(
            &format!("p{}", i),
            "P",
            0,
            0,
            0,
            AlgoParamUnit::GENERIC,
            LastValue { bits: 0 },
            vec![],
        )
        .unwrap();
        let r = b.add(AlgoParamNode::Param(p));
        assert_eq!(r.unwrap(), i);
    }
    let p = AlgoParam::new(
        "extra",
        "X",
        0,
        0,
        0,
        AlgoParamUnit::GENERIC,
        LastValue { bits: 0 },
        vec![],
    )
    .unwrap();
    let r = b.add(AlgoParamNode::Param(p));
    assert_eq!(r.unwrap_err().kind, ParamErrorKind::CapacityExceeded);
    // the branch is unchanged
    assert_eq!(b.children.len(), 254);
}

#[test]
fn set_then_get_round_trip() {
    let mut tree = build_tree();
    let key = 0x0001_ffff_ffff_ffffu64; // param1_2
    let v = 0.75f32.to_bits();
    tree.set(v, key).unwrap();
    assert_eq!(tree.get(key).unwrap(), v);

    // a deeper control, through subset2
    let key2 = 0x0101_ffff_ffff_ffffu64; // param2_2
    let v2 = 0.25f32.to_bits();
    tree.set(v2, key2).unwrap();
    assert_eq!(tree.get(key2).unwrap(), v2);
    // the first control kept its value
    assert_eq!(tree.get(key).unwrap(), v);
}

#[test]
fn unknown_path_returns_key_not_found() {
    let mut tree = build_tree();
    // out-of-range index at the root
    assert_eq!(
        tree.get(0x05ff_ffff_ffff_ffff).unwrap_err().kind,
        ParamErrorKind::KeyNotFound
    );
    // out-of-range index one level down
    assert_eq!(
        tree.get(0x0007_ffff_ffff_ffff).unwrap_err().kind,
        ParamErrorKind::KeyNotFound
    );
    // a descent that ends in an empty branch
    assert_eq!(
        tree.get(0x0102_00ff_ffff_ffff).unwrap_err().kind,
        ParamErrorKind::KeyNotFound
    );
    // the exhausted cursor resolves to nothing
    assert_eq!(
        tree.get(KEY_NOT_FOUND).unwrap_err().kind,
        ParamErrorKind::KeyNotFound
    );
    // a failed set reports the same error and changes no value
    let r = tree.set(1, 0x05ff_ffff_ffff_ffff);
    assert_eq!(r.unwrap_err().kind, ParamErrorKind::KeyNotFound);
    assert_eq!(tree.get(0x0000_ffff_ffff_ffff).unwrap(), 0.0f32.to_bits());
}

#[test]
fn embedded_nul_is_rejected() {
    let r = AlgoParamSet::<LastValue>::new("bad\0id", "Name");
    assert!(matches!(
        r,
        Err(OutOfRangeError { kind: ParamErrorKind::InvalidIdentifier })
    ));
    let r = AlgoParamSet::<LastValue>::new("id", "bad\0name");
    assert!(matches!(
        r,
        Err(OutOfRangeError { kind: ParamErrorKind::InvalidIdentifier })
    ));
    let r = AlgoParam::new(
        "p",
        "P",
        0,
        0,
        0,
        AlgoParamUnit::GENERIC,
        LastValue { bits: 0 },
        vec!["ok".to_string(), "bad\0dep".to_string()],
    );
    assert!(matches!(
        r,
        Err(OutOfRangeError { kind: ParamErrorKind::InvalidIdentifier })
    ));
    assert!(AlgoParamSet::<LastValue>::new("good", "Good").is_ok());
}

#[test]
fn scenario_two_branches() {
    let mut root = AlgoParamSet::<LastValue>::new("root", "Root").unwrap();
    let mut a = AlgoParamSet::<LastValue>::new("A", "A").unwrap();
    a.add(AlgoParamNode::Param(param("a1", "a1"))).unwrap();
    let mut b = AlgoParamSet::<LastValue>::new("B", "B").unwrap();
    b.add(AlgoParamNode::Param(param("b1", "b1"))).unwrap();
    root.add(AlgoParamNode::ParamSet(a)).unwrap();
    root.add(AlgoParamNode::ParamSet(b)).unwrap();

    let mut k = KEY_NOT_FOUND;
    let first = algoparam_get_first_set(&root, &mut k);
    assert_eq!(first.unwrap().identifier, "A");
    let k1 = k;
    let second = algoparam_get_next_set(&root, &mut k);
    assert_eq!(second.unwrap().identifier, "B");
    let third = algoparam_get_next_set(&root, &mut k);
    assert!(third.is_none());
    assert_eq!(k, KEY_NOT_FOUND);

    k = k1;
    let c = algoparam_get_first_param(&root, &mut k);
    assert_eq!(c.unwrap().identifier, "a1");
}

#[test]
fn first_scan_idempotent_after_exhaustion() {
    let tree = build_tree();
    let mut k = KEY_NOT_FOUND;
    let first = algoparam_get_first_set(&tree, &mut k).unwrap().identifier.clone();
    let firstkey = k;
    while algoparam_get_next_set(&tree, &mut k).is_some() {}
    assert_eq!(k, KEY_NOT_FOUND);
    let again = algoparam_get_first_set(&tree, &mut k);
    assert_eq!(again.unwrap().identifier, first);
    assert_eq!(k, firstkey);
}

#[test]
fn kind_mismatch_yields_none() {
    // a node with only branch children yields no control
    let mut root = AlgoParamSet::<LastValue>::new("root", "Root").unwrap();
    let only = AlgoParamSet::<LastValue>::new("s", "S").unwrap();
    root.add(AlgoParamNode::ParamSet(only)).unwrap();
    let mut k = KEY_NOT_FOUND;
    assert!(algoparam_get_first_param(&root, &mut k).is_none());
    assert_eq!(k, KEY_NOT_FOUND);

    // and a node with only control children yields no branch
    let mut root2 = AlgoParamSet::<LastValue>::new("root", "Root").unwrap();
    root2.add(AlgoParamNode::Param(param("p", "P"))).unwrap();
    let mut k2 = KEY_NOT_FOUND;
    assert!(algoparam_get_first_set(&root2, &mut k2).is_none());
    assert_eq!(k2, KEY_NOT_FOUND);
}

#[test]
fn enumeration_visits_branches_in_order() {
    let mut root = AlgoParamSet::<LastValue>::new("root", "Root").unwrap();
    root.add(AlgoParamNode::Param(param("p0", "P0"))).unwrap();
    root.add(AlgoParamNode::ParamSet(
        AlgoParamSet::<LastValue>::new("x", "X").unwrap(),
    ))
    .unwrap();
    root.add(AlgoParamNode::Param(param("p1", "P1"))).unwrap();
    root.add(AlgoParamNode::ParamSet(
        AlgoParamSet::<LastValue>::new("y", "Y").unwrap(),
    ))
    .unwrap();
    root.add(AlgoParamNode::ParamSet(
        AlgoParamSet::<LastValue>::new("z", "Z").unwrap(),
    ))
    .unwrap();

    let mut seen: Vec<String> = Vec::new();
    let mut k = KEY_NOT_FOUND;
    let mut cur = algoparam_get_first_set(&root, &mut k);
    while let Some(b) = cur {
        seen.push(b.identifier.clone());
        cur = algoparam_get_next_set(&root, &mut k);
    }
    assert_eq!(seen, vec!["x", "y", "z"]);
    assert_eq!(k, KEY_NOT_FOUND);
}

#[test]
fn control_metadata_is_preserved() {
    let p = AlgoParam::new(
        "cutoff",
        "Cutoff",
        20.0f32.to_bits(),
        20000.0f32.to_bits(),
        1000.0f32.to_bits(),
        AlgoParamUnit::HERTZ,
        lv(1000.0),
        vec!["resonance".to_string()],
    )
    .unwrap();
    assert_eq!(p.identifier, "cutoff");
    assert_eq!(p.name, "Cutoff");
    assert_eq!(f32::from_bits(p.min), 20.0);
    assert_eq!(f32::from_bits(p.max), 20000.0);
    assert_eq!(f32::from_bits(p.default), 1000.0);
    assert_eq!(p.unit.code(), 6);
    assert_eq!(p.dependents, vec!["resonance".to_string()]);
}

#[test]
fn unit_codes_are_stable() {
    assert_eq!(AlgoParamUnit::GENERIC.code(), 0);
    assert_eq!(AlgoParamUnit::INDEXED.code(), 1);
    assert_eq!(AlgoParamUnit::BOOLEAN.code(), 2);
    assert_eq!(AlgoParamUnit::DECIBELS.code(), 10);
    assert_eq!(AlgoParamUnit::MILLISECONDS.code(), 14);
}

#[test]
fn resolve_requires_reaching_a_control() {
    let tree = build_tree();
    // a full path to a control resolves
    assert_eq!(
        tree.resolve(0x02ff_ffff_ffff_ffff).unwrap().identifier,
        "param3"
    );
    // a cursor addressing a branch does not
    assert!(tree.resolve(0x01ff_ffff_ffff_ffff).is_none());
}
