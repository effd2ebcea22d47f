use pd_patch::objects::{io_indices, lop_bind, object_inlets, object_outlets, signal_label, ObjectTag};

#[test]
fn signal_labels_use_two_hex_digits() {
    assert_eq!(signal_label("send", Some(0x1f)), "send #1F");
    assert_eq!(signal_label("delay_in", Some(5)), "delay_in #05");
    assert_eq!(signal_label("receive", Some(255)), "receive #FF");
    assert_eq!(signal_label("receive", None), "receive");
}

#[test]
fn binds_for_io_objects() {
    assert_eq!(lop_bind(ObjectTag::In, Some(2)), Some("_in_2".to_string()));
    assert_eq!(lop_bind(ObjectTag::Out, None), Some("_out_1".to_string()));
    assert_eq!(lop_bind(ObjectTag::Param, Some(10)), Some("_param_10".to_string()));
    assert_eq!(lop_bind(ObjectTag::Metro, Some(1)), None);
}

#[test]
fn io_objects_numbered_per_kind() {
    let tags = [
        ObjectTag::In,
        ObjectTag::Out,
        ObjectTag::In,
        ObjectTag::Param,
        ObjectTag::Metro,
        ObjectTag::Out,
    ];
    assert_eq!(
        io_indices(&tags),
        vec![Some(1), Some(1), Some(2), Some(1), None, Some(2)]
    );
}

#[test]
fn port_counts_by_kind() {
    assert_eq!((object_inlets(ObjectTag::In), object_outlets(ObjectTag::In)), (0, 1));
    assert_eq!((object_inlets(ObjectTag::Out), object_outlets(ObjectTag::Out)), (1, 0));
    assert_eq!((object_inlets(ObjectTag::Combine), object_outlets(ObjectTag::Combine)), (2, 1));
    assert_eq!((object_inlets(ObjectTag::Comment), object_outlets(ObjectTag::Comment)), (0, 0));
    assert_eq!((object_inlets(ObjectTag::DacTilde), object_outlets(ObjectTag::DacTilde)), (1, 0));
    assert_eq!((object_inlets(ObjectTag::Receive), object_outlets(ObjectTag::Receive)), (0, 1));
    assert_eq!((object_inlets(ObjectTag::Send), object_outlets(ObjectTag::Send)), (1, 0));
    assert_eq!((object_inlets(ObjectTag::Metro), object_outlets(ObjectTag::Metro)), (1, 1));
}
