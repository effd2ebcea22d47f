use pd_patch::object_text::{parse_object_head, ObjectHead};
use pd_patch::objects::ObjectTag;

fn other(text: &str) -> (String, bool, String) {
    match parse_object_head(text) {
        ObjectHead::Other { word, single, text } => (word, single, text),
        other => panic!("expected Other, got {other:?}"),
    }
}

#[test]
fn blank_and_bracketed_blank_text_is_empty() {
    assert!(matches!(parse_object_head(""), ObjectHead::Empty));
    assert!(matches!(parse_object_head("   "), ObjectHead::Empty));
    assert!(matches!(parse_object_head(" [] "), ObjectHead::Empty));
}

#[test]
fn plain_objects_are_recognised_with_or_without_brackets() {
    assert!(matches!(parse_object_head("+~"), ObjectHead::Plain(ObjectTag::PlusTilde)));
    assert!(matches!(parse_object_head("[*~]"), ObjectHead::Plain(ObjectTag::MulTilde)));
    assert!(matches!(parse_object_head("  dac~  "), ObjectHead::Plain(ObjectTag::DacTilde)));
    assert!(matches!(parse_object_head("in"), ObjectHead::Plain(ObjectTag::In)));
    assert!(matches!(parse_object_head("param"), ObjectHead::Plain(ObjectTag::Param)));
    assert!(matches!(parse_object_head("out 3"), ObjectHead::Plain(ObjectTag::Out)));
    assert!(matches!(parse_object_head("[combine]"), ObjectHead::Plain(ObjectTag::Combine)));
}

#[test]
fn signal_objects_read_their_hex_id() {
    match parse_object_head("[send #1F]") {
        ObjectHead::Signal { tag, id } => {
            assert_eq!(tag, ObjectTag::Send);
            assert_eq!(id, Some(0x1f));
        }
        other => panic!("{other:?}"),
    }
    match parse_object_head("receive 0a") {
        ObjectHead::Signal { tag, id } => {
            assert_eq!(tag, ObjectTag::Receive);
            assert_eq!(id, Some(10));
        }
        other => panic!("{other:?}"),
    }
    match parse_object_head("delay_in") {
        ObjectHead::Signal { tag, id } => {
            assert_eq!(tag, ObjectTag::DelayIn);
            assert_eq!(id, None);
        }
        other => panic!("{other:?}"),
    }
    match parse_object_head("delay_out #zz") {
        ObjectHead::Signal { tag, id } => {
            assert_eq!(tag, ObjectTag::DelayOut);
            assert_eq!(id, None);
        }
        other => panic!("{other:?}"),
    }
}

#[test]
fn random_reads_its_maximum_or_defaults_to_100() {
    assert!(matches!(parse_object_head("random 12"), ObjectHead::Random { max: 12 }));
    assert!(matches!(parse_object_head("random -7"), ObjectHead::Random { max: -7 }));
    assert!(matches!(parse_object_head("random +8"), ObjectHead::Random { max: 8 }));
    assert!(matches!(parse_object_head("random"), ObjectHead::Random { max: 100 }));
    assert!(matches!(parse_object_head("random x"), ObjectHead::Random { max: 100 }));
    assert!(matches!(parse_object_head("random -+3"), ObjectHead::Random { max: 100 }));
    assert!(matches!(parse_object_head("random 2147483647"), ObjectHead::Random { max: 2147483647 }));
    assert!(matches!(parse_object_head("random -2147483648"), ObjectHead::Random { max: -2147483648 }));
    assert!(matches!(parse_object_head("random 2147483648"), ObjectHead::Random { max: 100 }));
}

#[test]
fn float_argument_objects_hand_back_their_argument() {
    match parse_object_head("[osc~ 220.5]") {
        ObjectHead::FloatArg { tag, arg } => {
            assert_eq!(tag, ObjectTag::OscTilde);
            assert_eq!(arg.as_deref(), Some("220.5"));
        }
        other => panic!("{other:?}"),
    }
    match parse_object_head("metro") {
        ObjectHead::FloatArg { tag, arg } => {
            assert_eq!(tag, ObjectTag::Metro);
            assert_eq!(arg, None);
        }
        other => panic!("{other:?}"),
    }
}

#[test]
fn other_text_keeps_word_and_body() {
    assert_eq!(other("0.5"), ("0.5".to_string(), true, "0.5".to_string()));
    assert_eq!(other("[hello  world]"), ("hello".to_string(), false, "hello  world".to_string()));
    assert_eq!(other("[ ]"), (String::new(), true, " ".to_string()));
    assert_eq!(other("osc~x 1"), ("osc~x".to_string(), false, "osc~x 1".to_string()));
}
