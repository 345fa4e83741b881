//! The lint detectors carry their fixed report texts.

use gecko::detectors::{AssertBlockHeight, DivideBeforeMultiply, TxSenderInAssert, UnwrapPanicUsage};

#[test]
fn assert_block_height_texts() {
    let d = AssertBlockHeight::new();
    assert_eq!(d.msg, "Use of block-height inside an assert");
    assert!(d.help.is_none());
    assert_eq!(d.footnote.as_deref(), Some("NOTE"));
}

#[test]
fn divide_before_multiply_texts() {
    let d = DivideBeforeMultiply::new();
    assert_eq!(d.msg, "Precision loss of divide inside a multiplication.");
    assert!(d.help.is_none());
    assert_eq!(
        d.footnote.as_deref(),
        Some("Multiply before dividing to keep precision.")
    );
}

#[test]
fn tx_sender_in_assert_texts() {
    let d = TxSenderInAssert::new();
    assert_eq!(d.msg, "Use of tx-sender inside an assert");
    assert!(d.help.is_none());
    assert_eq!(
        d.footnote.as_deref(),
        Some("Consider asserting on contract-caller instead.")
    );
}

#[test]
fn unwrap_panic_usage_texts() {
    let d = UnwrapPanicUsage::new();
    assert_eq!(d.msg, "Improper unwrap-panic.");
    assert!(d.help.is_none());
    assert_eq!(d.footnote.as_deref(), Some("Handle the error case explicitly."));
}

#[test]
fn check_error_texts() {
    let e = gecko::CheckError;
    assert_eq!(
        e.message(),
        "unsafe authentication: asserting equality with tx-sender"
    );
    assert!(e.suggestion().is_none());
}
