//! Lint-style detectors: the fixed texts each rule reports with. The
//! pattern-matching pass that drives them over a concrete syntax tree is a
//! separate pipeline; this crate carries the rules' identities and wording.

use vstd::prelude::*;

verus! {

/// Flags an `asserts!` guarding on `block-height`.
#[derive(Debug)]
pub struct AssertBlockHeight {
    pub msg: String,
    pub help: Option<String>,
    pub footnote: Option<String>,
}

impl AssertBlockHeight {
    pub fn new() -> (d: AssertBlockHeight)
        ensures
            d.msg@ == "Use of block-height inside an assert"@,
            d.help is None,
            d.footnote matches Some(f) && f@ == "NOTE"@,
    {
        AssertBlockHeight {
            msg: "Use of block-height inside an assert".to_owned(),
            help: None,
            footnote: Some("NOTE".to_owned()),
        }
    }

    pub fn msg(&self) -> (m: &String)
        ensures
            m@ == self.msg@,
    {
        &self.msg
    }
}

/// Flags a multiplication with a division among its operands: the division
/// loses precision before the product is taken.
#[derive(Debug)]
pub struct DivideBeforeMultiply {
    pub msg: String,
    pub help: Option<String>,
    pub footnote: Option<String>,
}

impl DivideBeforeMultiply {
    pub fn new() -> (d: DivideBeforeMultiply)
        ensures
            d.msg@ == "Precision loss of divide inside a multiplication."@,
            d.help is None,
            d.footnote matches Some(f) && f@ == "Multiply before dividing to keep precision."@,
    {
        DivideBeforeMultiply {
            msg: "Precision loss of divide inside a multiplication.".to_owned(),
            help: None,
            footnote: Some("Multiply before dividing to keep precision.".to_owned()),
        }
    }

    pub fn msg(&self) -> (m: &String)
        ensures
            m@ == self.msg@,
    {
        &self.msg
    }
}

/// Flags a use of `tx-sender` inside an assert.
#[derive(Debug)]
pub struct TxSenderInAssert {
    pub msg: String,
    pub help: Option<String>,
    pub footnote: Option<String>,
}

impl TxSenderInAssert {
    pub fn new() -> (d: TxSenderInAssert)
        ensures
            d.msg@ == "Use of tx-sender inside an assert"@,
            d.help is None,
            d.footnote matches Some(f) && f@ == "Consider asserting on contract-caller instead."@,
    {
        TxSenderInAssert {
            msg: "Use of tx-sender inside an assert".to_owned(),
            help: None,
            footnote: Some("Consider asserting on contract-caller instead.".to_owned()),
        }
    }

    pub fn msg(&self) -> (m: &String)
        ensures
            m@ == self.msg@,
    {
        &self.msg
    }
}

/// Flags an `unwrap-panic` call.
#[derive(Debug)]
pub struct UnwrapPanicUsage {
    pub msg: String,
    pub help: Option<String>,
    pub footnote: Option<String>,
}

impl UnwrapPanicUsage {
    pub fn new() -> (d: UnwrapPanicUsage)
        ensures
            d.msg@ == "Improper unwrap-panic."@,
            d.help is None,
            d.footnote matches Some(f) && f@ == "Handle the error case explicitly."@,
    {
        UnwrapPanicUsage {
            msg: "Improper unwrap-panic.".to_owned(),
            help: None,
            footnote: Some("Handle the error case explicitly.".to_owned()),
        }
    }

    pub fn msg(&self) -> (m: &String)
        ensures
            m@ == self.msg@,
    {
        &self.msg
    }
}

} // verus!
