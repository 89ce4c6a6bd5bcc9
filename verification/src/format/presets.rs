//! Rules offered as one-click starting points, with sensible colours filled in.

use crate::numfmt::CmpOp;
use crate::rules::ConditionalRule;
use crate::table::Rgb;
use crate::value::F64;
use vstd::prelude::*;

verus! {

/// Negative numbers red, positive ones green.
pub fn sign_colors() -> (r: ConditionalRule)
    ensures
        r == (ConditionalRule::Sign {
            negative: Some(Rgb(0xc0, 0x28, 0x28)),
            positive: Some(Rgb(0x1e, 0x88, 0x3c)),
            zero: None,
        }),
{
    ConditionalRule::Sign {
        negative: Some(Rgb(0xc0, 0x28, 0x28)),
        positive: Some(Rgb(0x1e, 0x88, 0x3c)),
        zero: None,
    }
}

/// Negative numbers red, positive ones left alone.
pub fn negative_red() -> (r: ConditionalRule)
    ensures
        r == (ConditionalRule::Sign {
            negative: Some(Rgb(0xc0, 0x28, 0x28)),
            positive: None,
            zero: None,
        }),
{
    ConditionalRule::Sign { negative: Some(Rgb(0xc0, 0x28, 0x28)), positive: None, zero: None }
}

/// Above a value, green.
pub fn above(value: F64) -> (r: ConditionalRule)
    ensures
        r == (ConditionalRule::Threshold {
            op: CmpOp::Gt,
            value,
            fill: Rgb(0xc6, 0xef, 0xce),
            text: Rgb(0x00, 0x61, 0x00),
        }),
{
    ConditionalRule::Threshold {
        op: CmpOp::Gt,
        value,
        fill: Rgb(0xc6, 0xef, 0xce),
        text: Rgb(0x00, 0x61, 0x00),
    }
}

/// Below a value, red.
pub fn below(value: F64) -> (r: ConditionalRule)
    ensures
        r == (ConditionalRule::Threshold {
            op: CmpOp::Lt,
            value,
            fill: Rgb(0xff, 0xc7, 0xce),
            text: Rgb(0x9c, 0x00, 0x06),
        }),
{
    ConditionalRule::Threshold {
        op: CmpOp::Lt,
        value,
        fill: Rgb(0xff, 0xc7, 0xce),
        text: Rgb(0x9c, 0x00, 0x06),
    }
}

pub fn top_n(n: u32) -> (r: ConditionalRule)
    ensures
        r == (ConditionalRule::TopBottom {
            top: true,
            n,
            fill: Rgb(0xc6, 0xef, 0xce),
            text: Rgb(0x00, 0x61, 0x00),
        }),
{
    ConditionalRule::TopBottom {
        top: true,
        n,
        fill: Rgb(0xc6, 0xef, 0xce),
        text: Rgb(0x00, 0x61, 0x00),
    }
}

pub fn bottom_n(n: u32) -> (r: ConditionalRule)
    ensures
        r == (ConditionalRule::TopBottom {
            top: false,
            n,
            fill: Rgb(0xff, 0xc7, 0xce),
            text: Rgb(0x9c, 0x00, 0x06),
        }),
{
    ConditionalRule::TopBottom {
        top: false,
        n,
        fill: Rgb(0xff, 0xc7, 0xce),
        text: Rgb(0x9c, 0x00, 0x06),
    }
}

pub fn contains(needle: String) -> (r: ConditionalRule)
    ensures
        r == (ConditionalRule::TextContains {
            needle,
            fill: Rgb(0xff, 0xeb, 0x9c),
            text: Rgb(0x9c, 0x65, 0x00),
        }),
{
    ConditionalRule::TextContains {
        needle,
        fill: Rgb(0xff, 0xeb, 0x9c),
        text: Rgb(0x9c, 0x65, 0x00),
    }
}

/// The default gradient, white to blue.
pub fn color_scale() -> (r: ConditionalRule)
    ensures
        r == (ConditionalRule::ColorScale2 {
            min: Rgb(0xff, 0xff, 0xff),
            max: Rgb(0x53, 0x8d, 0xd5),
        }),
{
    ConditionalRule::ColorScale2 { min: Rgb(0xff, 0xff, 0xff), max: Rgb(0x53, 0x8d, 0xd5) }
}

pub fn data_bar() -> (r: ConditionalRule)
    ensures
        r == (ConditionalRule::DataBar { color: Rgb(0x63, 0x8e, 0xc6) }),
{
    ConditionalRule::DataBar { color: Rgb(0x63, 0x8e, 0xc6) }
}

} // verus!
