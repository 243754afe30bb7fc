//! The checks around one decode of codec frames into 24 kHz audio: the
//! decoder takes `F >= 2` frames and yields `(F - 1) * 480` samples.

use vstd::prelude::*;
use crate::stream::HOP;
use crate::text::{decimal, push_decimal};

verus! {

broadcast use vstd::string::group_string_axioms;

/// The samples the decoder yields for `frames` frames.
pub open spec fn decoded_len_spec(frames: int) -> int {
    (frames - 1) * HOP
}

/// A window of `frames` frames can be decoded; the error names the count.
pub fn check_window_frames(frames: usize) -> (r: Result<(), String>)
    ensures
        frames >= 2 ==> r is Ok,
        frames < 2 ==> (r matches Err(m) && m@ == "Need at least 2 codec frames for decode, got "@
            + decimal(frames as nat)),
{
    if frames < 2 {
        let mut m = String::from_str("Need at least 2 codec frames for decode, got ");
        push_decimal(&mut m, frames as u64);
        return Err(m);
    }
    Ok(())
}

/// The decoder output holds `got` samples for `frames` frames, as it must;
/// the error names both counts.
pub fn check_decoded_len(frames: usize, got: usize) -> (r: Result<(), String>)
    requires
        2 <= frames,
        (frames - 1) * HOP <= usize::MAX,
    ensures
        got == decoded_len_spec(frames as int) ==> r is Ok,
        got != decoded_len_spec(frames as int) ==> (r matches Err(m) && m@
            == "ONNX output length mismatch: expected "@ + decimal(decoded_len_spec(frames as int) as nat)
            + ", got "@ + decimal(got as nat)),
{
    let expected = (frames - 1) * HOP;
    if got != expected {
        let mut m = String::from_str("ONNX output length mismatch: expected ");
        push_decimal(&mut m, expected as u64);
        m.append(", got ");
        push_decimal(&mut m, got as u64);
        return Err(m);
    }
    Ok(())
}

} // verus!
