//! Encoded video as it moves from a worker's buffer to a save.

use vstd::prelude::*;

verus! {

/// One encoded H.264 access unit.
pub struct VideoPacket {
    pub data: Vec<u8>,
    /// 100-ns units (Media Foundation time).
    pub pts: i64,
    /// An IDR frame: decoding can start here.
    pub is_keyframe: bool,
}

} // verus!
