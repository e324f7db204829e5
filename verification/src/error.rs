use vstd::prelude::*;

verus! {

/// The failures the writer and the parser can surface.
///
/// `CapacityExceeded` is the writer's: the payload length does not fit in an
/// unsigned 32-bit length field. The other three are the parser's:
/// `MagicMismatch` when bytes that must begin a header do not start with the
/// magic sentinel, and `Capacity` / `HeaderDecode` as defensive kinds for
/// platforms or conversions on which a 32-bit length cannot be handled.
#[derive(Debug, Clone, Copy, PartialEq, Eq, Structural)]
pub enum FrameError {
    CapacityExceeded,
    Capacity,
    HeaderDecode,
    MagicMismatch,
}

impl FrameError {
    /// A short human-readable description of the error kind.
    pub fn describe(&self) -> (r: &'static str)
        ensures
            *self == FrameError::CapacityExceeded ==> r@ == "payload length exceeds u32 capacity"@,
            *self == FrameError::Capacity ==> r@ == "length field exceeds platform capacity"@,
            *self == FrameError::HeaderDecode ==> r@ == "failed to assemble a frame header"@,
            *self == FrameError::MagicMismatch ==> r@ == "bytes at a header boundary do not start with the magic sentinel"@,
    {
        match self {
            FrameError::CapacityExceeded => "payload length exceeds u32 capacity",
            FrameError::Capacity => "length field exceeds platform capacity",
            FrameError::HeaderDecode => "failed to assemble a frame header",
            FrameError::MagicMismatch => "bytes at a header boundary do not start with the magic sentinel",
        }
    }
}

} // verus!
