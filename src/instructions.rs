//! The host methods known to the bytecode format.
use vstd::prelude::*;

verus! {

/// A host method as encoded in an instruction.
#[derive(Debug, Clone, Copy, PartialEq, Eq, Structural)]
pub enum MethodRef {
    /// get_bit_buffer(buffer_size) -> ref
    GetBitBuffer,
    /// fill_random_bit_buffer(buffer_ref)
    FillRandomBitBuffer,
    /// set_bit_buffer_index(buffer_ref, index_ref)
    SetBitBufferIndex,
    /// clear_bit_buffer_index(buffer_ref, index_ref)
    ClearBitBufferIndex,
    /// get_bit_buffer_index(buffer_ref, index_ref) -> value_ref
    GetBitBufferIndex,
    /// xy_to_buffer_index(x, y) -> index_ref
    XYToBufferIndex,
    /// wait_for_clock_high()
    WaitForClockHigh,
    /// wait_for_clock_low()
    WaitForClockLow,
    /// set_frame_buffer(buffer)
    SetFrameBuffer,
}

impl MethodRef {
    /// How many arguments the method takes.
    pub open spec fn spec_arg_len(self) -> nat {
        match self {
            MethodRef::GetBitBuffer => 1,
            MethodRef::FillRandomBitBuffer => 1,
            MethodRef::SetBitBufferIndex => 2,
            MethodRef::ClearBitBufferIndex => 2,
            MethodRef::GetBitBufferIndex => 2,
            MethodRef::XYToBufferIndex => 2,
            MethodRef::WaitForClockHigh => 0,
            MethodRef::WaitForClockLow => 0,
            MethodRef::SetFrameBuffer => 1,
        }
    }

    /// Whether the method hands back a value.
    pub open spec fn spec_has_result(self) -> bool {
        match self {
            MethodRef::GetBitBuffer | MethodRef::GetBitBufferIndex | MethodRef::XYToBufferIndex => true,
            _ => false,
        }
    }

    /// The encoded size of a method reference, in bytes.
    pub fn size(&self) -> (r: usize)
        ensures
            r == 1,
    {
        1
    }

    pub fn arg_len(&self) -> (r: usize)
        ensures
            r == self.spec_arg_len(),
    {
        match self {
            MethodRef::GetBitBuffer => 1,
            MethodRef::FillRandomBitBuffer => 1,
            MethodRef::SetBitBufferIndex => 2,
            MethodRef::ClearBitBufferIndex => 2,
            MethodRef::GetBitBufferIndex => 2,
            MethodRef::XYToBufferIndex => 2,
            MethodRef::WaitForClockHigh => 0,
            MethodRef::WaitForClockLow => 0,
            MethodRef::SetFrameBuffer => 1,
        }
    }

    pub fn has_result(&self) -> (r: bool)
        ensures
            r == self.spec_has_result(),
    {
        match self {
            MethodRef::GetBitBuffer => true,
            MethodRef::FillRandomBitBuffer => false,
            MethodRef::SetBitBufferIndex => false,
            MethodRef::ClearBitBufferIndex => false,
            MethodRef::GetBitBufferIndex => true,
            MethodRef::XYToBufferIndex => true,
            MethodRef::WaitForClockHigh => false,
            MethodRef::WaitForClockLow => false,
            MethodRef::SetFrameBuffer => false,
        }
    }
}

} // verus!
