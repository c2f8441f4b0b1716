//! The three-byte frames that tell the firmware what a buzzer should do.

use byteorder::{ByteOrder, LittleEndian};
use vstd::prelude::*;

use crate::util::{delay_of, freq_to_delay};

verus! {

/// Identifies one buzzer of the bank.
#[derive(Clone, Copy, Debug, PartialEq, Eq, Structural)]
pub struct PinId(pub u8);

/// An order for one buzzer: sound at `frequency` hertz, or fall silent where
/// the frequency is 0.
#[derive(Clone, Copy, Debug, PartialEq, Eq, Structural)]
pub struct Command {
    pub pin_id: PinId,
    pub frequency: u16,
}

/// The frame for a buzzer and a half-period delay: the buzzer's index, then
/// the delay with its low byte first.
pub open spec fn frame_of(voice_id: u8, delay: u16) -> Seq<u8> {
    seq![voice_id, (delay & 0xff) as u8, (delay >> 8) as u8]
}

/// Stores a number in two bytes, low byte first, through byteorder's
/// `LittleEndian::write_u16`. The contract states the two bytes that the call
/// leaves in the buffer; they are taken on trust from byteorder.
#[verifier::external_body]
fn u16_le_bytes(n: u16) -> (bytes: [u8; 2])
    ensures
        bytes@ == seq![(n & 0xff) as u8, (n >> 8) as u8],
{
    let mut buf: [u8; 2] = [0; 2];
    LittleEndian::write_u16(&mut buf, n);
    buf
}

/// Encodes the frame that sets buzzer `voice_id` to the half-period `delay`.
pub fn encode_frame(voice_id: u8, delay: u16) -> (frame: [u8; 3])
    ensures
        frame@ == frame_of(voice_id, delay),
        frame@ == seq![voice_id, (delay & 0xff) as u8, (delay >> 8) as u8],
{
    let tail = u16_le_bytes(delay);
    let frame: [u8; 3] = [voice_id, tail[0], tail[1]];
    assert(frame@ =~= frame_of(voice_id, delay));
    frame
}

impl Command {
    /// An order for buzzer `pin_id` to sound at `frequency` hertz.
    pub fn new(pin_id: u8, frequency: u16) -> (c: Command)
        ensures
            c == (Command { pin_id: PinId(pin_id), frequency }),
    {
        Command { pin_id: PinId(pin_id), frequency }
    }

    /// The frame of this order.
    pub open spec fn frame(self) -> Seq<u8> {
        frame_of(self.pin_id.0, delay_of(self.frequency))
    }

    /// Encodes this order as the frame to put on the wire.
    pub fn to_bytes(&self) -> (frame: [u8; 3])
        ensures
            frame@ == self.frame(),
    {
        encode_frame(self.pin_id.0, freq_to_delay(self.frequency))
    }
}

} // verus!
