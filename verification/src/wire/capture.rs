use vstd::prelude::*;

use crate::wire::ring::{pop_seen, push_seen, PortReceiver, Producer};

verus! {

/// A frame that has been received, and the device that received it.
#[derive(Debug)]
pub struct FrameCaptureRxToken {
    pub buffer: Vec<u8>,
    pub name: String,
}

/// Where the next frame of a device comes from.
#[derive(Debug)]
pub enum Reception {
    /// The switch had this frame.
    Switch(FrameCaptureRxToken),
    /// The switch had none; the tap is asked.
    AskTap,
}

/// What ties a tap to a port of a switch.
pub struct FrameCapture {
    pub name: String,
    pub port_no: usize,
    /// Takes frames, each with the number of the port it comes from, to the switch.
    pub frame_sender: Producer<(Vec<u8>, usize)>,
    /// Brings frames from the switch.
    pub frame_receiver: PortReceiver,
}

impl FrameCapture {
    /// Whether a token holds a frame that this device received.
    pub open spec fn received(self, token: FrameCaptureRxToken, frame: Vec<u8>) -> bool {
        token.buffer == frame && token.name@ == self.name@
    }

    /// Create a device that is at port 0.
    pub fn new(
        name: &str,
        frame_sender: Producer<(Vec<u8>, usize)>,
        frame_receiver: PortReceiver,
    ) -> (capture: FrameCapture)
        ensures
            capture.name@ == name@,
            capture.port_no == 0,
            capture.frame_sender == frame_sender,
            capture.frame_receiver == frame_receiver,
    {
        FrameCapture { name: name.to_owned(), port_no: 0, frame_sender, frame_receiver }
    }

    /// Say which port the device is at.
    pub fn set_port_no(&mut self, port_no: usize)
        ensures
            *final(self) == (FrameCapture { port_no, ..*old(self) }),
    {
        self.port_no = port_no;
    }

    /// Say whether a frame came.
    pub fn take_in(&self, frame: Option<Vec<u8>>) -> (token: Option<FrameCaptureRxToken>)
        ensures
            match frame {
                Some(frame) => token matches Some(token) && self.received(token, frame),
                None => token is None,
            },
    {
        match frame {
            Some(frame) => Some(FrameCaptureRxToken { buffer: frame, name: self.name.clone() }),
            None => None,
        }
    }

    /// Receive a frame from the switch, if it has one. The contract says of one exchange with the
    /// queue from the switch what it did; that there was no other is not said.
    pub fn process_switch_data(&self) -> (token: Option<FrameCaptureRxToken>)
        ensures
            exists|frame: Option<Vec<u8>>|
                #[trigger] pop_seen(*self.frame_receiver.consumer.buffer, frame) && match frame {
                    Some(frame) => token matches Some(token) && self.received(token, frame),
                    None => token is None,
                },
    {
        let frame = self.frame_receiver.try_recv();
        self.take_in(frame)
    }

    /// Decide where the next frame comes from: what the switch has goes first, and the tap is
    /// asked only where the switch has nothing.
    pub fn choose_source(&self, from_switch: Option<Vec<u8>>) -> (reception: Reception)
        ensures
            match from_switch {
                Some(frame) => reception matches Reception::Switch(token) && self.received(
                    token,
                    frame,
                ),
                None => reception is AskTap,
            },
    {
        match self.take_in(from_switch) {
            Some(token) => Reception::Switch(token),
            None => Reception::AskTap,
        }
    }

    /// Start to receive: ask the switch first. The contract says of one exchange with the queue from
    /// the switch what it did; that there was no other is not said.
    pub fn receive(&self) -> (reception: Reception)
        ensures
            exists|frame: Option<Vec<u8>>|
                #[trigger] pop_seen(*self.frame_receiver.consumer.buffer, frame) && match frame {
                    Some(frame) => reception matches Reception::Switch(token) && self.received(
                        token,
                        frame,
                    ),
                    None => reception is AskTap,
                },
    {
        let frame = self.frame_receiver.try_recv();
        self.choose_source(frame)
    }

    /// Hand a copy of a frame that is transmitted to the switch, with the number of the port that
    /// it comes from. The contract says of one exchange with the queue to the switch what it did;
    /// that there was no other is not said.
    pub fn forward(&self, frame: &[u8]) -> (result: Result<(), (Vec<u8>, usize)>)
        requires
            self.frame_sender.capacity() > 0,
        ensures
            exists|copy: Vec<u8>|
                copy@ == frame@ && #[trigger] push_seen(
                    *self.frame_sender.buffer,
                    (copy, self.port_no),
                    result,
                ),
    {
        let copy = vstd::slice::slice_to_vec(frame);
        self.frame_sender.try_push((copy, self.port_no))
    }
}

/// A token holds the frame that was received, and the name of the device that received it.
pub proof fn law_received(capture: FrameCapture, token: FrameCaptureRxToken, frame: Vec<u8>)
    requires
        capture.received(token, frame),
    ensures
        token.buffer == frame,
        token.name@ == capture.name@,
{
}

} // verus!
