//! The network device as the protocol stack sees it: frames that have arrived,
//! frames to be sent, and a fault that every access reports.
use vstd::prelude::*;

use crate::net::MacAddress;

verus! {

#[derive(Clone, Copy, Debug, Eq, PartialEq, Structural)]
pub enum VirtioNetError {
    DeviceUnavailable,
    QueueUnavailable,
    QueueFull,
    TransmitFailed,
}

/// The driver's two frame queues. The driver appends arrived frames to `rx`
/// and sends what stands in `tx`, oldest first.
pub struct VirtioNet {
    pub mac: MacAddress,
    pub rx: Vec<Vec<u8>>,
    pub tx: Vec<Vec<u8>>,
    pub fault: Option<VirtioNetError>,
}

/// The frames of a queue, oldest first.
pub open spec fn frames_of(queue: Seq<Vec<u8>>) -> Seq<Seq<u8>> {
    queue.map_values(|f: Vec<u8>| f@)
}

impl VirtioNet {
    pub open spec fn arrived(&self) -> Seq<Seq<u8>> {
        frames_of(self.rx@)
    }

    pub open spec fn sent(&self) -> Seq<Seq<u8>> {
        frames_of(self.tx@)
    }

    /// The oldest frame that has arrived, if any; the fault, if there is one.
    pub fn receive(&mut self) -> (r: Result<Option<Vec<u8>>, VirtioNetError>)
        ensures
            final(self).mac == old(self).mac,
            final(self).fault == old(self).fault,
            final(self).sent() == old(self).sent(),
            match r {
                Err(e) => old(self).fault == Some(e) && final(self).arrived() == old(self).arrived(),
                Ok(None) => old(self).fault is None && old(self).arrived().len() == 0
                    && final(self).arrived() == old(self).arrived(),
                Ok(Some(frame)) => old(self).fault is None && old(self).arrived().len() > 0
                    && frame@ == old(self).arrived()[0] && final(self).arrived()
                    == old(self).arrived().skip(1),
            },
    {
        match self.fault {
            Some(e) => Err(e),
            None => {
                if self.rx.len() == 0 {
                    Ok(None)
                } else {
                    let frame = self.rx.remove(0);
                    assert(self.arrived() =~= old(self).arrived().skip(1));
                    Ok(Some(frame))
                }
            },
        }
    }

    /// Queues `frame` for sending; reports the fault, if there is one.
    pub fn transmit(&mut self, frame: Vec<u8>) -> (r: Result<(), VirtioNetError>)
        ensures
            final(self).mac == old(self).mac,
            final(self).fault == old(self).fault,
            final(self).arrived() == old(self).arrived(),
            match r {
                Err(e) => old(self).fault == Some(e) && final(self).sent() == old(self).sent(),
                Ok(_) => old(self).fault is None && final(self).sent() == old(self).sent().push(
                    frame@,
                ),
            },
    {
        match self.fault {
            Some(e) => Err(e),
            None => {
                self.tx.push(frame);
                assert(self.sent() =~= old(self).sent().push(frame@));
                Ok(())
            },
        }
    }
}

} // verus!
