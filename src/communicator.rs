use vstd::prelude::*;
use std::sync::mpsc::{Receiver, Sender, channel};
use crate::messages::SyncMessage;

verus! {

/// How partitions reach each other. Sending never blocks; receiving waits for the
/// next message and gives `None` once none can come any more, or none came in time.
pub trait SimCommunicator {
    fn rank(&self) -> u32;

    fn send_msg(&self, msg: SyncMessage) -> bool;

    fn receive_msg(&self) -> Option<SyncMessage>;
}

/// The communicator of a simulation with a single partition, which has no one to
/// talk to.
pub struct DummySimCommunicator();

impl SimCommunicator for DummySimCommunicator {
    fn rank(&self) -> (r: u32) {
        0
    }

    fn send_msg(&self, _msg: SyncMessage) -> (r: bool) {
        false
    }

    fn receive_msg(&self) -> (r: Option<SyncMessage>) {
        None
    }
}

/// Relies on std's `mpsc::channel`: a new channel, its sending and its receiving end.
#[verifier::external_body]
fn new_channel() -> (Sender<SyncMessage>, Receiver<SyncMessage>) {
    channel()
}

/// Relies on std's `Sender::clone`: another sending end of the same channel.
#[verifier::external_body]
fn clone_sender(s: &Sender<SyncMessage>) -> Sender<SyncMessage> {
    s.clone()
}

/// Relies on std's `Sender::send`: `false` where the receiving end is gone.
#[verifier::external_body]
fn send_on(s: &Sender<SyncMessage>, msg: SyncMessage) -> bool {
    s.send(msg).is_ok()
}

/// Relies on std's `Receiver::recv_timeout`: the next message, or `None` where none
/// came within `secs` seconds or every sending end is gone.
#[verifier::external_body]
fn receive_on(r: &Receiver<SyncMessage>, secs: u64) -> Option<SyncMessage> {
    r.recv_timeout(std::time::Duration::from_secs(secs)).ok()
}

/// How long a partition waits for the next message before it gives up.
pub const RECEIVE_TIMEOUT_SECS: u64 = 5;

/// A communicator between partitions that run as threads of one process: one
/// channel per partition, and a sending end of every channel in each communicator.
pub struct ChannelSimCommunicator {
    receiver: Receiver<SyncMessage>,
    senders: Vec<Sender<SyncMessage>>,
    rank: u32,
}

impl ChannelSimCommunicator {
    pub closed spec fn rank_spec(&self) -> u32 {
        self.rank
    }

    pub closed spec fn senders_len(&self) -> nat {
        self.senders@.len()
    }

    /// One communicator per partition `0..num_parts`, each able to send to all.
    pub fn create_n_2_n(num_parts: u32) -> (r: Vec<ChannelSimCommunicator>)
        ensures
            r@.len() == num_parts,
            forall|i: int| 0 <= i < r@.len() ==> (#[trigger] r@[i]).rank_spec() == i && r@[i].senders_len() == num_parts,
    {
        let mut senders: Vec<Sender<SyncMessage>> = Vec::new();
        let mut receivers: Vec<Receiver<SyncMessage>> = Vec::new();
        let mut rank: u32 = 0;
        while rank < num_parts
            invariant
                rank <= num_parts,
                senders@.len() == rank,
                receivers@.len() == rank,
            decreases num_parts - rank,
        {
            let (s, r) = new_channel();
            senders.push(s);
            receivers.push(r);
            rank = rank + 1;
        }
        let mut comms: Vec<ChannelSimCommunicator> = Vec::new();
        while receivers.len() > 0
            invariant
                senders@.len() == num_parts,
                receivers@.len() + comms@.len() == num_parts,
                forall|i: int| 0 <= i < comms@.len() ==> (#[trigger] comms@[i]).rank_spec() == num_parts - 1 - i
                    && comms@[i].senders_len() == num_parts,
            decreases receivers@.len(),
        {
            let receiver = receivers.pop().unwrap();
            let mut own: Vec<Sender<SyncMessage>> = Vec::new();
            let mut k: usize = 0;
            while k < senders.len()
                invariant
                    k <= senders@.len(),
                    own@.len() == k,
                decreases senders@.len() - k,
            {
                own.push(clone_sender(&senders[k]));
                k = k + 1;
            }
            let rank = receivers.len() as u32;
            comms.push(ChannelSimCommunicator { receiver, senders: own, rank });
        }
        let mut out: Vec<ChannelSimCommunicator> = Vec::new();
        let ghost c0 = comms@;
        while comms.len() > 0
            invariant
                comms@.len() + out@.len() == num_parts,
                c0.len() == num_parts,
                comms@ == c0.take(comms@.len() as int),
                forall|i: int| 0 <= i < c0.len() ==> (#[trigger] c0[i]).rank_spec() == num_parts - 1 - i
                    && c0[i].senders_len() == num_parts,
                forall|i: int| 0 <= i < out@.len() ==> (#[trigger] out@[i]) == c0[num_parts - 1 - i],
            decreases comms@.len(),
        {
            let c = comms.pop().unwrap();
            out.push(c);
            assert(comms@ =~= c0.take(comms@.len() as int));
        }
        assert forall|i: int| 0 <= i < out@.len() implies (#[trigger] out@[i]).rank_spec() == i
            && out@[i].senders_len() == num_parts by {
            assert(out@[i] == c0[num_parts - 1 - i]);
        }
        out
    }
}

impl SimCommunicator for ChannelSimCommunicator {
    fn rank(&self) -> (r: u32) {
        self.rank
    }

    /// Sends `msg` to the partition it is addressed to; `false` where there is none.
    fn send_msg(&self, msg: SyncMessage) -> (r: bool) {
        let target = msg.to_process as usize;
        if target < self.senders.len() {
            send_on(&self.senders[target], msg)
        } else {
            false
        }
    }

    fn receive_msg(&self) -> (r: Option<SyncMessage>) {
        receive_on(&self.receiver, RECEIVE_TIMEOUT_SECS)
    }
}

} // verus!
