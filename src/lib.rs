//! A time-stepped, queue-based traffic simulation whose network is split into
//! partitions that exchange vehicles and storage occupancy every simulated second.
//!
//! Quantities are integers: lengths in millimetres, speeds in millimetres per
//! second, vehicle sizes and occupancies in thousandths of a passenger-car
//! equivalent (milli-pce), flow capacities in milli-pce per hour, lanes in
//! thousandths of a lane and sample sizes in parts per million. Times are ticks of
//! one second.

pub mod time_queue;
pub mod flow_cap;
pub mod storage_cap;
pub mod population;
pub mod vehicle;
pub mod link;
pub mod events;
mod rng;
pub mod network;
pub mod sim_network;
pub mod messages;
pub mod message_broker;
pub mod garage;
pub mod activity_engine;
pub mod simulation;
pub mod id;
pub mod messaging;
pub mod communicator;
pub mod events_reader;
pub mod wire;
pub mod time_format;
