pub mod counter;
pub mod demand;
pub mod network;
pub mod parking;
pub mod rng;
pub mod scenario;
pub mod schedule;
pub mod trips;
pub mod vehicles;
