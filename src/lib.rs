//! A TCP broadcast relay's core: the fixed-size frame codec, the client
//! registry owned by the broadcast router, and the receive worker's state
//! machine. Sockets, threads and channels stay with the caller, which hands
//! this library plain values and performs the actions it decides.

pub mod frame;
pub mod registry;
pub mod worker;
