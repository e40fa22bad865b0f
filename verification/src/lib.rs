//! Verified cores of a set of small network servers.
//!
//! The largest of them is the speed daemon: camera clients report number
//! plates, the daemon works out average speeds between pairs of reports on
//! one road, and ticket dispatchers receive a ticket for each car that was
//! too fast, at most one per car and day. Beside it stand the framing of
//! the pest control packets, the prices and means of means to an end, and
//! two small steps of a poller and of a stream writer.
//!
//! Sockets, tasks and timers are not in here: the servers hand bytes and
//! messages in and carry out what comes back.

pub mod big_endian;
pub mod buffer;
pub mod means_to_an_end;
pub mod pest_control;
pub mod poller;
pub mod speed_daemon;
pub mod stream;
