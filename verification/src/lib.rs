//! Verified core of a peer-to-peer voice call client: the layout of audio
//! packets, the buffering of captured samples into packets, the playback
//! queues that feed the speaker, the call request handshake text, and a
//! bit-level view of 32-bit words.
pub mod bytes;
pub mod sample;
pub mod queue;
pub mod packet;
pub mod playback;
pub mod capture;
pub mod call_req;
pub mod bits;
