//! A client for NFS version 4 over ONC RPC, on any byte stream.
//!
//! The layers, from the wire up:
//!
//! - [`xdr`]: the encoding of numbers, booleans, opaque data and arrays;
//! - [`record`]: how messages are told apart on a stream;
//! - [`wire`]: the calls to what lies outside, the transport first, each
//!   with a record of what went out and what came in;
//! - [`auth`] and [`message`]: RPC calls and replies;
//! - [`client`]: the RPC client, which numbers the calls and reads the
//!   replies;
//! - [`attrs`] and [`attr_codec`]: file attributes and their encoding;
//! - [`compound`], [`request`] and [`response`]: NFS requests, what they are
//!   made of, and their encoding;
//! - [`status`] and [`transfer`]: what a status means, and what to do next
//!   while reading, writing or listing;
//! - [`nfs`]: the NFS client and its calls that take one request;
//! - [`journal`] and [`bulk`]: what a run of requests and outcomes says of a
//!   listing, a download or an upload, and the calls that take such a run;
//! - [`cli`], [`text`], [`decimal`] and [`hexadecimal`]: what a command line
//!   needs to read its arguments and to write its listings.
//!
//! Every encoding is stated as a function from values to bytes, every
//! decoder as a function from bytes to values, and decoding is proved to undo
//! encoding. What the clients do with a transport, a sink or a source is
//! stated over records of the calls made.

pub mod attr_codec;
pub mod attrs;
pub mod auth;
pub mod bulk;
pub mod cli;
pub mod client;
pub mod compound;
pub mod decimal;
pub mod hexadecimal;
pub mod journal;
pub mod message;
pub mod nfs;
pub mod record;
pub mod request;
pub mod response;
pub mod status;
pub mod text;
pub mod transfer;
pub mod wire;
pub mod xdr;
