//! Buffered reading and writing on top of interactive streams.
//!
//! [`BufDuplexer`] keeps a reader buffer and a writer buffer over one
//! stream, and [`BufReaderLineWriter`] does the same but writes complete
//! lines out as soon as it sees them. The stream itself is anything that
//! implements [`HalfDuplexIo`].

pub mod buffered;
mod io;

pub use buffered::{BufDuplexer, BufReaderLineWriter, BufferState, IntoInnerError};
pub use io::{
    concat_bufs, contents, first_filled, others_kept, same_lengths, slices, total_len,
    HalfDuplexIo, HalfDuplexReadReady, ReadReady, StreamCall, StreamCalls, StreamLog,
};
