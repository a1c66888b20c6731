pub mod bits;
pub mod bytes;
pub mod bit_writer;
pub mod bit_reader;
pub mod zigzag;
pub mod varint;
pub mod delta_of_delta;
pub mod xor;

pub use bit_writer::BitWriter;
pub use bit_reader::BitReader;
