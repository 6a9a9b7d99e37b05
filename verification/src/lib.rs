pub mod cursor;
pub mod frame;
pub mod streams;
pub mod varint;
