pub mod channel;
pub mod message;
pub mod process;
pub mod system;

pub use channel::{frame_length, frame_message};
pub use message::Message;
