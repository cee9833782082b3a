pub mod msg_send;

pub use msg_send::MsgSend;
