//! A datagram overlay that carries messages larger than one datagram: each
//! message is erasure-coded into fragments, any half of which (rounded up)
//! rebuild it; duplicate, replayed and corrupted fragments are dropped.

mod bytes;
mod frag_msg_receiver;
mod frag_msg_sender;
mod messages;
mod rate_limit;
mod rate_limit_sink;
mod shares;
mod state_machine;
mod utils;

pub use crate::frag_msg_receiver::FragMsgReceiverError;
pub use crate::frag_msg_sender::{
    FragMsgSender, PendingView, SendError, MAX_DGRAM_LEN, MIN_DGRAM_LEN,
};
pub use crate::messages::{
    max_message, parse_fragment, short_hash, split_message, unite_message, verify_frag_message,
    Fragment, ECC_LEN, FIELDS_LEN, MESSAGE_ID_LEN, NONCE_LEN, SHORT_HASH_LEN,
};
pub use crate::rate_limit::{ConfigError, Length, Shaper, ShaperView, MAX_TOKENS_PER_MS};
pub use crate::rate_limit_sink::{adjust_wait, MAX_WAIT, MILLISECOND, WAIT_ADJUST};
pub use crate::shares::{split_data, unite_data, DataShare, SplitDataError, UniteDataError};
pub use crate::state_machine::{FragStateMachine, IdState, MESSAGE_ID_TICKS};
pub use crate::utils::DgramCodec;
