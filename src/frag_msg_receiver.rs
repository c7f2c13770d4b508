use vstd::prelude::*;

verus! {

/// Why a receiver stops: its time source or its datagram source failed.
#[derive(Debug)]
pub enum FragMsgReceiverError<E> {
    RecvTimeTickError,
    RecvStreamError(E),
}

} // verus!
