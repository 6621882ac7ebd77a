//! The per-request seam of the server: one decoded request in, one reply
//! out, with the store read or written under way.  The surrounding loop —
//! sockets, framing, the exclusivity guard — stands outside this crate's
//! verified core and hands plain values in and out.
use vstd::prelude::*;

verus! {

use crate::command::RespCommand;
use crate::command::key_error;
use crate::command::parse_command;
use crate::command::ping_reply;
use crate::command::ok_view;
use crate::command::set_applied;
use crate::command::set_error;
use crate::data_type::RespDataType;
use crate::data_type::ValueView;
use crate::store::KeyValueStore;
use crate::store::get_post;
use crate::store::get_result;
use crate::util::RespError;
use crate::util::ascii_bytes;

/// The reply owed to a request that failed with `e`: an error line carrying
/// the diagnostic text.
pub open spec fn error_reply(e: RespError) -> ValueView {
    ValueView::Errors(ascii_bytes(e.message_view()))
}

/// Handles one decoded request against the store at time `now`: validates it
/// into a command, executes the command, and turns every failure into
/// exactly one error reply, leaving the store as the failed step left it —
/// a failure never aborts the exchange.
pub fn process_value(store: &mut KeyValueStore, request: RespDataType, now: u64) -> (reply:
    RespDataType)
    requires
        old(store).wf(),
    ensures
        final(store).wf(),
        (match parse_command(request) {
            Err(e) => reply.deep() == error_reply(e) && final(store).as_map() == old(
                store,
            ).as_map(),
            Ok(cmd) => match cmd {
                RespCommand::Ping(p) => reply.deep() == ping_reply(p) && final(store).as_map()
                    == old(store).as_map(),
                RespCommand::Echo(e) => reply.deep() == e.message.deep() && final(store).as_map()
                    == old(store).as_map(),
                RespCommand::SetCmd(sc) => match set_error(sc) {
                    Some(e) => reply.deep() == error_reply(e) && final(store).as_map() == old(
                        store,
                    ).as_map(),
                    None => reply.deep() == ValueView::SimpleStrings(ok_view()) && set_applied(
                        old(store).as_map(),
                        final(store).as_map(),
                        sc,
                        now,
                    ),
                },
                RespCommand::Get(gc) => match key_error(gc.key) {
                    Some(e) => reply.deep() == error_reply(e) && final(store).as_map() == old(
                        store,
                    ).as_map(),
                    None => {
                        let kb = gc.key->BulkStrings_0->0@;
                        &&& final(store).as_map() == get_post(old(store).as_map(), kb, now)
                        &&& match get_result(old(store).as_map(), kb, now) {
                            Ok(ob) => match ob {
                                Some(bytes) => reply.deep() == ValueView::BulkStrings(Some(bytes)),
                                None => reply.deep() == ValueView::BulkStrings(None::<Seq<u8>>),
                            },
                            Err(e) => reply.deep() == error_reply(e),
                        }
                    },
                },
            },
        }),
{
    let outcome: Result<RespDataType, RespError> = match RespCommand::try_from(request) {
        Ok(cmd) => match cmd {
            RespCommand::Ping(p) => Ok(p.execute()),
            RespCommand::Echo(e) => Ok(e.execute()),
            RespCommand::SetCmd(sc) => sc.execute(store, now),
            RespCommand::Get(gc) => gc.execute(store, now),
        },
        Err(e) => Err(e),
    };
    match outcome {
        Ok(reply) => reply,
        Err(e) => RespDataType::Errors(crate::util::text_bytes(e.message())),
    }
}

} // verus!
