use vstd::prelude::*;
use crate::counters::{spec_delta, ByteState};
use crate::decimal::{dec_digits, render_counter};
use crate::format::{format_bytes, spec_format};
use crate::netdev::{read_counters, spec_read_counters, ParseError};
use crate::store::{counter_from_content, spec_load_counter};

verus! {

/// The file contents one sampling tick writes: the running totals as decimal
/// text, and this interval's delta rendered per the scaling mode, together
/// with the delta itself.
pub struct TickOutput {
    pub delta: ByteState,
    pub total_send: Vec<u8>,
    pub total_recv: Vec<u8>,
    pub interval_send: Vec<u8>,
    pub interval_recv: Vec<u8>,
}

/// The counter a previously persisted file denotes: zero when the file was
/// absent or unreadable, and its best-effort parse otherwise.
pub open spec fn loaded_counter(content: Option<&[u8]>) -> u64 {
    match content {
        Some(c) => spec_load_counter(c@),
        None => 0u64,
    }
}

/// One sampling tick's computation: read the interface's current counters
/// out of the table text, take the reset-safe delta against the previously
/// persisted totals (absent or malformed ones counting as zero), and render
/// everything that is to be persisted — the new totals as decimal text and
/// the interval delta per the scaling mode. A table parse failure is
/// propagated as is, and nothing is rendered.
pub fn plan_tick(
    table: &[u8],
    dev: &[u8],
    prev_send_content: Option<&[u8]>,
    prev_recv_content: Option<&[u8]>,
    scaling: bool,
) -> (r: Result<TickOutput, ParseError>)
    ensures
        r is Ok <==> spec_read_counters(table@, dev@) is Ok,
        r matches Err(e) ==> spec_read_counters(table@, dev@) == Err::<ByteState, ParseError>(e),
        r matches Ok(out) ==> {
            let cur = spec_read_counters(table@, dev@)->Ok_0;
            let prev = ByteState {
                recv: loaded_counter(prev_recv_content),
                send: loaded_counter(prev_send_content),
            };
            &&& out.delta == spec_delta(cur, prev)
            &&& out.total_send@ == dec_digits(cur.send as int)
            &&& out.total_recv@ == dec_digits(cur.recv as int)
            &&& out.interval_send@ == spec_format(out.delta.send, scaling)
            &&& out.interval_recv@ == spec_format(out.delta.recv, scaling)
        },
{
    let prev = ByteState {
        recv: counter_from_content(prev_recv_content),
        send: counter_from_content(prev_send_content),
    };
    let cur = match read_counters(table, dev) {
        Ok(c) => c,
        Err(e) => {
            return Err(e);
        },
    };
    let delta = cur.sub(prev);
    Ok(TickOutput {
        delta,
        total_send: render_counter(cur.send),
        total_recv: render_counter(cur.recv),
        interval_send: format_bytes(delta.send, scaling),
        interval_recv: format_bytes(delta.recv, scaling),
    })
}

} // verus!
