//! The to-device extension: at-most-once delivery of queued direct-to-device
//! messages.  Fetching acknowledges: messages up to the presented watermark
//! are deleted before the remaining ones, up to the new cursor, are returned
//! together with that cursor as the continuation token.

use vstd::prelude::*;

use crate::strutil::{dec_of, u64_to_dec};

verus! {

/// One queued message, stamped with its position in the global order.
pub struct ToDeviceMsg {
    pub count: u64,
    pub payload: String,
}

/// The messages that survive deleting everything up to the watermark.
pub open spec fn kept_msgs(q: Seq<ToDeviceMsg>, since: u64) -> Seq<ToDeviceMsg> {
    q.filter(|m: ToDeviceMsg| m.count > since)
}

/// The messages one fetch returns: past the watermark, up to the new cursor.
pub open spec fn ready_msgs(q: Seq<ToDeviceMsg>, since: u64, next: u64) -> Seq<ToDeviceMsg> {
    q.filter(|m: ToDeviceMsg| m.count > since && m.count <= next)
}

/// The to-device part of the response.
pub struct ToDeviceResult {
    /// the new continuation token, as it appears on the wire
    pub next_batch: String,
    pub events: Vec<ToDeviceMsg>,
}

/// Serve one to-device fetch: delete up to `since`, return what is ready up
/// to `next_batch`.  Disabled requests touch nothing and return nothing.
pub fn collect_to_device(
    enabled: bool,
    queue: &mut Vec<ToDeviceMsg>,
    since: u64,
    next_batch: u64,
) -> (r: Option<ToDeviceResult>)
    ensures
        !enabled ==> r is None && final(queue)@ == old(queue)@,
        enabled ==> final(queue)@ == kept_msgs(old(queue)@, since),
        enabled ==> (r matches Some(res) && res.next_batch@ == dec_of(next_batch as nat) && {
            let ready = ready_msgs(old(queue)@, since, next_batch);
            res.events@.len() == ready.len() && (forall|i: int|
                0 <= i < ready.len() ==> res.events@[i].count == ready[i].count
                    && res.events@[i].payload@ == ready[i].payload@)
        }),
{
    if !enabled {
        return None;
    }
    let ghost q0 = queue@;
    let mut kept: Vec<ToDeviceMsg> = Vec::new();
    let mut events: Vec<ToDeviceMsg> = Vec::new();
    let n = queue.len();
    let mut j: usize = 0;
    while j < n
        invariant
            n == q0.len(),
            0 <= j <= q0.len(),
            queue@ == q0.skip(j as int),
            kept@ == kept_msgs(q0.take(j as int), since),
            ({
                let ready = ready_msgs(q0.take(j as int), since, next_batch);
                events@.len() == ready.len() && (forall|i: int|
                    0 <= i < ready.len() ==> events@[i].count == ready[i].count
                        && events@[i].payload@ == ready[i].payload@)
            }),
        decreases q0.len() - j,
    {
        proof {
            broadcast use Seq::lemma_filter_push;

            assert(q0.skip(j as int)[0] == q0[j as int]);
            assert(q0.skip(j as int).remove(0) =~= q0.skip(j as int + 1));
            let prefix = q0.take(j as int);
            let pushed = prefix.push(q0[j as int]);
            assert(q0.take(j as int + 1) =~= pushed);
            if q0[j as int].count > since {
                assert(kept_msgs(pushed, since) == kept_msgs(prefix, since).push(q0[j as int]));
            } else {
                assert(kept_msgs(pushed, since) == kept_msgs(prefix, since));
            }
            if q0[j as int].count > since && q0[j as int].count <= next_batch {
                assert(ready_msgs(pushed, since, next_batch) == ready_msgs(
                    prefix,
                    since,
                    next_batch,
                ).push(q0[j as int]));
            } else {
                assert(ready_msgs(pushed, since, next_batch) == ready_msgs(
                    prefix,
                    since,
                    next_batch,
                ));
            }
            assert(kept_msgs(q0.take(j as int + 1), since) == kept_msgs(pushed, since));
            assert(ready_msgs(q0.take(j as int + 1), since, next_batch) == ready_msgs(
                pushed,
                since,
                next_batch,
            ));
        }
        let m = queue.remove(0);
        if m.count > since {
            if m.count <= next_batch {
                events.push(ToDeviceMsg { count: m.count, payload: m.payload.clone() });
            }
            kept.push(m);
        }
        j = j + 1;
    }
    proof {
        assert(q0.take(q0.len() as int) =~= q0);
    }
    *queue = kept;
    Some(ToDeviceResult { next_batch: u64_to_dec(next_batch), events })
}

/// At-most-once delivery: a message fetched by a sync that moved the cursor
/// to `w2` is never among those fetched by any later sync whose presented
/// watermark is `w2` or beyond, whatever the queue has become meanwhile.
pub proof fn lemma_to_device_at_most_once(
    q0: Seq<ToDeviceMsg>,
    w1: u64,
    w2: u64,
    q1: Seq<ToDeviceMsg>,
    w3: u64,
    w4: u64,
)
    requires
        w3 >= w2,
    ensures
        forall|i: int, j: int|
            0 <= i < ready_msgs(q0, w1, w2).len() && 0 <= j < ready_msgs(q1, w3, w4).len()
                ==> ready_msgs(q0, w1, w2)[i].count != ready_msgs(q1, w3, w4)[j].count,
{
    broadcast use vstd::seq_lib::group_filter_ensures;

    assert forall|i: int, j: int|
        0 <= i < ready_msgs(q0, w1, w2).len() && 0 <= j < ready_msgs(
            q1,
            w3,
            w4,
        ).len() implies ready_msgs(q0, w1, w2)[i].count != ready_msgs(q1, w3, w4)[j].count by {
        assert(ready_msgs(q0, w1, w2)[i].count <= w2);
        assert(ready_msgs(q1, w3, w4)[j].count > w3);
    }
}

} // verus!
