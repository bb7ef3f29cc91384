//! What one device sends is what another receives.

use vstd::prelude::*;
use crate::connection;
use crate::connection::{Disk, Event, Received, Serving};
use crate::outbound;
use crate::outbound::FileFrame;

verus! {

/// What a frame of a file is at the other end: a chunk of its payload, and the bytes in it.
pub open spec fn arrived(f: FileFrame, id: i64, header: String) -> (Event, Seq<u8>) {
    (
        Event::Frame(
            Received::FileChunk {
                id,
                len: f.body.len() as u64,
                last: f.last,
                file_name: header,
            },
        ),
        f.body,
    )
}

pub open spec fn all_arrived(frames: Seq<FileFrame>, id: i64, header: String) -> Seq<
    (Event, Seq<u8>),
> {
    Seq::new(frames.len(), |i: int| arrived(frames[i], id, header))
}

/// The first frames of a file hold the first of its bytes.
proof fn lemma_chunks_arrive(size: i64, data: Seq<u8>, id: i64, header: String, k: int)
    requires
        0 <= k <= outbound::chunk_count(data),
    ensures
        connection::chunks_of(
            all_arrived(outbound::file_frames(size, data).take(k), id, header),
            id,
        ) == data.take(outbound::chunk_end(data, k)),
    decreases k,
{
    let frames = outbound::file_frames(size, data);
    let evs = all_arrived(frames.take(k), id, header);
    if k == 0 {
        assert(evs =~= seq![]);
        assert(data.take(0) =~= seq![]);
    } else {
        lemma_chunks_arrive(size, data, id, header, k - 1);
        assert(evs.drop_last() =~= all_arrived(frames.take(k - 1), id, header));
        assert(evs.last() == arrived(frames[k - 1], id, header));
        let from = (k - 1) * outbound::CHUNK;
        let to = outbound::chunk_end(data, k);
        assert(from < data.len());
        assert(outbound::chunk_end(data, k - 1) == from);
        assert(data.take(from) + data.subrange(from, to) =~= data.take(to));
    }
}

/// A file that is sent is received as it is: the frames that a sender makes of it, taken in by a
/// receiver who agreed to the payload, leave one more complete file, which holds every byte of
/// it in its place.
pub proof fn law_sent_file_is_received(
    s: Serving,
    disk: Disk,
    id: i64,
    size: i64,
    data: Seq<u8>,
    header: String,
)
    requires
        disk.open.dom() == s.sinks,
        s.expected.dom().contains(id),
        !s.sinks.contains(id),
    ensures
        ({
            let evs = all_arrived(outbound::file_frames(size, data), id, header);
            let (_, after) = connection::run_on(s, disk, evs);
            &&& after.complete.len() > 0
            &&& after.complete.last().1 == data
            &&& !after.open.dom().contains(id)
        }),
{
    let frames = outbound::file_frames(size, data);
    let n = outbound::chunk_count(data) as int;
    let evs = all_arrived(frames.take(n), id, header);
    lemma_chunks_arrive(size, data, id, header, n);
    assert(outbound::chunk_end(data, n) == data.len());
    assert(data.take(data.len() as int) =~= data);
    assert forall|k: int| 0 <= k < evs.len() implies connection::goes_on(
        #[trigger] evs[k],
        id,
    ) by {
        assert(evs[k] == arrived(frames[k], id, header));
        assert(!frames[k].last);
        assert(frames[k].body.len() <= outbound::CHUNK);
    }
    lemma_nothing_is_given_up(s, disk, evs);
    connection::law_file_is_received_whole(s, disk, evs, id, seq![], header);
    let end = arrived(frames[n], id, header);
    assert(evs.push(end) =~= all_arrived(frames, id, header));
    assert(data + Seq::<u8>::empty() =~= data);
}

/// Chunks give nothing up.
proof fn lemma_nothing_is_given_up(s: Serving, disk: Disk, evs: Seq<(Event, Seq<u8>)>)
    requires
        forall|k: int| 0 <= k < evs.len() ==> (#[trigger] evs[k]).0 is Frame,
    ensures
        connection::not_all_off(s, disk, evs),
    decreases evs.len(),
{
    if evs.len() > 0 {
        let front = evs.drop_last();
        assert forall|k: int| 0 <= k < front.len() implies (#[trigger] front[k]).0 is Frame by {
            assert(front[k] == evs[k]);
        }
        lemma_nothing_is_given_up(s, disk, front);
        assert(evs.last() == evs[evs.len() - 1]);
    }
}

} // verus!
