//! What is handed out when the input ends.
use crate::container::mpegts::demux;
use crate::container::mpegts::demux::DemuxView;
use crate::container::mpegts::pes;
use crate::container::mpegts::pes::{ElementaryKind, PacketView, PesView};
use vstd::prelude::*;

verus! {

/// The first `n` private streams that are listed have nothing accumulating.
pub open spec fn drained(d: DemuxView, private: Seq<(u16, PesView)>, n: int) -> bool {
    forall|i: int|
        0 <= i < n ==> {
            let at = demux::private_from(
                private,
                (#[trigger] d.program.streams.private_streams[i]).pid,
                0,
            );
            at < private.len() ==> private[at].1 == pes::idle()
        }
}

/// A search ends on the PID that was looked for, and misses none.
proof fn lemma_found(private: Seq<(u16, PesView)>, pid: u16, i: int)
    requires
        0 <= i <= private.len(),
    ensures
        i <= demux::private_from(private, pid, i) <= private.len(),
        demux::private_from(private, pid, i) < private.len() ==> private[demux::private_from(
            private,
            pid,
            i,
        )].0 == pid,
    decreases private.len() - i,
{
    if i < private.len() && private[i].0 != pid {
        lemma_found(private, pid, i + 1);
    }
}

/// Where a stream stands depends on the PIDs alone.
proof fn lemma_same_place(
    private: Seq<(u16, PesView)>,
    other: Seq<(u16, PesView)>,
    pid: u16,
    i: int,
)
    requires
        0 <= i <= private.len(),
        private.len() == other.len(),
        forall|k: int| 0 <= k < private.len() ==> (#[trigger] private[k]).0 == other[k].0,
    ensures
        demux::private_from(private, pid, i) == demux::private_from(other, pid, i),
    decreases private.len() - i,
{
    if i < private.len() && private[i].0 != pid {
        assert(private[i].0 == other[i].0);
        lemma_same_place(private, other, pid, i + 1);
    } else if i < private.len() {
        assert(private[i].0 == other[i].0);
    }
}

/// What the private streams hand out leaves them where they stand, those that were
/// listed with nothing accumulating, and the others as they were.
proof fn lemma_private_end(d: DemuxView, n: nat)
    requires
        n <= d.program.streams.private_streams.len(),
    ensures
        ({
            let private = demux::private_end(d, n).0;
            &&& private.len() == d.private.len()
            &&& forall|k: int| 0 <= k < d.private.len() ==> (#[trigger] private[k]).0
                == d.private[k].0
            &&& drained(d, private, n as int)
            &&& forall|k: int|
                0 <= k < d.private.len() && (forall|i: int|
                    0 <= i < n ==> (#[trigger] d.program.streams.private_streams[i]).pid
                        != d.private[k].0) ==> #[trigger] private[k] == d.private[k]
        }),
    decreases n,
{
    if n > 0 {
        lemma_private_end(d, (n - 1) as nat);
        let before = demux::private_end(d, (n - 1) as nat).0;
        let private = demux::private_end(d, n).0;
        let pid = d.program.streams.private_streams[n - 1].pid;
        let at = demux::private_from(before, pid, 0);
        lemma_found(before, pid, 0);
        assert forall|k: int| 0 <= k < d.private.len() implies (#[trigger] private[k]).0
            == d.private[k].0 by {
            assert(before[k].0 == d.private[k].0);
        }
        assert forall|i: int| 0 <= i < n implies ({
            let p = demux::private_from(
                private,
                (#[trigger] d.program.streams.private_streams[i]).pid,
                0,
            );
            p < private.len() ==> private[p].1 == pes::idle()
        }) by {
            let other = d.program.streams.private_streams[i].pid;
            assert forall|k: int| 0 <= k < before.len() implies (#[trigger] before[k]).0
                == private[k].0 by {
                assert(private[k].0 == d.private[k].0);
            }
            lemma_same_place(before, private, other, 0);
            lemma_found(before, other, 0);
        }
        assert forall|k: int|
            0 <= k < d.private.len() && (forall|i: int|
                0 <= i < n ==> (#[trigger] d.program.streams.private_streams[i]).pid
                    != d.private[k].0) implies #[trigger] private[k] == d.private[k] by {
            assert(before[k].0 == d.private[k].0);
            assert(before[k] == d.private[k]);
            if k == at {
                assert(d.program.streams.private_streams[n - 1].pid == d.private[k].0);
            }
        }
    }
}

/// Streams with nothing accumulating hand out nothing.
proof fn lemma_nothing_left(d: DemuxView, n: nat)
    requires
        n <= d.program.streams.private_streams.len(),
        drained(d, d.private, d.program.streams.private_streams.len() as int),
    ensures
        demux::private_end(d, n).1 == Seq::<PacketView>::empty(),
        demux::private_end(d, n).0 == d.private,
    decreases n,
{
    if n > 0 {
        lemma_nothing_left(d, (n - 1) as nat);
        let pid = d.program.streams.private_streams[n - 1].pid;
        let at = demux::private_from(d.private, pid, 0);
        lemma_found(d.private, pid, 0);
        if at < d.private.len() {
            assert(d.private[at] == (pid, pes::idle()));
            assert(d.private.update(at, (pid, pes::idle())) =~= d.private);
        }
    }
}

/// Once the input has ended, ending it again hands out nothing and changes nothing.
pub proof fn law_a_second_end_hands_out_nothing(d: DemuxView)
    ensures
        demux::at_end(demux::at_end(d).0) == (demux::at_end(d).0, Seq::<PacketView>::empty()),
{
    let e = demux::at_end(d).0;
    let n = d.program.streams.private_streams.len();
    lemma_private_end(d, n);
    assert(drained(e, e.private, n as int));
    lemma_nothing_left(e, n);
    assert(demux::at_end(e).1 =~= Seq::<PacketView>::empty());
}

/// What has been handed out stays handed out.
proof fn lemma_out_grows(d: DemuxView, n: nat, m: nat, p: PacketView)
    requires
        n <= m <= d.program.streams.private_streams.len(),
        demux::private_end(d, n).1.contains(p),
    ensures
        demux::private_end(d, m).1.contains(p),
    decreases m,
{
    if n < m {
        lemma_out_grows(d, n, (m - 1) as nat, p);
        let before = demux::private_end(d, (m - 1) as nat).1;
        let after = demux::private_end(d, m).1;
        let k = before.index_of(p);
        assert(after[k] == p);
    }
}

/// A packet that was still accumulating when the input ended is handed out under the
/// kind and the PID that its stream is read as: the picture, the sound, and each private
/// stream that is listed.
pub proof fn law_the_end_hands_out_what_was_accumulating(d: DemuxView, p: PacketView)
    ensures
        d.program.streams.video matches Some(pid) && pes::flushed(
            d.video,
            ElementaryKind::Video,
            pid,
            None,
        ).contains(p) ==> demux::at_end(d).1.contains(p),
        d.program.streams.audio matches Some(pid) && pes::flushed(
            d.audio,
            ElementaryKind::Audio,
            pid,
            None,
        ).contains(p) ==> demux::at_end(d).1.contains(p),
        forall|i: int| #[trigger]
            hands_out_private(d, i, p) ==> demux::at_end(d).1.contains(p),
{
    let out = demux::at_end(d).1;
    let n = d.program.streams.private_streams.len();
    let video_out = match d.program.streams.video {
        Some(pid) => pes::flushed(d.video, ElementaryKind::Video, pid, None),
        None => seq![],
    };
    let audio_out = match d.program.streams.audio {
        Some(pid) => pes::flushed(d.audio, ElementaryKind::Audio, pid, None),
        None => seq![],
    };
    let private_out = demux::private_end(d, n).1;
    assert(out == video_out + audio_out + private_out);
    if video_out.contains(p) {
        assert(out[video_out.index_of(p)] == p);
    }
    if audio_out.contains(p) {
        assert(out[video_out.len() + audio_out.index_of(p)] == p);
    }
    assert forall|i: int| #[trigger] hands_out_private(d, i, p) implies out.contains(p) by {
        let stream = d.program.streams.private_streams[i];
        lemma_private_end(d, i as nat);
        let before = demux::private_end(d, i as nat).0;
        let at = demux::private_from(d.private, stream.pid, 0);
        lemma_found(d.private, stream.pid, 0);
        assert forall|k: int| 0 <= k < before.len() implies (#[trigger] before[k]).0
            == d.private[k].0 by {}
        assert forall|k: int| 0 <= k < d.private.len() implies (#[trigger] d.private[k]).0
            == before[k].0 by {
            assert(before[k].0 == d.private[k].0);
        }
        lemma_same_place(d.private, before, stream.pid, 0);
        assert(before[at] == d.private[at]);
        let flushed = pes::flushed(
            d.private[at].1,
            demux::private_kind(stream),
            stream.pid,
            demux::shared_pts(d),
        );
        let so_far = demux::private_end(d, i as nat).1;
        let next = demux::private_end(d, (i + 1) as nat).1;
        assert(next == so_far + flushed);
        assert(next[so_far.len() + flushed.index_of(p)] == p);
        lemma_out_grows(d, (i + 1) as nat, n, p);
        assert(out[video_out.len() + audio_out.len() + private_out.index_of(p)] == p);
    }
}

/// A packet was accumulating on a private stream that is listed, and is not listed
/// ahead of there under another kind.
pub open spec fn hands_out_private(d: DemuxView, i: int, p: PacketView) -> bool {
    let listed = d.program.streams.private_streams;
    let at = demux::private_from(d.private, listed[i].pid, 0);
    &&& 0 <= i < listed.len()
    &&& forall|j: int| 0 <= j < i ==> (#[trigger] listed[j]).pid != listed[i].pid
    &&& at < d.private.len()
    &&& pes::flushed(
        d.private[at].1,
        demux::private_kind(listed[i]),
        listed[i].pid,
        demux::shared_pts(d),
    ).contains(p)
}

/// Handing out leaves nothing accumulating that was not there before.
proof fn lemma_left_or_idle(d: DemuxView, n: nat)
    requires
        n <= d.program.streams.private_streams.len(),
    ensures
        ({
            let private = demux::private_end(d, n).0;
            &&& private.len() == d.private.len()
            &&& forall|k: int|
                0 <= k < private.len() ==> (#[trigger] private[k]).1 == d.private[k].1
                    || private[k].1 == pes::idle()
        }),
    decreases n,
{
    if n > 0 {
        lemma_left_or_idle(d, (n - 1) as nat);
        let before = demux::private_end(d, (n - 1) as nat).0;
        let private = demux::private_end(d, n).0;
        lemma_found(before, d.program.streams.private_streams[n - 1].pid, 0);
        assert forall|k: int| 0 <= k < private.len() implies (#[trigger] private[k]).1
            == d.private[k].1 || private[k].1 == pes::idle() by {
            assert(before[k].1 == d.private[k].1 || before[k].1 == pes::idle());
        }
    }
}

/// Ending the input leaves as much room as there was.
pub proof fn law_the_end_keeps_the_room(d: DemuxView, more: int)
    requires
        demux::fits(d, more),
    ensures
        demux::fits(demux::at_end(d).0, more),
{
    lemma_left_or_idle(d, d.program.streams.private_streams.len());
    let e = demux::at_end(d).0;
    assert forall|i: int| 0 <= i < e.private.len() implies demux::stream_fits(
        (#[trigger] e.private[i]).1,
        more,
    ) by {
        assert(demux::stream_fits(d.private[i].1, more));
    }
}

} // verus!
