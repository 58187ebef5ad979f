//! The decisions of a liveness sweep: what a probe's outcome records on a
//! relay, and when progress is reported.
use crate::parser::{_relay, relays_view, RelayView};
use vstd::prelude::*;

verus! {

/// A relay after a probe: it is alive exactly when the connection opened,
/// its ping is the time the connection took to open (none when it did not),
/// and it was checked at the given time.
pub open spec fn probed(v: RelayView, connected_ms: Option<u64>, checked_at: Seq<char>) -> RelayView {
    RelayView {
        alive: Some(connected_ms is Some),
        ping_ms: connected_ms,
        checked_at: Some(checked_at),
        ..v
    }
}

/// Records the outcome of probing relay `i`: `connected_ms` is the time in
/// milliseconds the connection took to open, or none where it did not open
/// in time. Every other relay stays.
pub fn record_probe(relays: &mut Vec<_relay>, i: usize, connected_ms: Option<u64>, checked_at: &str)
    requires
        i < old(relays)@.len(),
    ensures
        relays_view(final(relays)@) == relays_view(old(relays)@).update(
            i as int,
            probed(old(relays)@[i as int]@, connected_ms, checked_at@),
        ),
{
    let mut r = relays[i].duplicate();
    r.alive = Some(connected_ms.is_some());
    r.ping_ms = connected_ms;
    r.checked_at = Some(checked_at.to_owned());
    let ghost before = relays@;
    relays.set(i, r);
    proof {
        assert(r@ =~= probed(before[i as int]@, connected_ms, checked_at@));
        assert(relays_view(relays@) =~= relays_view(before).update(i as int, r@));
    }
}

/// A probe records only its outcome: the relay is alive exactly when the
/// connection opened, carries the time it took (none when it did not open)
/// and the time of the check, and keeps everything else it had.
pub proof fn law_probe_records_outcome(v: RelayView, connected_ms: Option<u64>, checked_at: Seq<char>)
    ensures
        probed(v, connected_ms, checked_at).alive == Some(true) <==> connected_ms is Some,
        probed(v, connected_ms, checked_at).alive is Some,
        probed(v, connected_ms, checked_at).ping_ms == connected_ms,
        probed(v, connected_ms, checked_at).checked_at == Some(checked_at),
        probed(v, connected_ms, checked_at).kind == v.kind,
        probed(v, connected_ms, checked_at).addr == v.addr,
        probed(v, connected_ms, checked_at).port == v.port,
        probed(v, connected_ms, checked_at).secret == v.secret,
        probed(v, connected_ms, checked_at).tag == v.tag,
        probed(v, connected_ms, checked_at).extra == v.extra,
        probed(v, connected_ms, checked_at).source_repo == v.source_repo,
        probed(v, connected_ms, checked_at).source_path == v.source_path,
{
}

/// Progress is reported after every fiftieth probe and after the last one.
pub fn report_progress(done: usize, total: usize) -> (r: bool)
    ensures
        r == (done % 50 == 0 || done == total),
{
    done % 50 == 0 || done == total
}

} // verus!
