//! The scan itself: every worker probes the ports of its stride, and what
//! the workers find is gathered into one ascending list.
//!
//! Probing a port is the caller's business. The engine is handed a probe, a
//! function from target and port to "open" or "closed", and promises of its
//! result exactly what the probe's answers were.

use crate::config::{ScanConfig, TargetAddress};
use crate::partition::{
    is_port, lemma_stride_ascending, lemma_stride_owner, owner, stride, Worker,
};
use crate::results::{
    ascending, lemma_ascending_no_duplicates, lemma_ascending_unique, ScanResult,
};
use vstd::arithmetic::div_mod::lemma_mod_bound;
use vstd::prelude::*;

verus! {

/// Whether `found` lists, in ascending order, exactly the ports of `ports`
/// that `probe` reported open on `target`: each port it lists is one of
/// `ports` and was reported open, and each port of `ports` that it leaves out
/// was reported closed.
pub open spec fn open_among<F: Fn(TargetAddress, u16) -> bool>(
    probe: F,
    target: TargetAddress,
    ports: Seq<int>,
    found: Seq<u16>,
) -> bool {
    &&& ascending(found)
    &&& forall|port: u16| #[trigger]
        found.contains(port) ==> ports.contains(port as int) && probe.ensures((target, port), true)
    &&& forall|port: u16|
        ports.contains(port as int) && !(#[trigger] found.contains(port)) ==> probe.ensures(
            (target, port),
            false,
        )
}

/// Runs one worker to the end of its stride: probes each port it has left,
/// in order, and returns those that the probe reported open. A port
/// reported closed is left out and nothing more is made of it. A worker
/// shares nothing with the others of its pool, so each may run on a thread
/// of its own.
pub fn probe_stride<F: Fn(TargetAddress, u16) -> bool>(
    target: TargetAddress,
    worker: Worker,
    probe: &F,
) -> (found: Vec<u16>)
    requires
        forall|port: u16|
            worker.remaining().contains(port as int) ==> probe.requires((target, port)),
    ensures
        open_among(*probe, target, worker.remaining(), found@),
{
    let mut cursor = worker;
    let mut found: Vec<u16> = Vec::new();
    let ghost index = worker.index();
    let ghost pool = worker.pool();
    let ghost start = worker.handed() as int;
    let ghost ports = stride(index, pool);
    loop
        invariant
            cursor.index() == index,
            cursor.pool() == pool,
            ports == stride(index, pool),
            0 <= start <= cursor.handed(),
            worker.remaining() == ports.skip(start),
            forall|port: u16|
                worker.remaining().contains(port as int) ==> probe.requires((target, port)),
            ascending(found@),
            forall|port: u16| #[trigger]
                found@.contains(port) ==> probe.ensures((target, port), true) && exists|k: int|
                    start <= k < cursor.handed() && k < ports.len() && ports[k] == port,
            forall|port: u16, k: int|
                start <= k < cursor.handed() && k < ports.len() && #[trigger] ports[k] == port && !(
                #[trigger] found@.contains(port)) ==> probe.ensures((target, port), false),
        ensures
            cursor.handed() == ports.len(),
        decreases ports.len() - cursor.handed(),
    {
        let ghost at = cursor.handed() as int;
        let ghost before = found@;
        match cursor.next_port() {
            None => {
                break ;
            },
            Some(port) => {
                proof {
                    assert(worker.remaining()[at - start] == port);
                    assert(worker.remaining().contains(port as int));
                }
                let is_open = probe(target, port);
                if is_open {
                    found.push(port);
                }
                proof {
                    assert forall|i: int| 0 <= i < before.len() implies before[i] < port by {
                        assert(before.contains(before[i]));
                        let k = choose|k: int|
                            start <= k < at && k < ports.len() && ports[k] == before[i];
                        lemma_stride_ascending(index, pool, k, at);
                    }
                    assert forall|p: u16| #[trigger] found@.contains(p) implies probe.ensures(
                        (target, p),
                        true,
                    ) && exists|k: int|
                        start <= k < at + 1 && k < ports.len() && ports[k] == p by {
                        let i = choose|i: int| 0 <= i < found@.len() && found@[i] == p;
                        if i < before.len() {
                            assert(before[i] == p);
                            assert(before.contains(p));
                            let k = choose|k: int|
                                start <= k < at && k < ports.len() && ports[k] == p;
                            assert(start <= k < at + 1 && k < ports.len() && ports[k] == p);
                        } else {
                            assert(start <= at < at + 1 && at < ports.len() && ports[at] == p);
                        }
                    }
                    assert forall|p: u16, k: int|
                        start <= k < at + 1 && k < ports.len() && #[trigger] ports[k] == p && !(
                        #[trigger] found@.contains(p)) implies probe.ensures(
                        (target, p),
                        false,
                    ) by {
                        if k < at {
                            if before.contains(p) {
                                let i = choose|i: int| 0 <= i < before.len() && before[i] == p;
                                assert(found@[i] == p);
                            }
                        } else if is_open {
                            assert(found@[found@.len() - 1] == port);
                        }
                    }
                }
            },
        }
    }
    proof {
        let left = worker.remaining();
        assert forall|p: u16| #[trigger] found@.contains(p) implies left.contains(p as int) by {
            let k = choose|k: int| start <= k < ports.len() && ports[k] == p;
            assert(left[k - start] == p);
        }
        assert forall|p: u16| left.contains(p as int) && !(#[trigger] found@.contains(
            p,
        )) implies probe.ensures((target, p), false) by {
            let i = choose|i: int| 0 <= i < left.len() && left[i] == p as int;
            assert(ports[start + i] == p);
        }
    }
    found
}

/// Whether `open` is the result of scanning `target` with `probe`: an
/// ascending list without repetition that holds a port exactly when it is
/// one of the ports 1 to 65535 and the probe reported it open.
pub open spec fn scan_outcome<F: Fn(TargetAddress, u16) -> bool>(
    probe: F,
    target: TargetAddress,
    open: Seq<u16>,
) -> bool {
    &&& ascending(open)
    &&& open.no_duplicates()
    &&& forall|port: u16| #[trigger]
        open.contains(port) ==> is_port(port as int) && probe.ensures((target, port), true)
    &&& forall|port: u16|
        is_port(port as int) && !(#[trigger] open.contains(port)) ==> probe.ensures(
            (target, port),
            false,
        )
}

/// What a pool's gathered findings are worth. Let every worker of a pool of
/// `count` have probed its whole stride, `found[w]` being what worker `w`
/// found, and let `open` list in ascending order exactly the ports that some
/// worker found. Then `open` is the result of the scan, in whatever order
/// the workers ran and their findings arrived.
pub proof fn lemma_gathered_outcome<F: Fn(TargetAddress, u16) -> bool>(
    probe: F,
    target: TargetAddress,
    count: int,
    found: Seq<Seq<u16>>,
    open: Seq<u16>,
)
    requires
        1 <= count <= 65535,
        found.len() == count,
        forall|worker: int|
            0 <= worker < count ==> open_among(
                probe,
                target,
                stride(worker, count),
                #[trigger] found[worker],
            ),
        ascending(open),
        forall|port: u16|
            open.contains(port) <==> exists|worker: int|
                0 <= worker < count && (#[trigger] found[worker]).contains(port),
    ensures
        scan_outcome(probe, target, open),
{
    lemma_ascending_no_duplicates(open);
    assert forall|port: u16| #[trigger] open.contains(port) implies is_port(port as int)
        && probe.ensures((target, port), true) by {
        let worker = choose|worker: int|
            0 <= worker < count && (#[trigger] found[worker]).contains(port);
        lemma_stride_owner(worker, count, port as int);
    }
    assert forall|port: u16|
        is_port(port as int) && !(#[trigger] open.contains(port)) implies probe.ensures(
        (target, port),
        false,
    ) by {
        let worker = owner(port as int, count);
        lemma_mod_bound(port as int - 1, count);
        lemma_stride_owner(worker, count, port as int);
        assert(!found[worker].contains(port));
    }
}

/// Scanning a host whose open ports are known gives exactly those ports.
/// Let the probe answer "open" for the ports of `open_ports` and "closed"
/// for all others. Then the result of a scan holds the ports of
/// `open_ports` from 1 to 65535 and no others, however many workers there
/// were; and being ascending, it is the one list that does.
pub proof fn lemma_scan_of_known_host<F: Fn(TargetAddress, u16) -> bool>(
    probe: F,
    target: TargetAddress,
    open_ports: Set<u16>,
    open: Seq<u16>,
)
    requires
        forall|port: u16, answer: bool| #[trigger]
            probe.ensures((target, port), answer) ==> answer == open_ports.contains(port),
        scan_outcome(probe, target, open),
    ensures
        forall|port: u16| open.contains(port) <==> port >= 1 && open_ports.contains(port),
        forall|other: Seq<u16>|
            scan_outcome(probe, target, other) ==> other == open,
{
    assert forall|port: u16| open.contains(port) <==> port >= 1 && open_ports.contains(port) by {
        if open.contains(port) {
            assert(probe.ensures((target, port), true));
        }
        if port >= 1 && !open.contains(port) {
            assert(probe.ensures((target, port), false));
        }
    }
    assert forall|other: Seq<u16>| scan_outcome(probe, target, other) implies other == open by {
        assert forall|port: u16| other.to_set().contains(port) <==> open.to_set().contains(port) by {
            if other.contains(port) {
                assert(probe.ensures((target, port), true));
            }
            if port >= 1 && !other.contains(port) {
                assert(probe.ensures((target, port), false));
            }
        }
        assert(other.to_set() =~= open.to_set());
        lemma_ascending_unique(other, open);
    }
}

/// Scans the target of `config`: runs each of the configured workers over
/// its stride, gathers what they find and returns the open ports in
/// ascending order. The scan cannot fail: a port whose probe fails is a
/// closed port.
///
/// The workers run one after the other here. A caller that runs them side
/// by side, with `probe_stride` on a thread for each, and gathers what they
/// find in a `ScanResult` gets the same list: see `lemma_gathered_outcome`.
pub fn scan<F: Fn(TargetAddress, u16) -> bool>(config: &ScanConfig, probe: F) -> (open: Vec<u16>)
    requires
        forall|port: u16| is_port(port as int) ==> probe.requires((config.target(), port)),
    ensures
        scan_outcome(probe, config.target(), open@),
{
    let target = config.target();
    let count: u16 = config.workers();
    let mut result = ScanResult::new();
    let ghost mut found: Seq<Seq<u16>> = Seq::empty();
    let mut index: u16 = 0;
    while index < count
        invariant
            1 <= count,
            index <= count,
            forall|port: u16| is_port(port as int) ==> probe.requires((target, port)),
            found.len() == index,
            forall|worker: int|
                0 <= worker < index ==> open_among(
                    probe,
                    target,
                    stride(worker, count as int),
                    #[trigger] found[worker],
                ),
            forall|port: u16|
                result@.contains(port) <==> exists|worker: int|
                    0 <= worker < index && (#[trigger] found[worker]).contains(port),
        decreases count - index,
    {
        let worker = Worker::new(index, count).unwrap();
        proof {
            assert(worker.remaining() =~= stride(index as int, count as int));
            assert forall|port: u16|
                worker.remaining().contains(port as int) implies probe.requires((target, port)) by {
                lemma_stride_owner(index as int, count as int, port as int);
            }
        }
        let stride_found = probe_stride(target, worker, &probe);
        let ghost before = result@;
        let ghost earlier = found;
        result.record_all(&stride_found);
        proof {
            found = earlier.push(stride_found@);
            assert forall|port: u16| result@.contains(port) <==> exists|worker: int|
                0 <= worker < index + 1 && (#[trigger] found[worker]).contains(port) by {
                if before.contains(port) {
                    let worker = choose|worker: int|
                        0 <= worker < index && (#[trigger] earlier[worker]).contains(port);
                    assert(found[worker].contains(port));
                }
                if stride_found@.contains(port) {
                    assert(found[index as int].contains(port));
                }
                if exists|worker: int|
                    0 <= worker < index + 1 && (#[trigger] found[worker]).contains(port) {
                    let worker = choose|worker: int|
                        0 <= worker < index + 1 && (#[trigger] found[worker]).contains(port);
                    if worker < index {
                        assert(earlier[worker].contains(port));
                    }
                }
            }
        }
        index += 1;
    }
    let open = result.into_sorted();
    proof {
        assert forall|port: u16| open@.contains(port) <==> result@.contains(port) by {
            assert(open@.to_set().contains(port) <==> open@.contains(port));
        }
        lemma_gathered_outcome(probe, target, count as int, found, open@);
    }
    open
}

} // verus!
