//! The static partition of the port space: worker `i` of `N` probes the ports
//! `i + 1`, `i + 1 + N`, `i + 1 + 2N`, ... up to the highest port.

use vstd::arithmetic::div_mod::{
    lemma_div_is_ordered, lemma_div_multiples_vanish, lemma_div_plus_one,
    lemma_fundamental_div_mod, lemma_fundamental_div_mod_converse,
};
use vstd::arithmetic::mul::{lemma_mul_inequality, lemma_mul_is_commutative};
use vstd::prelude::*;

verus! {

/// The highest TCP port. Port 0 is never probed.
pub const MAX_PORT: u16 = 65535;

/// Whether `port` is one of the ports a scan covers.
pub open spec fn is_port(port: int) -> bool {
    1 <= port <= 65535
}

/// Whether `worker` is one of the workers of a pool of `count`.
pub open spec fn is_worker(worker: int, count: int) -> bool {
    0 <= worker < count <= 65535
}

/// How many ports worker `worker` of `count` probes.
pub open spec fn stride_len(worker: int, count: int) -> nat
    recommends
        is_worker(worker, count),
{
    ((65534 - worker) / count + 1) as nat
}

/// The ports of worker `worker` of `count`, in the order it probes them.
pub open spec fn stride(worker: int, count: int) -> Seq<int>
    recommends
        is_worker(worker, count),
{
    Seq::new(stride_len(worker, count), |k: int| worker + 1 + k * count)
}

/// The ports of worker `worker` of `count`, as a set.
pub open spec fn stride_set(worker: int, count: int) -> Set<int>
    recommends
        is_worker(worker, count),
{
    stride(worker, count).to_set()
}

/// Every port that some worker of a pool of `count` probes.
pub open spec fn probed(count: int) -> Set<int> {
    Set::new(
        |port: int|
            exists|worker: int|
                is_worker(worker, count) && #[trigger] stride_set(worker, count).contains(port),
    )
}

/// All ports a scan covers.
pub open spec fn all_ports() -> Set<int> {
    Set::new(|port: int| is_port(port))
}

/// The worker of a pool of `count` that probes `port`.
pub open spec fn owner(port: int, count: int) -> int
    recommends
        is_port(port),
        1 <= count,
{
    (port - 1) % count
}

/// For a positive divisor, `k` is at most the quotient exactly when `k` times
/// the divisor is at most the dividend.
proof fn lemma_quotient_bound(k: int, x: int, d: int)
    requires
        d > 0,
    ensures
        k <= x / d <==> k * d <= x,
{
    lemma_fundamental_div_mod(x, d);
    lemma_mul_is_commutative(d, x / d);
    if k <= x / d {
        lemma_mul_inequality(k, x / d, d);
    }
    if k * d <= x {
        lemma_div_multiples_vanish(k, d);
        lemma_mul_is_commutative(d, k);
        lemma_div_is_ordered(k * d, x, d);
    }
}

/// Every worker has at least one port, and its stride starts right after its
/// index.
pub proof fn lemma_stride_first(worker: int, count: int)
    requires
        is_worker(worker, count),
    ensures
        stride_len(worker, count) >= 1,
        stride(worker, count)[0] == worker + 1,
{
    lemma_quotient_bound(0, 65534 - worker, count);
}

/// The ports of a stride are valid ports, each `count` above the one before,
/// and the last one is within `count` of the highest port.
pub proof fn lemma_stride_step(worker: int, count: int, k: int)
    requires
        is_worker(worker, count),
        0 <= k < stride_len(worker, count),
    ensures
        is_port(stride(worker, count)[k]),
        k + 1 < stride_len(worker, count) <==> stride(worker, count)[k] + count <= 65535,
        k + 1 < stride_len(worker, count) ==> stride(worker, count)[k + 1] == stride(
            worker,
            count,
        )[k] + count,
{
    lemma_quotient_bound(0, 65534 - worker, count);
    lemma_quotient_bound(k, 65534 - worker, count);
    lemma_quotient_bound(k + 1, 65534 - worker, count);
    assert((k + 1) * count == k * count + count) by (nonlinear_arith);
    assert(0 <= k * count) by (nonlinear_arith)
        requires
            0 <= k,
            0 < count,
    ;
}

/// A stride is in ascending order.
pub proof fn lemma_stride_ascending(worker: int, count: int, lower: int, upper: int)
    requires
        is_worker(worker, count),
        0 <= lower < upper < stride_len(worker, count),
    ensures
        stride(worker, count)[lower] < stride(worker, count)[upper],
{
    assert(lower * count < upper * count) by (nonlinear_arith)
        requires
            lower < upper,
            0 < count,
    ;
}

/// A worker's stride holds the ports that lie a whole number of pool sizes
/// above its first port, and no others.
pub proof fn lemma_stride_members(worker: int, count: int, port: int)
    requires
        is_worker(worker, count),
    ensures
        stride_set(worker, count).contains(port) <==> is_port(port) && exists|k: int|
            0 <= k && port == worker + 1 + #[trigger] (k * count),
{
    let s = stride(worker, count);
    if s.contains(port) {
        let k = choose|k: int| 0 <= k < s.len() && s[k] == port;
        lemma_stride_step(worker, count, k);
        assert(0 <= k && port == worker + 1 + k * count);
    }
    if is_port(port) && exists|k: int| 0 <= k && port == worker + 1 + #[trigger] (k * count) {
        let k = choose|k: int| 0 <= k && port == worker + 1 + #[trigger] (k * count);
        lemma_quotient_bound(k, 65534 - worker, count);
        assert(s[k] == port);
    }
}

/// A port belongs to a worker's stride exactly when it is a valid port whose
/// owner is that worker.
pub proof fn lemma_stride_owner(worker: int, count: int, port: int)
    requires
        is_worker(worker, count),
    ensures
        stride_set(worker, count).contains(port) <==> is_port(port) && owner(port, count) == worker,
{
    let s = stride(worker, count);
    if s.contains(port) {
        let k = choose|k: int| 0 <= k < s.len() && s[k] == port;
        lemma_stride_step(worker, count, k);
        lemma_fundamental_div_mod_converse(port - 1, count, k, worker);
    }
    if is_port(port) && owner(port, count) == worker {
        let k = (port - 1) / count;
        lemma_fundamental_div_mod(port - 1, count);
        lemma_mul_is_commutative(count, k);
        lemma_quotient_bound(0, port - 1, count);
        lemma_quotient_bound(k, 65534 - worker, count);
        assert(s[k] == port);
    }
}

/// The strides of a pool of workers leave no gap: together they hold every
/// port from 1 to 65535 and nothing else.
pub proof fn lemma_strides_cover(count: int)
    requires
        1 <= count <= 65535,
    ensures
        probed(count) == all_ports(),
{
    assert forall|port: int| probed(count).contains(port) <==> all_ports().contains(port) by {
        if probed(count).contains(port) {
            let w = choose|w: int|
                is_worker(w, count) && #[trigger] stride_set(w, count).contains(port);
            lemma_stride_owner(w, count, port);
        }
        if is_port(port) {
            let w = owner(port, count);
            lemma_stride_owner(w, count, port);
            assert(stride_set(w, count).contains(port));
        }
    }
}

/// The strides of a pool of workers do not overlap: no port is probed by two
/// different workers.
pub proof fn lemma_strides_disjoint(count: int, first: int, second: int)
    requires
        is_worker(first, count),
        is_worker(second, count),
        first != second,
    ensures
        stride_set(first, count).disjoint(stride_set(second, count)),
{
    assert forall|port: int|
        !(stride_set(first, count).contains(port) && stride_set(second, count).contains(port)) by {
        lemma_stride_owner(first, count, port);
        lemma_stride_owner(second, count, port);
    }
}

/// With a single worker, that worker probes every port.
pub proof fn lemma_single_worker_takes_all()
    ensures
        stride_len(0, 1) == 65535,
        stride_set(0, 1) == all_ports(),
{
    assert forall|port: int| stride_set(0, 1).contains(port) <==> all_ports().contains(port) by {
        lemma_stride_owner(0, 1, port);
    }
}

/// With 65535 workers, each worker probes exactly one port: the one right
/// after its index.
pub proof fn lemma_one_port_each(worker: int)
    requires
        is_worker(worker, 65535),
    ensures
        stride(worker, 65535) == seq![worker + 1],
{
    assert(stride(worker, 65535) =~= seq![worker + 1]);
}

/// The workers of a pool carry near-equal loads: no worker probes more ports
/// than a worker with a lower index, and no two loads differ by more than
/// one port.
pub proof fn lemma_loads_balanced(count: int, first: int, second: int)
    requires
        is_worker(first, count),
        is_worker(second, count),
        first <= second,
    ensures
        stride_len(second, count) <= stride_len(first, count) <= stride_len(second, count) + 1,
{
    lemma_quotient_bound(0, 65534 - second, count);
    lemma_div_is_ordered(65534 - second, 65534 - first, count);
    lemma_div_is_ordered(65534 - first, 65534 - second + count, count);
    lemma_div_plus_one(65534 - second, count);
}

/// The partition is a function of the worker's index and the pool's size
/// alone, whatever the probes answer: two workers that agree on both are
/// assigned the same ports, and if they have come equally far they have
/// the same ports left, in the same order.
pub proof fn lemma_partition_deterministic(first: Worker, second: Worker)
    requires
        first.index() == second.index(),
        first.pool() == second.pool(),
    ensures
        stride_set(first.index(), first.pool()) == stride_set(second.index(), second.pool()),
        first.handed() == second.handed() ==> first.remaining() == second.remaining(),
{
}

/// One worker of a pool: a generator of the ports of its stride, in
/// ascending order. It holds nothing but its index, the pool's size and the
/// port it probes next.
#[derive(Debug)]
pub struct Worker {
    offset: u16,
    count: u16,
    next: Option<u16>,
}

impl Worker {
    #[verifier::type_invariant]
    spec fn inv(self) -> bool {
        &&& self.offset < self.count
        &&& self.next matches Some(port) ==> port >= 1 && owner(port as int, self.count as int)
            == self.offset
    }

    /// The worker's index in its pool.
    pub closed spec fn index(&self) -> int {
        self.offset as int
    }

    /// The number of workers in the pool.
    pub closed spec fn pool(&self) -> int {
        self.count as int
    }

    /// How many ports of its stride the worker has handed out so far.
    pub closed spec fn handed(&self) -> nat {
        match self.next {
            Some(port) => ((port - 1) / (self.count as int)) as nat,
            None => stride_len(self.offset as int, self.count as int),
        }
    }

    /// The ports the worker has yet to hand out, in order.
    pub open spec fn remaining(&self) -> Seq<int> {
        stride(self.index(), self.pool()).skip(self.handed() as int)
    }

    /// Worker `offset` of a pool of `count`, about to probe its first port.
    /// There is no such worker unless `offset < count`.
    pub fn new(offset: u16, count: u16) -> (worker: Option<Worker>)
        ensures
            worker is Some <==> offset < count,
            worker matches Some(w) ==> w.index() == offset && w.pool() == count && w.handed() == 0,
    {
        if offset < count {
            let first: u16 = offset + 1;
            proof {
                lemma_fundamental_div_mod_converse(first - 1, count as int, 0, offset as int);
            }
            Some(Worker { offset, count, next: Some(first) })
        } else {
            None
        }
    }

    /// Hands out the next port of the stride, or `None` once the stride is
    /// exhausted.
    pub fn next_port(&mut self) -> (port: Option<u16>)
        ensures
            is_worker(old(self).index(), old(self).pool()),
            final(self).index() == old(self).index(),
            final(self).pool() == old(self).pool(),
            match port {
                Some(p) => {
                    &&& old(self).handed() < stride_len(old(self).index(), old(self).pool())
                    &&& p == stride(old(self).index(), old(self).pool())[old(self).handed() as int]
                    &&& final(self).handed() == old(self).handed() + 1
                },
                None => {
                    &&& old(self).handed() == stride_len(old(self).index(), old(self).pool())
                    &&& final(self).handed() == old(self).handed()
                },
            },
    {
        proof {
            use_type_invariant(&*self);
        }
        match self.next {
            None => None,
            Some(p) => {
                let ghost worker = self.offset as int;
                let ghost count = self.count as int;
                let ghost k = (p - 1) / count;
                proof {
                    lemma_fundamental_div_mod(p - 1, count);
                    lemma_mul_is_commutative(count, k);
                    lemma_quotient_bound(0, p - 1, count);
                    lemma_quotient_bound(k, 65534 - worker, count);
                    lemma_stride_step(worker, count, k);
                }
                if MAX_PORT - p < self.count {
                    self.next = None;
                } else {
                    let q: u16 = p + self.count;
                    proof {
                        assert((k + 1) * count == k * count + count) by (nonlinear_arith);
                        lemma_fundamental_div_mod_converse(q - 1, count, k + 1, worker);
                    }
                    self.next = Some(q);
                }
                Some(p)
            },
        }
    }
}

} // verus!
