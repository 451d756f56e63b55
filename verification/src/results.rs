//! The result of a scan: the set of ports found open, gathered in whatever
//! order the discoveries arrive and handed out in ascending order.

use vstd::prelude::*;

verus! {

/// Whether every port of the sequence is below the one after it.
pub open spec fn ascending(ports: Seq<u16>) -> bool {
    forall|i: int, j: int| 0 <= i < j < ports.len() ==> ports[i] < ports[j]
}

/// An ascending sequence holds no port twice.
pub proof fn lemma_ascending_no_duplicates(ports: Seq<u16>)
    requires
        ascending(ports),
    ensures
        ports.no_duplicates(),
{
    assert forall|i: int, j: int|
        0 <= i < ports.len() && 0 <= j < ports.len() && i != j implies ports[i] != ports[j] by {
        if i < j {
            assert(ports[i] < ports[j]);
        } else {
            assert(ports[j] < ports[i]);
        }
    }
}

/// A set of ports has at most one ascending listing: two ascending sequences
/// that hold the same ports are the same sequence. So the order in which
/// discoveries arrive leaves no trace in the sorted result.
pub proof fn lemma_ascending_unique(first: Seq<u16>, second: Seq<u16>)
    requires
        ascending(first),
        ascending(second),
        first.to_set() == second.to_set(),
    ensures
        first == second,
    decreases first.len(),
{
    if first.len() == 0 {
        if second.len() > 0 {
            assert(second.to_set().contains(second[0]));
        }
        assert(first =~= second);
    } else {
        // The highest port of the set ends both sequences.
        let top = first.last();
        assert(first.to_set().contains(top));
        let at = choose|at: int| 0 <= at < second.len() && second[at] == top;
        if at + 1 < second.len() {
            let above = second[at + 1];
            assert(second.to_set().contains(above));
            let i = choose|i: int| 0 <= i < first.len() && first[i] == above;
            assert(first[i] <= top);
        }
        assert(second.last() == top);
        // Without it, the two still hold the same ports.
        let a = first.drop_last();
        let b = second.drop_last();
        assert forall|port: u16| a.to_set().contains(port) <==> b.to_set().contains(port) by {
            if a.contains(port) {
                let i = choose|i: int| 0 <= i < a.len() && a[i] == port;
                assert(first.to_set().contains(port));
                let j = choose|j: int| 0 <= j < second.len() && second[j] == port;
                assert(b[j] == port);
            }
            if b.contains(port) {
                let j = choose|j: int| 0 <= j < b.len() && b[j] == port;
                assert(second.to_set().contains(port));
                let i = choose|i: int| 0 <= i < first.len() && first[i] == port;
                assert(a[i] == port);
            }
        }
        assert(a.to_set() =~= b.to_set());
        lemma_ascending_unique(a, b);
        assert(first =~= a.push(top));
        assert(second =~= b.push(top));
    }
}

/// The ports found open so far. Recording a port twice changes nothing, and
/// no port is ever taken out.
#[derive(Debug)]
pub struct ScanResult {
    ports: Vec<u16>,
}

impl View for ScanResult {
    type V = Set<u16>;

    closed spec fn view(&self) -> Set<u16> {
        self.ports@.to_set()
    }
}

impl ScanResult {
    #[verifier::type_invariant]
    spec fn inv(self) -> bool {
        ascending(self.ports@)
    }

    /// A result with no port in it.
    pub fn new() -> (result: ScanResult)
        ensures
            result@ == Set::<u16>::empty(),
    {
        let result = ScanResult { ports: Vec::new() };
        assert(result@ =~= Set::<u16>::empty());
        result
    }

    /// Where `port` stands among the recorded ports, or would stand: the number
    /// of recorded ports below it.
    fn position(&self, port: u16) -> (at: usize)
        ensures
            at <= self.ports@.len(),
            forall|i: int| 0 <= i < at ==> self.ports@[i] < port,
            forall|i: int| at <= i < self.ports@.len() ==> self.ports@[i] >= port,
    {
        proof {
            use_type_invariant(self);
        }
        let mut low: usize = 0;
        let mut high: usize = self.ports.len();
        while low < high
            invariant
                low <= high <= self.ports@.len(),
                ascending(self.ports@),
                forall|i: int| 0 <= i < low ==> self.ports@[i] < port,
                forall|i: int| high <= i < self.ports@.len() ==> self.ports@[i] >= port,
            decreases high - low,
        {
            let mid: usize = low + (high - low) / 2;
            if self.ports[mid] < port {
                low = mid + 1;
            } else {
                high = mid;
            }
        }
        low
    }

    /// Whether `port` has been recorded.
    pub fn contains(&self, port: u16) -> (found: bool)
        ensures
            found == self@.contains(port),
    {
        let at: usize = self.position(port);
        let found = at < self.ports.len() && self.ports[at] == port;
        proof {
            use_type_invariant(self);
            if self.ports@.contains(port) {
                let i = choose|i: int| 0 <= i < self.ports@.len() && self.ports@[i] == port;
                assert(i == at);
            }
        }
        found
    }

    /// The number of ports recorded.
    pub fn len(&self) -> (count: usize)
        ensures
            count == self@.len(),
            self@.finite(),
    {
        proof {
            use_type_invariant(self);
            lemma_ascending_no_duplicates(self.ports@);
            self.ports@.unique_seq_to_set();
        }
        self.ports.len()
    }

    /// Records `port` as open.
    pub fn record(&mut self, port: u16)
        ensures
            final(self)@ == old(self)@.insert(port),
    {
        proof {
            use_type_invariant(&*self);
        }
        let at: usize = self.position(port);
        if at < self.ports.len() && self.ports[at] == port {
            assert(self@ =~= self@.insert(port));
        } else {
            let ghost before = self.ports@;
            let mut ports: Vec<u16> = Vec::new();
            std::mem::swap(&mut self.ports, &mut ports);
            ports.insert(at, port);
            let ghost after = ports@;
            proof {
                // `after` is `before` with `port` put in at `at`.
                assert forall|i: int, j: int| 0 <= i < j < after.len() implies after[i]
                    < after[j] by {
                    let from = if i < at { i } else { i - 1 };
                    let to = if j < at { j } else { j - 1 };
                    assert(i == at || after[i] == before[from]);
                    assert(j == at || after[j] == before[to]);
                }
                assert forall|p: u16| after.contains(p) <==> before.contains(p) || p == port by {
                    if after.contains(p) {
                        let i = choose|i: int| 0 <= i < after.len() && after[i] == p;
                        if i < at {
                            assert(before[i] == p);
                        } else if i > at {
                            assert(before[i - 1] == p);
                        }
                    }
                    if before.contains(p) {
                        let i = choose|i: int| 0 <= i < before.len() && before[i] == p;
                        if i < at {
                            assert(after[i] == p);
                        } else {
                            assert(after[i + 1] == p);
                        }
                    }
                    if p == port {
                        assert(after[at as int] == p);
                    }
                }
                assert(after.to_set() =~= before.to_set().insert(port));
            }
            self.ports = ports;
        }
    }

    /// Records every port of `ports` as open, in whatever order they come
    /// and however often each comes.
    pub fn record_all(&mut self, ports: &Vec<u16>)
        ensures
            final(self)@ == old(self)@.union(ports@.to_set()),
    {
        let mut i: usize = 0;
        while i < ports.len()
            invariant
                i <= ports@.len(),
                self@ == old(self)@.union(ports@.take(i as int).to_set()),
            decreases ports@.len() - i,
        {
            self.record(ports[i]);
            proof {
                let seen = ports@.take(i as int);
                let more = ports@.take(i + 1);
                assert forall|port: u16| more.contains(port) <==> seen.contains(port) || port
                    == ports@[i as int] by {
                    if more.contains(port) {
                        let j = choose|j: int| 0 <= j < more.len() && more[j] == port;
                        if j < i {
                            assert(seen[j] == port);
                        }
                    }
                    if seen.contains(port) {
                        let j = choose|j: int| 0 <= j < seen.len() && seen[j] == port;
                        assert(more[j] == port);
                    }
                    if port == ports@[i as int] {
                        assert(more[i as int] == port);
                    }
                }
                assert(self@ =~= old(self)@.union(more.to_set()));
            }
            i += 1;
        }
        assert(ports@.take(i as int) =~= ports@);
    }

    /// The recorded ports in ascending order.
    pub fn into_sorted(self) -> (ports: Vec<u16>)
        ensures
            ascending(ports@),
            ports@.no_duplicates(),
            ports@.to_set() == self@,
    {
        proof {
            use_type_invariant(&self);
            lemma_ascending_no_duplicates(self.ports@);
        }
        self.ports
    }
}

/// Gathers discovered ports into the list that a scan returns: the same
/// ports, each once, in ascending order, in whatever order and however often
/// they were discovered.
pub fn collect(discovered: &Vec<u16>) -> (ports: Vec<u16>)
    ensures
        ascending(ports@),
        ports@.no_duplicates(),
        ports@.to_set() == discovered@.to_set(),
{
    let mut result = ScanResult::new();
    result.record_all(discovered);
    result.into_sorted()
}

/// The list that a scan returns depends on which ports were discovered and
/// on nothing else: two runs that discover the same ports, in any order,
/// return the same list.
pub proof fn lemma_order_independent(
    first: Seq<u16>,
    second: Seq<u16>,
    first_sorted: Seq<u16>,
    second_sorted: Seq<u16>,
)
    requires
        first.to_set() == second.to_set(),
        ascending(first_sorted),
        first_sorted.to_set() == first.to_set(),
        ascending(second_sorted),
        second_sorted.to_set() == second.to_set(),
    ensures
        first_sorted == second_sorted,
{
    lemma_ascending_unique(first_sorted, second_sorted);
}

} // verus!
