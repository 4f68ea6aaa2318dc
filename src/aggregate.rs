//! Gathering the ports reported by the workers into one ascending list.
use vstd::prelude::*;

verus! {

broadcast use vstd::seq_lib::group_to_multiset_ensures;

/// Each element is at most the next.
pub open spec fn ascending(s: Seq<u16>) -> bool {
    forall|i: int, j: int| 0 <= i < j < s.len() ==> s[i] <= s[j]
}

/// Each element is below the next.
pub open spec fn strictly_ascending(s: Seq<u16>) -> bool {
    forall|i: int, j: int| 0 <= i < j < s.len() ==> s[i] < s[j]
}

/// The ports of `v` in ascending order, each kept as often as it occurs.
pub fn sort_ports(v: &Vec<u16>) -> (r: Vec<u16>)
    ensures
        ascending(r@),
        r@.to_multiset() == v@.to_multiset(),
{
    let mut out: Vec<u16> = Vec::new();
    let mut i: usize = 0;
    while i < v.len()
        invariant
            0 <= i <= v.len(),
            ascending(out@),
            out@.to_multiset() == v@.subrange(0, i as int).to_multiset(),
        decreases v.len() - i,
    {
        let x = v[i];
        let mut pos: usize = 0;
        while pos < out.len() && out[pos] <= x
            invariant
                0 <= pos <= out.len(),
                forall|k: int| 0 <= k < pos ==> out@[k] <= x,
            decreases out.len() - pos,
        {
            pos = pos + 1;
        }
        let ghost before = out@;
        out.insert(pos, x);
        assert(ascending(out@)) by {
            assert forall|a: int, b: int| 0 <= a < b < out@.len() implies out@[a] <= out@[b] by {
                if a < pos && b > pos {
                    assert(before[a] <= x);
                    assert(x <= before[b - 1]);
                }
            }
        }
        assert(v@.subrange(0, i + 1) =~= v@.subrange(0, i as int).push(x));
        i = i + 1;
    }
    assert(v@.subrange(0, v.len() as int) =~= v@);
    out
}

/// Receives the ports that workers report, in whatever order they arrive.
pub struct Collector {
    found: Vec<u16>,
}

impl Collector {
    /// The ports received so far, in order of arrival.
    pub closed spec fn received(&self) -> Seq<u16> {
        self.found@
    }

    /// A collector that has received nothing.
    pub fn new() -> (c: Collector)
        ensures
            c.received() == Seq::<u16>::empty(),
    {
        Collector { found: Vec::new() }
    }

    /// Takes one reported port.
    pub fn receive(&mut self, port: u16)
        ensures
            final(self).received() == old(self).received().push(port),
    {
        self.found.push(port);
    }

    /// Every port received, once per report, in ascending order.
    pub fn finish(self) -> (r: Vec<u16>)
        ensures
            ascending(r@),
            r@.to_multiset() == self.received().to_multiset(),
    {
        sort_ports(&self.found)
    }
}

/// Where no port is reported twice, the sorted result is strictly ascending
/// and holds exactly the ports reported.
pub proof fn lemma_sorted_distinct(reported: Seq<u16>, result: Seq<u16>)
    requires
        reported.no_duplicates(),
        ascending(result),
        result.to_multiset() == reported.to_multiset(),
    ensures
        strictly_ascending(result),
        forall|p: u16| result.contains(p) <==> reported.contains(p),
{
    reported.lemma_multiset_has_no_duplicates();
    result.lemma_multiset_has_no_duplicates_conv();
    assert forall|p: u16| result.contains(p) <==> reported.contains(p) by {
        vstd::seq_lib::to_multiset_contains(result, p);
        vstd::seq_lib::to_multiset_contains(reported, p);
    }
}

/// The order in which the workers' reports arrive does not change the
/// result: two arrivals of the same distinct ports sort to the same sequence.
pub proof fn lemma_arrival_order_irrelevant(
    first: Seq<u16>,
    second: Seq<u16>,
    first_sorted: Seq<u16>,
    second_sorted: Seq<u16>,
)
    requires
        first.no_duplicates(),
        first.to_multiset() == second.to_multiset(),
        ascending(first_sorted),
        first_sorted.to_multiset() == first.to_multiset(),
        ascending(second_sorted),
        second_sorted.to_multiset() == second.to_multiset(),
    ensures
        first_sorted == second_sorted,
{
    first.lemma_multiset_has_no_duplicates();
    second.lemma_multiset_has_no_duplicates_conv();
    lemma_sorted_distinct(first, first_sorted);
    lemma_sorted_distinct(second, second_sorted);
    assert forall|p: u16| first.contains(p) <==> second.contains(p) by {
        vstd::seq_lib::to_multiset_contains(first, p);
        vstd::seq_lib::to_multiset_contains(second, p);
    }
    lemma_same_members_equal(first_sorted, second_sorted);
}

/// Two strictly ascending sequences with the same members are equal.
pub(crate) proof fn lemma_same_members_equal(a: Seq<u16>, b: Seq<u16>)
    requires
        strictly_ascending(a),
        strictly_ascending(b),
        forall|p: u16| a.contains(p) <==> b.contains(p),
    ensures
        a == b,
    decreases a.len(),
{
    if a.len() == 0 {
        if b.len() > 0 {
            assert(b.contains(b[0]));
        }
        assert(b =~= a);
    } else if b.len() == 0 {
        assert(a.contains(a[0]));
    } else {
        assert(a.contains(a[0]));
        assert(b.contains(b[0]));
        let i = choose|i: int| 0 <= i < a.len() && a[i] == b[0];
        let j = choose|j: int| 0 <= j < b.len() && b[j] == a[0];
        assert(a[0] == b[0]) by {
            if i > 0 {
                assert(a[0] < a[i]);
                assert(b[0] <= b[j]);
            }
            if j > 0 {
                assert(b[0] < b[j]);
                assert(a[0] <= a[i]);
            }
        }
        let a1 = a.drop_first();
        let b1 = b.drop_first();
        assert forall|p: u16| a1.contains(p) <==> b1.contains(p) by {
            if a1.contains(p) {
                let x = choose|x: int| 0 <= x < a1.len() && a1[x] == p;
                assert(a[x + 1] == p);
                assert(b.contains(p));
                let y = choose|y: int| 0 <= y < b.len() && b[y] == p;
                if y == 0 {
                    assert(a[0] < a[x + 1]);
                }
                assert(b1[y - 1] == p);
            }
            if b1.contains(p) {
                let y = choose|y: int| 0 <= y < b1.len() && b1[y] == p;
                assert(b[y + 1] == p);
                assert(a.contains(p));
                let x = choose|x: int| 0 <= x < a.len() && a[x] == p;
                if x == 0 {
                    assert(b[0] < b[y + 1]);
                }
                assert(a1[x - 1] == p);
            }
        }
        lemma_same_members_equal(a1, b1);
        assert(a =~= seq![a[0]] + a1);
        assert(b =~= seq![b[0]] + b1);
    }
}

} // verus!
