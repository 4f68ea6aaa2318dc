//! A whole scan, run worker after worker against known connect outcomes.
use vstd::prelude::*;
use crate::aggregate::{lemma_same_members_equal, lemma_sorted_distinct, strictly_ascending, Collector};
use crate::partition::{lemma_share_members, owner, share, share_len, Worker, MAX_PORT};

verus! {

/// Whether a connect to `port` succeeds, where `accepts[port]` records it and
/// ports past the end of `accepts` refuse.
pub open spec fn accepted(accepts: Seq<bool>, port: u16) -> bool {
    (port as int) < accepts.len() && accepts[port as int]
}

/// `result` is the outcome of a scan: the ports in `1..=MAX_PORT` that accept
/// a connection, each once, in ascending order.
pub open spec fn scan_outcome(accepts: Seq<bool>, result: Seq<u16>) -> bool {
    &&& strictly_ascending(result)
    &&& forall|p: u16| #[trigger] result.contains(p) <==> (1 <= p && accepted(accepts, p))
}

/// Whether a connect to `port` succeeds, read from `accepts`.
pub fn accepts_at(accepts: &Vec<bool>, port: u16) -> (r: bool)
    ensures
        r == accepted(accepts@, port),
{
    (port as usize) < accepts.len() && accepts[port as usize]
}

/// Runs `count` workers one after another, each probing its share with the
/// outcomes in `accepts`, and gathers what they report. With no workers
/// nothing is probed and the result is empty.
pub fn scan_with(count: u16, accepts: &Vec<bool>) -> (r: Vec<u16>)
    ensures
        count == 0 ==> r@.len() == 0,
        count > 0 ==> scan_outcome(accepts@, r@),
{
    let mut c = Collector::new();
    let mut index: u16 = 0;
    while index < count
        invariant
            0 <= index <= count,
            c.received().no_duplicates(),
            forall|p: u16| #[trigger]
                c.received().contains(p) <==> (1 <= p && accepted(accepts@, p) && 0 <= owner(
                    p as int,
                    count as int,
                ) < index),
        decreases count - index,
    {
        let ghost idx = index as int;
        let ghost cnt = count as int;
        let ghost whole = share(idx, cnt);
        proof {
            lemma_share_members(idx, cnt);
        }
        let mut w = Worker::new(index, count);
        let ghost mut k: int = 0;
        loop
            invariant
                0 <= index < count,
                idx == index,
                cnt == count,
                whole == share(idx, cnt),
                whole.len() == share_len(idx, cnt),
                w.wf(),
                0 <= k <= whole.len(),
                w.remaining() == whole.subrange(k, whole.len() as int),
                forall|i: int, j: int| 0 <= i < j < whole.len() ==> whole[i] < whole[j],
                forall|p: u16| #[trigger]
                    whole.contains(p) <==> (1 <= p && owner(p as int, cnt) == idx),
                c.received().no_duplicates(),
                forall|p: u16| #[trigger]
                    c.received().contains(p) <==> (1 <= p && accepted(accepts@, p) && (0 <= owner(
                        p as int,
                        cnt,
                    ) < idx || whole.subrange(0, k).contains(p))),
            ensures
                k == whole.len(),
            decreases whole.len() - k,
        {
            match w.current() {
                None => {
                    assert(w.remaining().len() == 0);
                    break ;
                },
                Some(port) => {
                    assert(port == whole[k]);
                    let ok = accepts_at(accepts, port);
                    let reported = w.record(ok);
                    let ghost old_received = c.received();
                    assert(whole.contains(port));
                    assert(!whole.subrange(0, k).contains(port));
                    if let Some(q) = reported {
                        c.receive(q);
                        assert(!old_received.contains(port));
                    }
                    proof {
                        let next = whole.subrange(0, k + 1);
                        assert(next =~= whole.subrange(0, k).push(port));
                        assert forall|p: u16| #[trigger]
                            c.received().contains(p) <==> (1 <= p && accepted(accepts@, p) && (0
                                <= owner(p as int, cnt) < idx || next.contains(p))) by {
                            assert(c.received() == if ok {
                                old_received.push(port)
                            } else {
                                old_received
                            });
                            if p == port {
                                assert(next[k] == port);
                                if ok {
                                    assert(c.received().last() == port);
                                }
                            } else {
                                if next.contains(p) {
                                    let x = choose|x: int| 0 <= x < next.len() && next[x] == p;
                                    assert(whole.subrange(0, k)[x] == p);
                                }
                                if whole.subrange(0, k).contains(p) {
                                    let x = choose|x: int|
                                        0 <= x < k && whole.subrange(0, k)[x] == p;
                                    assert(next[x] == p);
                                }
                                if ok && c.received().contains(p) {
                                    let x = choose|x: int|
                                        0 <= x < c.received().len() && c.received()[x] == p;
                                    assert(old_received[x] == p);
                                }
                                if ok && old_received.contains(p) {
                                    let x = choose|x: int|
                                        0 <= x < old_received.len() && old_received[x] == p;
                                    assert(c.received()[x] == p);
                                }
                            }
                        }
                        k = k + 1;
                        assert(w.remaining() =~= whole.subrange(k, whole.len() as int));
                    }
                },
            }
        }
        proof {
            assert(k == whole.len());
            assert(whole.subrange(0, k) =~= whole);
        }
        index = index + 1;
    }
    let r = c.finish();
    proof {
        lemma_sorted_distinct(c.received(), r@);
        if count > 0 {
            assert forall|p: u16| #[trigger] r@.contains(p) <==> (1 <= p && accepted(accepts@, p)) by {
                assert(owner(p as int, count as int) < count);
            }
        } else {
            if r@.len() > 0 {
                assert(c.received().contains(r@[0]));
            }
        }
    }
    r
}

/// Two scans that meet the same connect outcomes report the same ports in
/// the same order, whatever the number of workers each used.
pub proof fn lemma_scan_repeatable(accepts: Seq<bool>, first: Seq<u16>, second: Seq<u16>)
    requires
        scan_outcome(accepts, first),
        scan_outcome(accepts, second),
    ensures
        first == second,
{
    lemma_same_members_equal(first, second);
}

/// Where no port accepts a connection, a scan reports nothing.
pub proof fn lemma_nothing_open(accepts: Seq<bool>, result: Seq<u16>)
    requires
        scan_outcome(accepts, result),
        forall|p: u16| !#[trigger] accepted(accepts, p),
    ensures
        result.len() == 0,
{
    if result.len() > 0 {
        assert(result.contains(result[0]));
    }
}

} // verus!
