//! Which ports each worker probes, and in what order.
use vstd::prelude::*;

verus! {

/// The highest TCP port number.
pub const MAX_PORT: u16 = 65535;

/// How many ports worker `index` of `count` probes: the ports
/// `index + 1, index + 1 + count, ...` that do not exceed `MAX_PORT`.
pub open spec fn share_len(index: int, count: int) -> int {
    (MAX_PORT - index - 1) / count + 1
}

/// The `k`-th port probed by worker `index` of `count`.
pub open spec fn port_at(index: int, count: int, k: int) -> int {
    index + 1 + k * count
}

/// The ports probed by worker `index` of `count`, in the order probed.
pub open spec fn share(index: int, count: int) -> Seq<u16> {
    Seq::new(share_len(index, count) as nat, |k: int| port_at(index, count, k) as u16)
}

/// The worker of `count` that owns `port`.
pub open spec fn owner(port: int, count: int) -> int {
    (port - 1) % count
}

/// A worker of `count` workers: `count` is positive and `index` below it.
pub open spec fn valid_worker(index: int, count: int) -> bool {
    0 < count <= MAX_PORT && 0 <= index < count
}

proof fn lemma_port_at_bounds(index: int, count: int, k: int)
    requires
        valid_worker(index, count),
        0 <= k < share_len(index, count),
    ensures
        1 <= port_at(index, count, k) <= MAX_PORT,
        owner(port_at(index, count, k), count) == index,
{
    let q = (MAX_PORT - index - 1) / count;
    assert(k <= q);
    assert(q * count <= MAX_PORT - index - 1) by (nonlinear_arith)
        requires q == (MAX_PORT - index - 1) / count, count > 0, MAX_PORT - index - 1 >= 0;
    assert(k * count <= q * count) by (nonlinear_arith)
        requires k <= q, count > 0;
    assert(k * count >= 0) by (nonlinear_arith)
        requires k >= 0, count > 0;
    assert((index + k * count) % count == index) by (nonlinear_arith)
        requires 0 <= index < count, k >= 0;
}

/// The ports of a worker's share are exactly the ports in `1..=MAX_PORT`
/// that it owns, listed in strictly ascending order.
pub proof fn lemma_share_members(index: int, count: int)
    requires
        valid_worker(index, count),
    ensures
        forall|i: int, j: int|
            0 <= i < j < share(index, count).len() ==> share(index, count)[i]
                < share(index, count)[j],
        forall|p: u16| #[trigger]
            share(index, count).contains(p) <==> (1 <= p && owner(p as int, count) == index),
{
    let s = share(index, count);
    assert forall|i: int, j: int| 0 <= i < j < s.len() implies s[i] < s[j] by {
        lemma_port_at_bounds(index, count, i);
        lemma_port_at_bounds(index, count, j);
        assert(i * count < j * count) by (nonlinear_arith)
            requires i < j, count > 0;
    }
    assert forall|p: u16| #[trigger] s.contains(p) implies (1 <= p && owner(p as int, count) == index) by {
        let k = choose|k: int| 0 <= k < s.len() && s[k] == p;
        lemma_port_at_bounds(index, count, k);
    }
    assert forall|p: u16| 1 <= p && owner(p as int, count) == index implies #[trigger] s.contains(p) by {
        let k = (p - 1) / count;
        assert(p - 1 == k * count + index) by (nonlinear_arith)
            requires k == (p - 1) / count, index == (p - 1) % count, count > 0;
        assert(k >= 0);
        assert(k * count <= MAX_PORT - index - 1);
        assert(k <= (MAX_PORT - index - 1) / count) by (nonlinear_arith)
            requires k * count <= MAX_PORT - index - 1, count > 0, k >= 0;
        lemma_port_at_bounds(index, count, k);
        assert(s[k] == p);
    }
}

/// Every port in `1..=MAX_PORT` is probed by exactly one of `count` workers:
/// its owner has it in its share, and no other worker does.
pub proof fn lemma_partition(count: int, port: u16)
    requires
        0 < count <= MAX_PORT,
        1 <= port,
    ensures
        valid_worker(owner(port as int, count), count),
        share(owner(port as int, count), count).contains(port),
        forall|index: int|
            valid_worker(index, count) && index != owner(port as int, count)
                ==> !#[trigger] share(index, count).contains(port),
{
    let o = owner(port as int, count);
    lemma_share_members(o, count);
    assert forall|index: int|
        valid_worker(index, count) && index != o implies !#[trigger] share(index, count).contains(port) by {
        lemma_share_members(index, count);
    }
}

/// With one worker, it probes every port from 1 to `MAX_PORT` in order; with
/// `MAX_PORT` workers, the first probes port 1 alone.
pub proof fn lemma_boundaries()
    ensures
        share(0, 1).len() == MAX_PORT,
        forall|k: int| 0 <= k < MAX_PORT ==> #[trigger] share(0, 1)[k] == k + 1,
        share(0, MAX_PORT as int) =~= seq![1u16],
{
    assert forall|k: int| 0 <= k < MAX_PORT implies #[trigger] share(0, 1)[k] == k + 1 by {
        lemma_port_at_bounds(0, 1, k);
    }
}

/// A worker walking its share one port at a time.
pub struct Worker {
    index: u16,
    count: u16,
    next: u16,
    done: bool,
    taken: Ghost<int>,
}

impl Worker {
    /// The ports this worker has still to probe, in order.
    pub closed spec fn remaining(&self) -> Seq<u16> {
        share(self.index as int, self.count as int).subrange(
            self.taken@,
            share_len(self.index as int, self.count as int),
        )
    }

    /// The worker's index is below its count, and the next port to probe is
    /// the one that follows those already probed.
    pub closed spec fn wf(&self) -> bool {
        &&& valid_worker(self.index as int, self.count as int)
        &&& 0 <= self.taken@ <= share_len(self.index as int, self.count as int)
        &&& self.done <==> self.taken@ == share_len(self.index as int, self.count as int)
        &&& !self.done ==> self.next as int == port_at(
            self.index as int,
            self.count as int,
            self.taken@,
        )
    }

    /// Worker `index` of `count`, before its first probe.
    pub fn new(index: u16, count: u16) -> (w: Worker)
        requires
            valid_worker(index as int, count as int),
        ensures
            w.wf(),
            w.remaining() == share(index as int, count as int),
    {
        let w = Worker { index, count, next: index + 1, done: false, taken: Ghost(0) };
        assert(w.remaining() =~= share(index as int, count as int));
        w
    }

    /// The port to probe now, or `None` once the share is exhausted.
    pub fn current(&self) -> (r: Option<u16>)
        requires
            self.wf(),
        ensures
            r == if self.remaining().len() > 0 {
                Some(self.remaining()[0])
            } else {
                None::<u16>
            },
    {
        if self.done {
            None
        } else {
            proof {
                lemma_port_at_bounds(self.index as int, self.count as int, self.taken@);
            }
            Some(self.next)
        }
    }

    /// Takes the outcome of the probe of the current port and moves on to the
    /// next one. Returns the port to report when it accepted a connection.
    pub fn record(&mut self, connected: bool) -> (r: Option<u16>)
        requires
            old(self).wf(),
        ensures
            final(self).wf(),
            old(self).remaining().len() == 0 ==> r is None && final(self).remaining()
                == old(self).remaining(),
            old(self).remaining().len() > 0 ==> {
                &&& r == if connected {
                    Some(old(self).remaining()[0])
                } else {
                    None::<u16>
                }
                &&& final(self).remaining() == old(self).remaining().drop_first()
            },
    {
        if self.done {
            return None;
        }
        let ghost idx = self.index as int;
        let ghost cnt = self.count as int;
        let ghost t = self.taken@;
        proof {
            lemma_port_at_bounds(idx, cnt, t);
        }
        let port = self.next;
        if MAX_PORT - self.next < self.count {
            proof {
                if t + 1 < share_len(idx, cnt) {
                    lemma_port_at_bounds(idx, cnt, t + 1);
                    assert((t + 1) * cnt == t * cnt + cnt) by (nonlinear_arith);
                }
            }
            self.done = true;
        } else {
            proof {
                let q = (MAX_PORT - idx - 1) / cnt;
                assert((t + 1) * cnt == t * cnt + cnt) by (nonlinear_arith);
                assert(t + 1 <= q) by (nonlinear_arith)
                    requires
                        q == (MAX_PORT - idx - 1) / cnt,
                        (t + 1) * cnt <= MAX_PORT - idx - 1,
                        cnt > 0,
                        t >= 0,
                ;
            }
            self.next = self.next + self.count;
        }
        self.taken = Ghost(t + 1);
        assert(self.remaining() =~= old(self).remaining().drop_first());
        if connected {
            Some(port)
        } else {
            None
        }
    }

    /// Gives up the rest of the share, as when results can no longer be
    /// delivered.
    pub fn stop(&mut self)
        requires
            old(self).wf(),
        ensures
            final(self).wf(),
            final(self).remaining().len() == 0,
    {
        self.done = true;
        self.taken = Ghost(share_len(self.index as int, self.count as int));
    }
}

/// The ports that worker `index` of `count` probes, in order.
pub fn assigned_ports(index: u16, count: u16) -> (r: Vec<u16>)
    requires
        valid_worker(index as int, count as int),
    ensures
        r@ == share(index as int, count as int),
{
    let mut w = Worker::new(index, count);
    let mut out: Vec<u16> = Vec::new();
    loop
        invariant
            w.wf(),
            out@ + w.remaining() == share(index as int, count as int),
        decreases w.remaining().len(),
    {
        match w.current() {
            None => {
                assert(out@ + w.remaining() =~= out@);
                return out;
            },
            Some(p) => {
                let ghost before = w.remaining();
                w.record(false);
                out.push(p);
                assert(out@ + w.remaining() =~= share(index as int, count as int)) by {
                    assert(before =~= seq![p] + before.drop_first());
                    assert(share(index as int, count as int) =~= out@.drop_last() + before);
                }
            },
        }
    }
}

} // verus!
