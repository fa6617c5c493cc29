//! System-call dispatch and the tracer that counts how often each system
//! call has been made.
use vstd::prelude::*;

verus! {

/// write syscall
pub const SYSCALL_WRITE: usize = 64;
/// exit syscall
pub const SYSCALL_EXIT: usize = 93;
/// yield syscall
pub const SYSCALL_YIELD: usize = 124;
/// gettime syscall
pub const SYSCALL_GET_TIME: usize = 169;
/// trace syscall
pub const SYSCALL_TRACE: usize = 410;

/// How often the system call `syscall_id` has been made.
#[derive(Clone, Copy, Debug)]
pub struct History {
    pub syscall_id: usize,
    pub time: usize,
}

/// Record of the system calls made: one entry per system call id seen.
pub struct SyscallTracer {
    history: Vec<History>,
}

impl SyscallTracer {
    /// No system call id is recorded twice, and every record counts at
    /// least one call.
    pub closed spec fn wf(&self) -> bool {
        &&& forall|i: int, j: int|
            0 <= i < j < self.history@.len() ==> #[trigger] self.history@[i].syscall_id
                != #[trigger] self.history@[j].syscall_id
        &&& forall|i: int| 0 <= i < self.history@.len() ==> #[trigger] self.history@[i].time >= 1
    }

    /// Number of records: one per system call id seen.
    pub closed spec fn records(&self) -> nat {
        self.history@.len()
    }

    /// How often `id` has been recorded (0 when never).
    pub closed spec fn count(&self, id: usize) -> usize {
        if exists|i: int| 0 <= i < self.history@.len() && #[trigger] self.history@[i].syscall_id == id {
            self.history@[choose|i: int|
                0 <= i < self.history@.len() && #[trigger] self.history@[i].syscall_id == id].time
        } else {
            0
        }
    }

    proof fn lemma_count_at(&self, i: int)
        requires
            self.wf(),
            0 <= i < self.history@.len(),
        ensures
            self.count(self.history@[i].syscall_id) == self.history@[i].time,
    {
        let id = self.history@[i].syscall_id;
        let j = choose|j: int| 0 <= j < self.history@.len() && #[trigger] self.history@[j].syscall_id == id;
        if j < i {
            assert(self.history@[j].syscall_id != self.history@[i].syscall_id);
        } else if i < j {
            assert(self.history@[i].syscall_id != self.history@[j].syscall_id);
        }
    }

    /// A tracer that has recorded nothing.
    pub fn new() -> (r: SyscallTracer)
        ensures
            r.wf(),
            r.records() == 0,
            forall|id: usize| #[trigger] r.count(id) == 0,
    {
        SyscallTracer { history: Vec::new() }
    }

    /// Records one more call of `id`.
    pub fn add(&mut self, id: usize)
        requires
            old(self).wf(),
            old(self).count(id) < usize::MAX,
        ensures
            final(self).wf(),
            final(self).count(id) == old(self).count(id) + 1,
            forall|other: usize| other != id ==> #[trigger] final(self).count(other) == old(self).count(other),
            old(self).count(id) == 0 ==> final(self).records() == old(self).records() + 1,
            old(self).count(id) > 0 ==> final(self).records() == old(self).records(),
    {
        let ghost h0 = self.history@;
        let mut i: usize = 0;
        while i < self.history.len()
            invariant
                self.history@ == h0,
                old(self).history@ == h0,
                self.wf(),
                old(self).count(id) < usize::MAX,
                i <= self.history@.len(),
                forall|j: int| 0 <= j < i ==> #[trigger] self.history@[j].syscall_id != id,
            decreases self.history@.len() - i,
        {
            if id == self.history[i].syscall_id {
                let mut his = self.history[i];
                proof {
                    self.lemma_count_at(i as int);
                }
                his.time = his.time + 1;
                self.history.set(i, his);
                proof {
                    assert forall|a: int, b: int|
                        0 <= a < b < self.history@.len() implies #[trigger] self.history@[a].syscall_id
                        != #[trigger] self.history@[b].syscall_id by {
                        assert(h0[a].syscall_id != h0[b].syscall_id);
                    }
                    assert forall|a: int| 0 <= a < self.history@.len() implies #[trigger] self.history@[a].time
                        >= 1 by {
                        assert(h0[a].time >= 1);
                    }
                    self.lemma_count_at(i as int);
                    old(self).lemma_count_at(i as int);
                    assert forall|other: usize| other != id implies #[trigger] self.count(other)
                        == old(self).count(other) by {
                        if exists|j: int| 0 <= j < h0.len() && #[trigger] h0[j].syscall_id == other {
                            let j = choose|j: int| 0 <= j < h0.len() && #[trigger] h0[j].syscall_id == other;
                            old(self).lemma_count_at(j);
                            self.lemma_count_at(j);
                        } else {
                            assert(!exists|j: int| 0 <= j < self.history@.len() && #[trigger] self.history@[j].syscall_id == other) by {
                                if exists|j: int| 0 <= j < self.history@.len() && #[trigger] self.history@[j].syscall_id == other {
                                    let j = choose|j: int| 0 <= j < self.history@.len() && #[trigger] self.history@[j].syscall_id == other;
                                    assert(h0[j].syscall_id == other);
                                }
                            }
                        }
                    }
                }
                return;
            }
            i = i + 1;
        }
        self.history.push(History { syscall_id: id, time: 1 });
        proof {
            let n = h0.len() as int;
            assert(!exists|j: int| 0 <= j < h0.len() && #[trigger] h0[j].syscall_id == id);
            assert forall|a: int, b: int|
                0 <= a < b < self.history@.len() implies #[trigger] self.history@[a].syscall_id
                != #[trigger] self.history@[b].syscall_id by {
                if b < n {
                    assert(h0[a].syscall_id != h0[b].syscall_id);
                }
            }
            assert forall|a: int| 0 <= a < self.history@.len() implies #[trigger] self.history@[a].time
                >= 1 by {
                if a < n {
                    assert(h0[a].time >= 1);
                }
            }
            self.lemma_count_at(n);
            assert forall|other: usize| other != id implies #[trigger] self.count(other)
                == old(self).count(other) by {
                if exists|j: int| 0 <= j < h0.len() && #[trigger] h0[j].syscall_id == other {
                    let j = choose|j: int| 0 <= j < h0.len() && #[trigger] h0[j].syscall_id == other;
                    old(self).lemma_count_at(j);
                    self.lemma_count_at(j);
                } else {
                    assert(!exists|j: int| 0 <= j < self.history@.len() && #[trigger] self.history@[j].syscall_id == other) by {
                        if exists|j: int| 0 <= j < self.history@.len() && #[trigger] self.history@[j].syscall_id == other {
                            let j = choose|j: int| 0 <= j < self.history@.len() && #[trigger] self.history@[j].syscall_id == other;
                            assert(j < n);
                            assert(h0[j].syscall_id == other);
                        }
                    }
                }
            }
        }
    }

    /// How often `id` has been recorded.
    pub fn query(&self, id: usize) -> (r: usize)
        requires
            self.wf(),
        ensures
            r == self.count(id),
    {
        let mut i: usize = 0;
        while i < self.history.len()
            invariant
                self.wf(),
                i <= self.history@.len(),
                forall|j: int| 0 <= j < i ==> #[trigger] self.history@[j].syscall_id != id,
            decreases self.history@.len() - i,
        {
            if id == self.history[i].syscall_id {
                proof {
                    self.lemma_count_at(i as int);
                }
                return self.history[i].time;
            }
            i = i + 1;
        }
        proof {
            assert(!exists|j: int| 0 <= j < self.history@.len() && #[trigger] self.history@[j].syscall_id == id);
        }
        0
    }
}

/// The system call a trap asks for, with its arguments decoded.
#[derive(Clone, Copy, Debug, PartialEq, Eq, Structural)]
pub enum SyscallRequest {
    /// Write `len` bytes at user address `buf` to file descriptor `fd`.
    Write { fd: usize, buf: usize, len: usize },
    /// End the application with `exit_code`.
    Exit { exit_code: i32 },
    /// Give up the processor.
    Yield,
    /// Store the time at user address `ts`.
    GetTime { ts: usize, tz: usize },
    /// The tracing call, with its three arguments.
    Trace { trace_request: usize, id: usize, data: usize },
}

/// Whether `id` is a system call this kernel serves.
pub open spec fn is_supported(id: usize) -> bool {
    id == SYSCALL_WRITE || id == SYSCALL_EXIT || id == SYSCALL_YIELD || id == SYSCALL_GET_TIME
        || id == SYSCALL_TRACE
}

/// The request that system call `id` with arguments `args` makes.
pub open spec fn decode(id: usize, args: Seq<usize>) -> SyscallRequest {
    if id == SYSCALL_WRITE {
        SyscallRequest::Write { fd: args[0], buf: args[1], len: args[2] }
    } else if id == SYSCALL_EXIT {
        SyscallRequest::Exit { exit_code: args[0] as i32 }
    } else if id == SYSCALL_YIELD {
        SyscallRequest::Yield
    } else if id == SYSCALL_GET_TIME {
        SyscallRequest::GetTime { ts: args[0], tz: args[1] }
    } else {
        SyscallRequest::Trace { trace_request: args[0], id: args[1], data: args[2] }
    }
}

/// Records the system call `syscall_id` in `tracer` and decodes what it
/// asks for; the caller then serves the request.
pub fn syscall(tracer: &mut SyscallTracer, syscall_id: usize, args: [usize; 3]) -> (r: SyscallRequest)
    requires
        old(tracer).wf(),
        old(tracer).count(syscall_id) < usize::MAX,
        is_supported(syscall_id),
    ensures
        final(tracer).wf(),
        final(tracer).count(syscall_id) == old(tracer).count(syscall_id) + 1,
        forall|other: usize|
            other != syscall_id ==> #[trigger] final(tracer).count(other) == old(tracer).count(other),
        r == decode(syscall_id, args@),
        syscall_id == SYSCALL_WRITE ==> r == (SyscallRequest::Write { fd: args[0], buf: args[1], len: args[2] }),
        syscall_id == SYSCALL_EXIT ==> r == (SyscallRequest::Exit { exit_code: args[0] as i32 }),
        syscall_id == SYSCALL_YIELD ==> r == SyscallRequest::Yield,
        syscall_id == SYSCALL_GET_TIME ==> r == (SyscallRequest::GetTime { ts: args[0], tz: args[1] }),
        syscall_id == SYSCALL_TRACE ==> r == (SyscallRequest::Trace {
            trace_request: args[0],
            id: args[1],
            data: args[2],
        }),
{
    proof {
        lemma_decode_carries_arguments(syscall_id, args@);
    }
    tracer.add(syscall_id);
    if syscall_id == SYSCALL_WRITE {
        SyscallRequest::Write { fd: args[0], buf: args[1], len: args[2] }
    } else if syscall_id == SYSCALL_EXIT {
        SyscallRequest::Exit { exit_code: args[0] as i32 }
    } else if syscall_id == SYSCALL_YIELD {
        SyscallRequest::Yield
    } else if syscall_id == SYSCALL_GET_TIME {
        SyscallRequest::GetTime { ts: args[0], tz: args[1] }
    } else {
        SyscallRequest::Trace { trace_request: args[0], id: args[1], data: args[2] }
    }
}

/// Whether `after` is `before` with one more call of `id` recorded, as
/// `SyscallTracer::add` leaves it.
pub open spec fn is_add_step(before: SyscallTracer, after: SyscallTracer, id: usize) -> bool {
    &&& after.count(id) == before.count(id) + 1
    &&& forall|other: usize| other != id ==> #[trigger] after.count(other) == before.count(other)
}

/// Number of times `id` occurs in `ids`.
pub open spec fn occurrences(ids: Seq<usize>, id: usize) -> int
    decreases ids.len(),
{
    if ids.len() == 0 {
        0
    } else {
        occurrences(ids.drop_last(), id) + if ids.last() == id {
            1int
        } else {
            0int
        }
    }
}

/// A tracer that starts empty and then records the calls `ids`, one by
/// one, counts each id as often as it occurs in `ids` (0 for an id never
/// recorded).
pub proof fn lemma_count_after_adds(ts: Seq<SyscallTracer>, ids: Seq<usize>, id: usize)
    requires
        ts.len() == ids.len() + 1,
        forall|x: usize| #[trigger] ts[0].count(x) == 0,
        forall|j: int| 0 <= j < ids.len() ==> is_add_step(ts[j], ts[j + 1], #[trigger] ids[j]),
    ensures
        ts.last().count(id) == occurrences(ids, id),
    decreases ids.len(),
{
    if ids.len() == 0 {
        assert(ts[0].count(id) == 0);
    } else {
        let n = ids.len() - 1;
        assert forall|j: int| 0 <= j < ids.drop_last().len() implies is_add_step(
            ts.drop_last()[j],
            ts.drop_last()[j + 1],
            #[trigger] ids.drop_last()[j],
        ) by {
            assert(is_add_step(ts[j], ts[j + 1], ids[j]));
        }
        assert(ts.drop_last()[0] == ts[0]);
        lemma_count_after_adds(ts.drop_last(), ids.drop_last(), id);
        assert(is_add_step(ts[n], ts[n + 1], ids[n]));
        assert(ts.drop_last().last() == ts[n]);
    }
}

/// Decoding hands each system call its arguments unchanged and in order:
/// `write(fd, buf, len)` gets the three arguments, `exit` the low 32 bits of
/// the first as its signed exit code, `get_time(ts, tz)` the first two, and
/// `trace(trace_request, id, data)` the three; `yield` takes none.
pub proof fn lemma_decode_carries_arguments(id: usize, args: Seq<usize>)
    requires
        args.len() == 3,
    ensures
        id == 64 ==> decode(id, args) == (SyscallRequest::Write { fd: args[0], buf: args[1], len: args[2] }),
        id == 93 ==> decode(id, args) == (SyscallRequest::Exit { exit_code: args[0] as i32 }),
        id == 124 ==> decode(id, args) == SyscallRequest::Yield,
        id == 169 ==> decode(id, args) == (SyscallRequest::GetTime { ts: args[0], tz: args[1] }),
        id == 410 ==> decode(id, args) == (SyscallRequest::Trace {
            trace_request: args[0],
            id: args[1],
            data: args[2],
        }),
{
}

} // verus!
