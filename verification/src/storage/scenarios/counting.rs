//! The range reads that an archive reader asked for.

use vstd::prelude::*;

verus! {

/// One range read the reader asked for.
#[derive(Debug, Clone, Copy, PartialEq, Eq, Structural)]
pub struct Request {
    pub offset: u64,
    pub len: usize,
}

/// Where a range ends.
pub open spec fn end_of(r: Request) -> int {
    r.offset + r.len
}

/// Whether a range ends within the addressable bytes.
pub open spec fn in_bounds(r: Request) -> bool {
    end_of(r) <= u64::MAX
}

impl Request {
    /// Where the range ends.
    pub fn end(&self) -> (end: u64)
        requires
            in_bounds(*self),
        ensures
            end == end_of(*self),
    {
        self.offset + self.len as u64
    }
}

/// How many bytes the first `n` ranges hold.
pub open spec fn bytes_of(requests: Seq<Request>, n: int) -> nat
    decreases n,
{
    if n <= 0 {
        0
    } else {
        bytes_of(requests, n - 1) + requests[n - 1].len as nat
    }
}

/// More ranges hold no fewer bytes.
proof fn lemma_bytes_grow(requests: Seq<Request>, m: int, n: int)
    requires
        m <= n,
    ensures
        bytes_of(requests, m) <= bytes_of(requests, n),
    decreases n - m,
{
    if m < n {
        lemma_bytes_grow(requests, m, n - 1);
    }
}

/// How many bytes the ranges hold.
pub fn total_bytes(requests: &[Request]) -> (n: u64)
    requires
        bytes_of(requests@, requests@.len() as int) <= u64::MAX,
    ensures
        n == bytes_of(requests@, requests@.len() as int),
{
    let mut n: u64 = 0;
    let mut i: usize = 0;
    while i < requests.len()
        invariant
            i <= requests@.len(),
            n == bytes_of(requests@, i as int),
            bytes_of(requests@, requests@.len() as int) <= u64::MAX,
        decreases requests@.len() - i,
    {
        proof {
            lemma_bytes_grow(requests@, i + 1, requests@.len() as int);
        }
        n = n + requests[i].len as u64;
        i = i + 1;
    }
    n
}

/// Whether a range overlaps the section from `start` on that is `length` long.
pub open spec fn touches(r: Request, start: u64, length: u64) -> bool {
    r.offset < start + length && end_of(r) > start
}

/// Those of the first `n` ranges that overlap a section, in their order.
pub open spec fn touching(requests: Seq<Request>, start: u64, length: u64, n: int) -> Seq<Request>
    decreases n,
{
    if n <= 0 {
        Seq::empty()
    } else if touches(requests[n - 1], start, length) {
        touching(requests, start, length, n - 1).push(requests[n - 1])
    } else {
        touching(requests, start, length, n - 1)
    }
}

/// The ranges that overlap a section, in their order.
pub fn in_section(requests: &[Request], start: u64, length: u64) -> (out: Vec<Request>)
    requires
        start + length <= u64::MAX,
        forall|i: int| 0 <= i < requests@.len() ==> in_bounds(#[trigger] requests@[i]),
    ensures
        out@ == touching(requests@, start, length, requests@.len() as int),
{
    let end: u64 = start + length;
    let mut out: Vec<Request> = Vec::new();
    let mut i: usize = 0;
    while i < requests.len()
        invariant
            i <= requests@.len(),
            end == start + length,
            forall|k: int| 0 <= k < requests@.len() ==> in_bounds(#[trigger] requests@[k]),
            out@ == touching(requests@, start, length, i as int),
        decreases requests@.len() - i,
    {
        let r: Request = requests[i];
        assert(in_bounds(requests@[i as int]));
        if r.offset < end && r.end() > start {
            out.push(r);
        }
        i = i + 1;
    }
    out
}

/// The log of a byte source: every range it served, oldest first.
#[derive(Debug)]
pub struct RequestLog {
    requests: Vec<Request>,
}

impl View for RequestLog {
    type V = Seq<Request>;

    closed spec fn view(&self) -> Seq<Request> {
        self.requests@
    }
}

impl RequestLog {
    pub fn new() -> (log: RequestLog)
        ensures
            log@ == Seq::<Request>::empty(),
    {
        RequestLog { requests: Vec::new() }
    }

    /// One more range was served.
    pub fn record(&mut self, offset: u64, len: usize)
        ensures
            final(self)@ == old(self)@.push(Request { offset, len }),
    {
        self.requests.push(Request { offset, len });
    }

    /// Every request so far, oldest first.
    pub fn requests(&self) -> (out: Vec<Request>)
        ensures
            out@ == self@,
    {
        let mut out: Vec<Request> = Vec::new();
        let mut i: usize = 0;
        while i < self.requests.len()
            invariant
                i <= self.requests@.len(),
                out@ == self.requests@.take(i as int),
            decreases self.requests@.len() - i,
        {
            out.push(self.requests[i]);
            i = i + 1;
            assert(out@ =~= self.requests@.take(i as int));
        }
        assert(out@ =~= self.requests@);
        out
    }

    pub fn count(&self) -> (n: u64)
        ensures
            n == self@.len(),
    {
        self.requests.len() as u64
    }

    pub fn bytes(&self) -> (n: u64)
        requires
            bytes_of(self@, self@.len() as int) <= u64::MAX,
        ensures
            n == bytes_of(self@, self@.len() as int),
    {
        total_bytes(self.requests.as_slice())
    }

    /// Forget everything recorded so far, so the next operation is counted on
    /// its own.
    pub fn forget(&mut self)
        ensures
            final(self)@ == Seq::<Request>::empty(),
    {
        self.requests.clear();
    }
}

/// Names the archive that every counted reader is opened on afresh.
#[derive(Debug, Clone)]
pub struct CountingFactory {
    archive: String,
}

impl View for CountingFactory {
    type V = Seq<char>;

    closed spec fn view(&self) -> Seq<char> {
        self.archive@
    }
}

impl CountingFactory {
    pub fn new(archive: &str) -> (factory: CountingFactory)
        ensures
            factory@ == archive@,
    {
        CountingFactory { archive: archive.to_owned() }
    }

    /// The archive to open.
    pub fn archive(&self) -> (path: &str)
        ensures
            path@ == self@,
    {
        self.archive.as_str()
    }
}

} // verus!
