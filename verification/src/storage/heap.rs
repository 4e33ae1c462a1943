//! Live heap bytes: what an allocator in the path has handed out and not had
//! back, and the high-water mark over it.
//!
//! Counting is armed rather than always on. With it behind a flag, an
//! allocation made before a window opened and freed inside it is a subtraction
//! with no matching addition, so the running total is signed.

use vstd::prelude::*;

verus! {

/// The books of a counting allocator.
#[derive(Debug)]
pub struct Counting {
    /// The change in live heap since counting was first switched on.
    in_flight: i64,
    /// The high-water mark over it since the last window opened.
    peak: i64,
    /// Whether an allocation is counted at all.
    armed: bool,
    /// Whether an allocation was ever counted, which is whether this allocator
    /// is in the path.
    installed: bool,
}

/// The books, as numbers.
pub struct Books {
    pub in_flight: int,
    pub peak: int,
    pub armed: bool,
    pub installed: bool,
}

impl View for Counting {
    type V = Books;

    closed spec fn view(&self) -> Books {
        Books {
            in_flight: self.in_flight as int,
            peak: self.peak as int,
            armed: self.armed,
            installed: self.installed,
        }
    }
}

impl Counting {
    /// The high-water mark is never under what is in flight, and both are
    /// 64-bit numbers.
    pub open spec fn wf(self) -> bool {
        i64::MIN <= self@.in_flight <= self@.peak <= i64::MAX
    }

    /// Nothing counted yet.
    pub fn new() -> (c: Counting)
        ensures
            c.wf(),
            c@ == (Books { in_flight: 0, peak: 0, armed: false, installed: false }),
    {
        Counting { in_flight: 0, peak: 0, armed: false, installed: false }
    }

    /// An allocation was made.
    pub fn charge(&mut self, size: u64)
        requires
            old(self).wf(),
            old(self)@.armed ==> old(self)@.in_flight + size <= i64::MAX,
        ensures
            final(self).wf(),
            !old(self)@.armed ==> final(self)@ == old(self)@,
            old(self)@.armed ==> final(self)@ == (Books {
                in_flight: old(self)@.in_flight + size,
                peak: if old(self)@.in_flight + size > old(self)@.peak {
                    old(self)@.in_flight + size
                } else {
                    old(self)@.peak
                },
                armed: true,
                installed: true,
            }),
    {
        if !self.armed {
            return ;
        }
        self.installed = true;
        let now: i64 = (self.in_flight as i128 + size as i128) as i64;
        self.in_flight = now;
        if now > self.peak {
            self.peak = now;
        }
    }

    /// An allocation was given back.
    pub fn discharge(&mut self, size: u64)
        requires
            old(self).wf(),
            old(self)@.armed ==> old(self)@.in_flight - size >= i64::MIN,
        ensures
            final(self).wf(),
            !old(self)@.armed ==> final(self)@ == old(self)@,
            old(self)@.armed ==> final(self)@ == (Books {
                in_flight: old(self)@.in_flight - size,
                ..old(self)@
            }),
    {
        if !self.armed {
            return ;
        }
        self.in_flight = (self.in_flight as i128 - size as i128) as i64;
    }

    /// An allocation changed its size: the net difference is counted.
    pub fn resize(&mut self, was: u64, now: u64)
        requires
            old(self).wf(),
            old(self)@.armed ==> i64::MIN <= old(self)@.in_flight + now - was <= i64::MAX,
        ensures
            final(self).wf(),
            !old(self)@.armed ==> final(self)@ == old(self)@,
            old(self)@.armed ==> final(self)@.in_flight == old(self)@.in_flight + now - was,
            old(self)@.armed ==> final(self)@.peak == (if now >= was && old(self)@.in_flight + now
                - was > old(self)@.peak {
                old(self)@.in_flight + now - was
            } else {
                old(self)@.peak
            }),
            final(self)@.armed == old(self)@.armed,
            final(self)@.installed == (old(self)@.installed || (old(self)@.armed && now >= was)),
    {
        if now >= was {
            self.charge(now - was);
        } else {
            self.discharge(was - now);
        }
    }

    /// Switch counting on. Whether it already was.
    pub fn switch_on(&mut self) -> (was_armed: bool)
        requires
            old(self).wf(),
        ensures
            final(self).wf(),
            was_armed == old(self)@.armed,
            final(self)@ == (Books { armed: true, ..old(self)@ }),
    {
        let was = self.armed;
        self.armed = true;
        was
    }
}

/// A window in which allocations are counted.
#[derive(Debug)]
pub struct Armed {
    baseline: i64,
    was_armed: bool,
    installed: bool,
}

/// A difference, or zero where it is negative.
pub open spec fn above(n: int, baseline: int) -> int {
    if n > baseline {
        n - baseline
    } else {
        0
    }
}

/// Open a window, once counting is on and a probe has shown whether the
/// allocator is in the path. The baseline is what is live now, and the
/// high-water mark starts from it.
pub fn arm(books: &mut Counting, was_armed: bool) -> (window: Armed)
    requires
        old(books).wf(),
    ensures
        final(books).wf(),
        final(books)@ == (Books { peak: old(books)@.in_flight, ..old(books)@ }),
        window.start() == old(books)@.in_flight,
        window.is_installed() == old(books)@.installed,
        window.was_on() == was_armed,
{
    books.peak = books.in_flight;
    Armed { baseline: books.in_flight, was_armed, installed: books.installed }
}

impl Armed {
    /// What was live when the window opened.
    pub closed spec fn start(self) -> int {
        self.baseline as int
    }

    /// Whether the allocator is in the path.
    pub closed spec fn is_installed(self) -> bool {
        self.installed
    }

    /// Whether counting was on before the window opened.
    pub closed spec fn was_on(self) -> bool {
        self.was_armed
    }

    /// The peak live heap since this window opened, over what was already live
    /// when it did. `None`, not zero, when the allocator is not in the path.
    pub fn peak_bytes(&self, books: &Counting) -> (bytes: Option<u64>)
        requires
            books.wf(),
        ensures
            bytes is Some <==> self.is_installed(),
            bytes is Some ==> bytes->0 == above(books@.peak, self.start()),
    {
        if self.installed {
            Some(difference(books.peak, self.baseline))
        } else {
            None
        }
    }

    /// What is live right now, over the same baseline; zero where more was freed
    /// than allocated.
    pub fn live_bytes(&self, books: &Counting) -> (bytes: Option<u64>)
        requires
            books.wf(),
        ensures
            bytes is Some <==> self.is_installed(),
            bytes is Some ==> bytes->0 == above(books@.in_flight, self.start()),
    {
        if self.installed {
            Some(difference(books.in_flight, self.baseline))
        } else {
            None
        }
    }

    /// Whether the counting allocator is really in the allocation path.
    pub fn installed(&self) -> (yes: bool)
        ensures
            yes == self.is_installed(),
    {
        self.installed
    }

    /// Close the window: the flag goes back to where it was, so that a window
    /// inside another does not turn the other off.
    pub fn close(self, books: &mut Counting)
        requires
            old(books).wf(),
        ensures
            final(books).wf(),
            final(books)@ == (Books { armed: self.was_on(), ..old(books)@ }),
    {
        books.armed = self.was_armed;
    }
}

/// A difference, or zero where it is negative.
fn difference(n: i64, baseline: i64) -> (d: u64)
    ensures
        d == above(n as int, baseline as int),
{
    if n > baseline {
        (n as i128 - baseline as i128) as u64
    } else {
        0
    }
}

/// The peak of a window is never under what is live in it.
pub proof fn law_peak_covers_live(books: Counting, window: Armed)
    requires
        books.wf(),
    ensures
        above(books@.in_flight, window.start()) <= above(books@.peak, window.start()),
{
}

} // verus!
