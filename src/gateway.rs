//! The admission gate and the permit releaser.
//!
//! A request may start only while it holds a permit. At most `capacity`
//! permits exist, so at most `capacity` requests are in flight or waiting
//! for their permit to come back. A finished request hands its permit to the
//! releaser, which returns permits to the free pool one at a time, each at
//! least one release interval after the last. That caps the sustained rate
//! of requests at one per interval, whatever the capacity.
//!
//! The gateway does not sleep or wake anyone: whoever drives it passes in
//! the current instant of a monotonic clock, in nanoseconds, and waits where
//! a method says it must.

use vstd::prelude::*;
use crate::opt_nat;

verus! {

/// The documented burst limit: requests in flight at once.
pub const BURST_LIMIT: u64 = 10;

/// The documented sustained limit: requests per second.
pub const RATE_LIMIT: u64 = 2;

/// Nanoseconds in one second.
pub const NANOS_PER_SECOND: u64 = 1_000_000_000;

/// The state of a gateway, as plain numbers and sequences.
pub struct GatewayView {
    /// The number that marks this gateway's permits.
    pub id: nat,
    /// How many permits exist.
    pub capacity: nat,
    /// The least time between two releases, in nanoseconds.
    pub interval: nat,
    /// Permits in the free pool.
    pub free: nat,
    /// Permits held by requests in flight.
    pub in_flight: nat,
    /// Permits handed to the releaser and not yet back in the pool.
    pub pending: nat,
    /// The latest instant seen.
    pub clock: nat,
    /// When the release under way began, if one is.
    pub timer: Option<nat>,
    /// Tickets of the callers waiting for a permit, first come first.
    pub waiting: Seq<u64>,
    /// The ticket that the next caller to queue receives.
    pub next_ticket: nat,
    /// The instant of each admission, in order.
    pub admitted: Seq<nat>,
    /// The instant at which each finished request handed back its permit, in order.
    pub completed: Seq<nat>,
    /// The instant at which each permit returned to the pool, in order.
    pub released: Seq<nat>,
}

/// Whether the tickets of a queue rise from first to last and all lie below
/// `next`, the ticket not yet given out.
pub open spec fn queue_ok(waiting: Seq<u64>, next: nat) -> bool {
    &&& forall|i: int, j: int| 0 <= i < j < waiting.len() ==> #[trigger] waiting[i] < #[trigger] waiting[j]
    &&& forall|i: int| 0 <= i < waiting.len() ==> #[trigger] waiting[i] < next
}

/// The larger of two instants.
pub open spec fn later(a: nat, b: nat) -> nat {
    if a >= b {
        a
    } else {
        b
    }
}

impl GatewayView {
    /// Permits outstanding: held in flight or pending release.
    pub open spec fn outstanding(self) -> nat {
        self.in_flight + self.pending
    }

    /// The invariant of every gateway.
    #[verifier::opaque]
    pub open spec fn wf(self) -> bool {
        &&& self.free + self.in_flight + self.pending == self.capacity
        &&& self.capacity <= u64::MAX
        &&& self.interval <= u64::MAX
        &&& self.clock <= u64::MAX
        &&& self.next_ticket <= u64::MAX
        &&& self.admitted.len() == self.completed.len() + self.in_flight
        &&& self.completed.len() == self.released.len() + self.pending
        &&& forall|k: int| 0 <= k < self.admitted.len() ==> #[trigger] self.admitted[k] <= self.clock
        &&& forall|k: int|
            0 <= k < self.completed.len() ==> #[trigger] self.completed[k] <= self.clock
        &&& forall|k: int| 0 <= k < self.released.len() ==> #[trigger] self.released[k] <= self.clock
        &&& forall|k: int|
            0 < k < self.released.len() ==> #[trigger] self.released[k] >= self.released[k - 1]
                + self.interval
        &&& forall|k: int|
            0 <= k < self.released.len() ==> #[trigger] self.released[k] >= self.completed[k]
                + self.interval
        &&& forall|k: int|
            0 <= k < self.completed.len() ==> #[trigger] self.completed[k] >= self.admitted[k]
        &&& forall|k: int|
            self.capacity <= k < self.admitted.len() ==> k - self.capacity < self.released.len()
                && self.released[k - self.capacity] <= #[trigger] self.admitted[k]
        &&& match self.timer {
            Some(s) => {
                &&& self.pending >= 1
                &&& s <= self.clock
                &&& self.completed[self.released.len() as int] <= s
                &&& self.released.len() > 0 ==> self.released.last() <= s
            },
            None => true,
        }
        &&& queue_ok(self.waiting, self.next_ticket)
    }

    /// A fresh gateway with `capacity` permits and `interval` nanoseconds
    /// between releases.
    pub open spec fn initial(id: nat, capacity: nat, interval: nat) -> GatewayView {
        GatewayView {
            id,
            capacity,
            interval,
            free: capacity,
            in_flight: 0,
            pending: 0,
            clock: 0,
            timer: None,
            waiting: Seq::empty(),
            next_ticket: 0,
            admitted: Seq::empty(),
            completed: Seq::empty(),
            released: Seq::empty(),
        }
    }

    /// The state with the clock moved to `now`, if `now` is later.
    pub open spec fn tick(self, now: nat) -> GatewayView {
        GatewayView { clock: later(self.clock, now), ..self }
    }

    /// Whether a caller can join the queue: tickets are not used up.
    pub open spec fn can_enqueue(self) -> bool {
        self.next_ticket < u64::MAX
    }

    /// The state after a caller joins the queue.
    pub open spec fn enqueued(self) -> GatewayView {
        GatewayView {
            waiting: self.waiting.push(self.next_ticket as u64),
            next_ticket: self.next_ticket + 1,
            ..self
        }
    }

    /// Whether the caller with `ticket` is admitted now: it is first in the
    /// queue and a permit is free.
    pub open spec fn can_enter(self, ticket: u64) -> bool {
        &&& self.waiting.len() > 0
        &&& self.waiting[0] == ticket
        &&& self.free > 0
    }

    /// The state after admitting the first caller in the queue at `now`.
    pub open spec fn admitted_at(self, now: nat) -> GatewayView {
        let c = later(self.clock, now);
        GatewayView {
            clock: c,
            waiting: self.waiting.drop_first(),
            free: (self.free - 1) as nat,
            in_flight: self.in_flight + 1,
            admitted: self.admitted.push(c),
            ..self
        }
    }

    /// The state after the caller with `ticket` leaves the queue unserved.
    pub open spec fn cancelled(self, ticket: u64) -> GatewayView {
        if exists|i: int| 0 <= i < self.waiting.len() && self.waiting[i] == ticket {
            let i = choose|i: int| 0 <= i < self.waiting.len() && self.waiting[i] == ticket;
            GatewayView { waiting: self.waiting.remove(i), ..self }
        } else {
            self
        }
    }

    /// The state after a finished request hands its permit to the releaser
    /// at `now`.
    pub open spec fn complete(self, now: nat) -> GatewayView {
        let c = later(self.clock, now);
        if self.in_flight > 0 {
            GatewayView {
                clock: c,
                in_flight: (self.in_flight - 1) as nat,
                pending: self.pending + 1,
                completed: self.completed.push(c),
                ..self
            }
        } else {
            self.tick(now)
        }
    }

    /// The state after asking at `now` for the next release to begin.
    pub open spec fn begin(self, now: nat) -> GatewayView {
        let c = later(self.clock, now);
        if self.timer is None && self.pending > 0 {
            GatewayView { clock: c, timer: Some(c), ..self }
        } else {
            self.tick(now)
        }
    }

    /// When the release under way may complete, capped at the largest `u64`.
    pub open spec fn deadline(self) -> Option<nat> {
        match self.timer {
            Some(s) => Some(
                if s + self.interval > u64::MAX {
                    u64::MAX as nat
                } else {
                    s + self.interval
                },
            ),
            None => None,
        }
    }

    /// Whether the release under way may complete at `now`.
    pub open spec fn can_release(self, now: nat) -> bool {
        match self.timer {
            Some(s) => later(self.clock, now) >= s + self.interval,
            None => false,
        }
    }

    /// The state after a releaser that begins each release as soon as the
    /// one before ends has completed `k` releases, the first beginning at `t`:
    /// release `j` (from one) begins at `t + (j - 1) * interval` and
    /// completes at `t + j * interval`.
    pub open spec fn prompt_releases(self, t: nat, k: nat) -> GatewayView
        decreases k,
    {
        if k == 0 {
            self
        } else {
            let h = self.prompt_releases(t, (k - 1) as nat);
            h.begin((t + (k - 1) * self.interval) as nat).release(t + k * self.interval)
        }
    }

    /// The state after the release under way completes at `now`.
    pub open spec fn release(self, now: nat) -> GatewayView {
        let c = later(self.clock, now);
        GatewayView {
            clock: c,
            timer: None,
            pending: (self.pending - 1) as nat,
            free: self.free + 1,
            released: self.released.push(c),
            ..self
        }
    }
}

/// The right to have one request in flight. Only a gateway makes one, and
/// the permit carries that gateway's id.
pub struct Permit {
    gate: u64,
}

impl Permit {
    /// The id of the gateway that made this permit.
    pub closed spec fn gateway(&self) -> nat {
        self.gate as nat
    }

    /// The id of the gateway that made this permit.
    pub fn gateway_id(&self) -> (r: u64)
        ensures
            r == self.gateway(),
    {
        self.gate
    }
}

/// A gateway's shared state: the permit pool, the queue of callers waiting
/// for a permit, and the releaser's queue.
pub struct Middleware {
    id: u64,
    capacity: u64,
    interval_nanos: u64,
    free: u64,
    in_flight: u64,
    pending: u64,
    clock: u64,
    timer: Option<u64>,
    waiting: Vec<u64>,
    next_ticket: u64,
    admitted: Ghost<Seq<nat>>,
    completed: Ghost<Seq<nat>>,
    released: Ghost<Seq<nat>>,
}

impl View for Middleware {
    type V = GatewayView;

    closed spec fn view(&self) -> GatewayView {
        GatewayView {
            id: self.id as nat,
            capacity: self.capacity as nat,
            interval: self.interval_nanos as nat,
            free: self.free as nat,
            in_flight: self.in_flight as nat,
            pending: self.pending as nat,
            clock: self.clock as nat,
            timer: match self.timer {
                Some(s) => Some(s as nat),
                None => None,
            },
            waiting: self.waiting@,
            next_ticket: self.next_ticket as nat,
            admitted: self.admitted@,
            completed: self.completed@,
            released: self.released@,
        }
    }
}

/// Nanoseconds between releases for `rate` requests per second: one second
/// divided by `rate`, rounded up, so that releases never come faster than
/// `rate` a second.
pub open spec fn release_interval(rate: nat) -> nat {
    let n = NANOS_PER_SECOND as nat;
    if n % rate == 0 {
        n / rate
    } else {
        n / rate + 1
    }
}

/// The release interval is the shortest whole number of nanoseconds that
/// keeps releases at or below `rate` a second.
pub proof fn lemma_release_interval(rate: nat)
    requires
        rate > 0,
    ensures
        release_interval(rate) * rate >= NANOS_PER_SECOND,
        (release_interval(rate) - 1) * rate < NANOS_PER_SECOND,
        release_interval(rate) <= NANOS_PER_SECOND,
{
    let n = NANOS_PER_SECOND as int;
    let q = n / rate as int;
    let m = n % rate as int;
    vstd::arithmetic::div_mod::lemma_fundamental_div_mod(n, rate as int);
    assert(0 <= m < rate);
    assert(q * rate + m == n);
    if m == 0 {
        assert(q * rate == n);
        assert((q - 1) * rate == q * rate - rate) by (nonlinear_arith);
    } else {
        assert((q + 1) * rate == q * rate + rate) by (nonlinear_arith);
    }
    assert(q <= n) by (nonlinear_arith)
        requires
            q * rate + m == n,
            rate >= 1,
            m >= 0,
            q >= 0,
    ;
}

/// The interval between releases for `rate` requests per second.
fn interval_for(rate: u64) -> (r: u64)
    requires
        rate > 0,
    ensures
        r == release_interval(rate as nat),
{
    let q = NANOS_PER_SECOND / rate;
    proof {
        lemma_release_interval(rate as nat);
    }
    if NANOS_PER_SECOND % rate == 0 {
        q
    } else {
        q + 1
    }
}

impl Middleware {
    /// A gateway with `capacity` permits that returns permits to the pool at
    /// most `rate_per_second` times a second; `None` when the rate is zero.
    /// Its permits carry `id`: gateways in use together take distinct ids.
    pub fn new(id: u64, capacity: u64, rate_per_second: u64) -> (r: Option<Middleware>)
        ensures
            r is None <==> rate_per_second == 0,
            r matches Some(g) ==> g@.interval * rate_per_second >= NANOS_PER_SECOND,
            r matches Some(g) ==> g@ == GatewayView::initial(
                id as nat,
                capacity as nat,
                release_interval(rate_per_second as nat),
            ),
            r matches Some(g) ==> g@.wf(),
    {
        if rate_per_second == 0 {
            return None;
        }
        let interval_nanos = interval_for(rate_per_second);
        proof {
            lemma_release_interval(rate_per_second as nat);
            lemma_initial_wf(id as nat, capacity as nat, interval_nanos as nat);
        }
        Some(
            Middleware {
                id,
                capacity,
                interval_nanos,
                free: capacity,
                in_flight: 0,
                pending: 0,
                clock: 0,
                timer: None,
                waiting: Vec::new(),
                next_ticket: 0,
                admitted: Ghost(Seq::empty()),
                completed: Ghost(Seq::empty()),
                released: Ghost(Seq::empty()),
            },
        )
    }

    /// The number that marks this gateway's permits.
    pub fn id(&self) -> (r: u64)
        ensures
            r == self@.id,
    {
        self.id
    }

    /// How many permits exist.
    pub fn capacity(&self) -> (r: u64)
        ensures
            r == self@.capacity,
    {
        self.capacity
    }

    /// The least time between two releases, in nanoseconds.
    pub fn release_interval_nanos(&self) -> (r: u64)
        ensures
            r == self@.interval,
    {
        self.interval_nanos
    }

    /// Permits in the free pool.
    pub fn free(&self) -> (r: u64)
        ensures
            r == self@.free,
    {
        self.free
    }

    /// Permits held by requests in flight.
    pub fn in_flight(&self) -> (r: u64)
        ensures
            r == self@.in_flight,
    {
        self.in_flight
    }

    /// Permits waiting for the releaser.
    pub fn pending(&self) -> (r: u64)
        ensures
            r == self@.pending,
    {
        self.pending
    }

    /// Permits in flight or pending release.
    pub fn outstanding(&self) -> (r: u64)
        requires
            self@.wf(),
        ensures
            r == self@.outstanding(),
    {
        proof {
            lemma_wf_counts(self@);
        }
        self.in_flight + self.pending
    }

    /// Callers waiting for a permit.
    pub fn waiting(&self) -> (r: usize)
        ensures
            r == self@.waiting.len(),
    {
        self.waiting.len()
    }

    /// Puts a caller at the end of the queue for a permit and returns its
    /// ticket; `None` once every ticket has been given out.
    pub fn enqueue(&mut self) -> (r: Option<u64>)
        requires
            old(self)@.wf(),
        ensures
            final(self)@.wf(),
            r is Some <==> old(self)@.can_enqueue(),
            r matches Some(t) ==> t == old(self)@.next_ticket && final(self)@ == old(
                self,
            )@.enqueued(),
            r is None ==> final(self)@ == old(self)@,
    {
        proof {
            lemma_wf_counts(self@);
        }
        if self.next_ticket == u64::MAX {
            return None;
        }
        proof {
            lemma_enqueued_wf(self@);
        }
        let t = self.next_ticket;
        self.waiting.push(t);
        self.next_ticket = t + 1;
        Some(t)
    }

    /// Admits the caller with `ticket` at `now` if it is first in the queue
    /// and a permit is free, handing it the permit.
    pub fn try_acquire(&mut self, ticket: u64, now: u64) -> (r: Option<Permit>)
        requires
            old(self)@.wf(),
        ensures
            final(self)@.wf(),
            r is Some <==> old(self)@.can_enter(ticket),
            r is Some ==> final(self)@ == old(self)@.admitted_at(now as nat),
            r matches Some(p) ==> p.gateway() == old(self)@.id,
            r is None ==> final(self)@ == old(self)@.tick(now as nat),
    {
        proof {
            lemma_wf_counts(self@);
        }
        let c = if now > self.clock {
            now
        } else {
            self.clock
        };
        if self.waiting.len() > 0 && self.waiting[0] == ticket && self.free > 0 {
            proof {
                lemma_admitted_wf(self@, ticket, now as nat);
            }
            let ghost old_waiting = self.waiting@;
            self.clock = c;
            self.waiting.remove(0);
            assert(self.waiting@ =~= old_waiting.drop_first());
            self.free = self.free - 1;
            self.in_flight = self.in_flight + 1;
            self.admitted = Ghost(self.admitted@.push(c as nat));
            Some(Permit { gate: self.id })
        } else {
            proof {
                lemma_tick_wf(self@, now as nat);
            }
            self.clock = c;
            None
        }
    }

    /// Takes the caller with `ticket` out of the queue without a permit,
    /// when it stops waiting.
    pub fn cancel(&mut self, ticket: u64)
        requires
            old(self)@.wf(),
        ensures
            final(self)@.wf(),
            final(self)@ == old(self)@.cancelled(ticket),
    {
        let mut i: usize = 0;
        while i < self.waiting.len()
            invariant
                self@ == old(self)@,
                self@.wf(),
                0 <= i <= self.waiting@.len(),
                forall|k: int| 0 <= k < i ==> self.waiting@[k] != ticket,
            decreases self.waiting@.len() - i,
        {
            if self.waiting[i] == ticket {
                proof {
                    lemma_cancelled_wf(self@, i as int);
                }
                self.waiting.remove(i);
                return;
            }
            i = i + 1;
        }
    }

    /// A finished request hands its permit to the releaser at `now`. The
    /// permit is not free until the releaser returns it. A permit of this
    /// gateway exists only while a request is in flight, so the count of
    /// requests in flight is then positive.
    pub fn schedule_release(&mut self, permit: Permit, now: u64)
        requires
            old(self)@.wf(),
            permit.gateway() == old(self)@.id,
        ensures
            final(self)@.wf(),
            final(self)@ == old(self)@.complete(now as nat),
    {
        proof {
            lemma_wf_counts(self@);
            lemma_complete_wf(self@, now as nat);
        }
        let c = if now > self.clock {
            now
        } else {
            self.clock
        };
        self.clock = c;
        if self.in_flight > 0 {
            self.in_flight = self.in_flight - 1;
            self.pending = self.pending + 1;
            self.completed = Ghost(self.completed@.push(c as nat));
        }
    }

    /// Starts the next release at `now` if none is under way and a permit
    /// waits for one; returns the instant at which the release under way
    /// may complete, or `None` when there is nothing to release.
    pub fn begin_release(&mut self, now: u64) -> (r: Option<u64>)
        requires
            old(self)@.wf(),
        ensures
            final(self)@.wf(),
            final(self)@ == old(self)@.begin(now as nat),
            opt_nat(r) == final(self)@.deadline(),
    {
        proof {
            lemma_begin_wf(self@, now as nat);
        }
        let c = if now > self.clock {
            now
        } else {
            self.clock
        };
        self.clock = c;
        if self.timer.is_none() && self.pending > 0 {
            self.timer = Some(c);
        }
        match self.timer {
            Some(s) => Some(s.saturating_add(self.interval_nanos)),
            None => None,
        }
    }

    /// Completes the release under way at `now`, returning its permit to the
    /// free pool, if a whole release interval has passed since it began.
    pub fn finish_release(&mut self, now: u64) -> (r: bool)
        requires
            old(self)@.wf(),
        ensures
            final(self)@.wf(),
            r == old(self)@.can_release(now as nat),
            r ==> final(self)@ == old(self)@.release(now as nat),
            !r ==> final(self)@ == old(self)@.tick(now as nat),
    {
        proof {
            lemma_wf_counts(self@);
        }
        let c = if now > self.clock {
            now
        } else {
            self.clock
        };
        match self.timer {
            Some(s) => {
                if c as u128 >= s as u128 + self.interval_nanos as u128 {
                    proof {
                        lemma_release_wf(self@, now as nat);
                    }
                    self.clock = c;
                    self.timer = None;
                    self.pending = self.pending - 1;
                    self.free = self.free + 1;
                    self.released = Ghost(self.released@.push(c as nat));
                    true
                } else {
                    proof {
                        lemma_tick_wf(self@, now as nat);
                    }
                    self.clock = c;
                    false
                }
            },
            None => {
                proof {
                    lemma_tick_wf(self@, now as nat);
                }
                self.clock = c;
                false
            },
        }
    }
}

/// Never more permits outstanding, in flight or pending release, than the
/// gateway's capacity.
pub proof fn lemma_outstanding_within_capacity(g: GatewayView)
    requires
        g.wf(),
    ensures
        g.outstanding() <= g.capacity,
        g.admitted.len() - g.released.len() == g.outstanding(),
{
    reveal(GatewayView::wf);
}

/// Permits return to the pool one at a time: the `j`-th release comes at
/// least `j - i` release intervals after the `i`-th.
pub proof fn lemma_release_spacing(g: GatewayView, i: int, j: int)
    requires
        g.wf(),
        0 <= i <= j < g.released.len(),
    ensures
        g.released[j] >= g.released[i] + (j - i) * g.interval,
    decreases j - i,
{
    if i < j {
        lemma_release_spacing(g, i, j - 1);
        reveal(GatewayView::wf);
        assert(g.released[j] >= g.released[j - 1] + g.interval);
        assert((j - 1 - i) * g.interval + g.interval == (j - i) * g.interval) by (nonlinear_arith);
    } else {
        assert((j - i) * g.interval == 0) by (nonlinear_arith)
            requires
                i == j,
        ;
    }
}

/// The sustained rate: among any `capacity + m + 1` consecutive admissions,
/// and among any `capacity + m + 1` consecutive finished requests, the last
/// comes at least `m + 1` release intervals after the first. Over a long
/// window no more than one request per interval starts or finishes, beyond
/// a burst of `capacity`.
pub proof fn lemma_sustained_rate(g: GatewayView, i: int, j: int)
    requires
        g.wf(),
        0 <= i,
        i + g.capacity <= j,
    ensures
        j < g.admitted.len() ==> g.admitted[j] >= g.admitted[i] + (j - i - g.capacity + 1)
            * g.interval,
        j < g.completed.len() ==> g.completed[j] >= g.completed[i] + (j - i - g.capacity + 1)
            * g.interval,
{
    reveal(GatewayView::wf);
    let n = g.capacity as int;
    if j < g.admitted.len() {
        assert(j - n < g.released.len() && g.released[j - n] <= g.admitted[j]);
        lemma_release_spacing(g, i, j - n);
        assert(g.released[i] >= g.completed[i] + g.interval);
        assert(g.completed[i] >= g.admitted[i]);
        assert((j - n - i) * g.interval + g.interval == (j - i - n + 1) * g.interval)
            by (nonlinear_arith);
        if j < g.completed.len() {
            assert(g.completed[j] >= g.admitted[j]);
        }
    }
}

/// A call through the gateway leaves nothing behind: joining the queue of an
/// idle gateway, being admitted, finishing and having the permit released
/// restores the free, in-flight and pending counts, the queue and the
/// releaser, so a second call meets the gateway as the first did.
pub proof fn lemma_call_leaves_no_trace(g: GatewayView, t1: nat, t2: nat, t3: nat, t4: nat)
    requires
        g.wf(),
        g.can_enqueue(),
        g.waiting.len() == 0,
        g.free > 0,
        g.pending == 0,
    ensures
        g.enqueued().can_enter(g.next_ticket as u64),
        ({
            let h = g.enqueued().admitted_at(t1).complete(t2).begin(t3);
            &&& h.deadline() is Some
            &&& h.can_release(t4) ==> {
                let f = h.release(t4);
                &&& f.free == g.free
                &&& f.in_flight == g.in_flight
                &&& f.pending == g.pending
                &&& f.timer == g.timer
                &&& f.waiting == g.waiting
                &&& f.admitted.len() == g.admitted.len() + 1
                &&& f.released.len() == g.released.len() + 1
            }
        }),
{
    lemma_wf_counts(g);
    let e = g.enqueued();
    assert(e.waiting =~= seq![g.next_ticket as u64]);
    let a = e.admitted_at(t1);
    assert(a.waiting =~= g.waiting);
}

/// Handed-back permits come back promptly: with no release under way and
/// `k` permits pending, a releaser that begins each release at once sees
/// each one due a single interval after it began and completes it then, so
/// the `k`-th permit (the last handed back, with `k - 1` ahead of it) is in
/// the free pool by `t + k * interval`.
pub proof fn lemma_prompt_release(g: GatewayView, t: nat, k: nat)
    requires
        g.wf(),
        g.timer is None,
        g.clock <= t,
        k <= g.pending,
        t + k * g.interval <= u64::MAX,
    ensures
        ({
            let h = g.prompt_releases(t, k);
            &&& h.wf()
            &&& h.timer is None
            &&& h.pending == g.pending - k
            &&& h.free == g.free + k
            &&& h.in_flight == g.in_flight
            &&& h.released.len() == g.released.len() + k
            &&& h.interval == g.interval
            &&& h.clock == if k == 0 {
                g.clock
            } else {
                t + k * g.interval
            }
        }),
        k > 0 ==> ({
            let p = g.prompt_releases(t, (k - 1) as nat).begin((t + (k - 1) * g.interval) as nat);
            &&& p.deadline() == Some((t + k * g.interval) as nat)
            &&& p.can_release(t + k * g.interval)
        }),
    decreases k,
{
    if k > 0 {
        let i = g.interval;
        assert((k - 1) * i + i == k * i && (k - 1) * i <= k * i) by (nonlinear_arith)
            requires
                k >= 1,
        ;
        lemma_prompt_release(g, t, (k - 1) as nat);
        let h = g.prompt_releases(t, (k - 1) as nat);
        let s = (t + (k - 1) * i) as nat;
        lemma_wf_counts(h);
        lemma_begin_wf(h, s);
        let p = h.begin(s);
        assert(p.timer == Some(s));
        lemma_release_wf(p, (t + k * i) as nat);
    }
}

/// The permit counts that every gateway keeps.
pub proof fn lemma_wf_counts(g: GatewayView)
    requires
        g.wf(),
    ensures
        g.free + g.in_flight + g.pending == g.capacity,
        g.capacity <= u64::MAX,
        g.interval <= u64::MAX,
        g.clock <= u64::MAX,
        g.next_ticket <= u64::MAX,
        g.timer matches Some(s) ==> g.pending >= 1 && s <= g.clock,
{
    reveal(GatewayView::wf);
}

proof fn lemma_initial_wf(id: nat, capacity: nat, interval: nat)
    requires
        capacity <= u64::MAX,
        interval <= u64::MAX,
    ensures
        GatewayView::initial(id, capacity, interval).wf(),
{
    reveal(GatewayView::wf);
}

proof fn lemma_tick_wf(g: GatewayView, now: nat)
    requires
        g.wf(),
        now <= u64::MAX,
    ensures
        g.tick(now).wf(),
{
    reveal(GatewayView::wf);
}

proof fn lemma_enqueued_wf(g: GatewayView)
    requires
        g.wf(),
        g.can_enqueue(),
    ensures
        g.enqueued().wf(),
{
    reveal(GatewayView::wf);
    let h = g.enqueued();
    assert forall|i: int, j: int| 0 <= i < j < h.waiting.len() implies #[trigger] h.waiting[i]
        < #[trigger] h.waiting[j] by {
        if j < g.waiting.len() {
            assert(g.waiting[i] < g.waiting[j]);
        } else {
            assert(g.waiting[i] < g.next_ticket);
        }
    }
    assert forall|i: int| 0 <= i < h.waiting.len() implies #[trigger] h.waiting[i]
        < h.next_ticket by {
        if i < g.waiting.len() {
            assert(g.waiting[i] < g.next_ticket);
        }
    }
}

proof fn lemma_admitted_wf(g: GatewayView, ticket: u64, now: nat)
    requires
        g.wf(),
        g.can_enter(ticket),
        now <= u64::MAX,
    ensures
        g.admitted_at(now).wf(),
{
    reveal(GatewayView::wf);
    let h = g.admitted_at(now);
    let c = h.clock;
    assert forall|k: int| 0 <= k < h.admitted.len() implies #[trigger] h.admitted[k] <= h.clock by {
        if k < g.admitted.len() {
            assert(g.admitted[k] <= g.clock);
        }
    }
    assert forall|k: int| 0 <= k < h.completed.len() implies #[trigger] h.completed[k]
        >= h.admitted[k] by {
        assert(g.completed[k] >= g.admitted[k]);
    }
    assert forall|k: int|
        h.capacity <= k < h.admitted.len() implies k - h.capacity < h.released.len()
        && h.released[k - h.capacity] <= #[trigger] h.admitted[k] by {
        if k < g.admitted.len() {
            assert(g.released[k - g.capacity] <= g.admitted[k]);
        } else {
            assert(g.released[k - g.capacity] <= g.clock);
        }
    }
    assert forall|i: int, j: int| 0 <= i < j < h.waiting.len() implies #[trigger] h.waiting[i]
        < #[trigger] h.waiting[j] by {
        assert(g.waiting[i + 1] < g.waiting[j + 1]);
    }
    assert forall|i: int| 0 <= i < h.waiting.len() implies #[trigger] h.waiting[i]
        < h.next_ticket by {
        assert(g.waiting[i + 1] < g.next_ticket);
    }
}

proof fn lemma_remove_queue_ok(w: Seq<u64>, next: nat, i: int)
    requires
        queue_ok(w, next),
        0 <= i < w.len(),
    ensures
        queue_ok(w.remove(i), next),
        forall|j: int| 0 <= j < w.len() && w[j] == w[i] ==> j == i,
{
    let h = w.remove(i);
    assert forall|a: int, b: int| 0 <= a < b < h.len() implies #[trigger] h[a] < #[trigger] h[b] by {
        let a0 = if a < i {
            a
        } else {
            a + 1
        };
        let b0 = if b < i {
            b
        } else {
            b + 1
        };
        assert(w[a0] < w[b0]);
    }
    assert forall|a: int| 0 <= a < h.len() implies #[trigger] h[a] < next by {
        let a0 = if a < i {
            a
        } else {
            a + 1
        };
        assert(w[a0] < next);
    }
    assert forall|j: int| 0 <= j < w.len() && w[j] == w[i] implies j == i by {
        if j < i {
            assert(w[j] < w[i]);
        } else if j > i {
            assert(w[i] < w[j]);
        }
    }
}

proof fn lemma_cancelled_wf(g: GatewayView, i: int)
    requires
        g.wf(),
        0 <= i < g.waiting.len(),
    ensures
        (GatewayView { waiting: g.waiting.remove(i), ..g }).wf(),
        g.cancelled(g.waiting[i]) == (GatewayView { waiting: g.waiting.remove(i), ..g }),
{
    reveal(GatewayView::wf);
    lemma_remove_queue_ok(g.waiting, g.next_ticket, i);
    let ticket = g.waiting[i];
    let j = choose|j: int| 0 <= j < g.waiting.len() && g.waiting[j] == ticket;
    assert(j == i);
}

proof fn lemma_complete_wf(g: GatewayView, now: nat)
    requires
        g.wf(),
        now <= u64::MAX,
    ensures
        g.complete(now).wf(),
{
    reveal(GatewayView::wf);
    let h = g.complete(now);
    if g.in_flight > 0 {
        assert forall|k: int| 0 <= k < h.completed.len() implies #[trigger] h.completed[k]
            <= h.clock by {
            if k < g.completed.len() {
                assert(g.completed[k] <= g.clock);
            }
        }
        assert forall|k: int| 0 <= k < h.completed.len() implies #[trigger] h.completed[k]
            >= h.admitted[k] by {
            if k < g.completed.len() {
                assert(g.completed[k] >= g.admitted[k]);
            } else {
                assert(g.admitted[k] <= g.clock);
            }
        }
        assert forall|k: int| 0 <= k < h.released.len() implies #[trigger] h.released[k]
            >= h.completed[k] + h.interval by {
            assert(g.released[k] >= g.completed[k] + g.interval);
        }
    }
}

proof fn lemma_begin_wf(g: GatewayView, now: nat)
    requires
        g.wf(),
        now <= u64::MAX,
    ensures
        g.begin(now).wf(),
{
    reveal(GatewayView::wf);
    let h = g.begin(now);
    if g.timer is None && g.pending > 0 {
        let m = g.released.len() as int;
        assert(g.completed[m] <= g.clock);
        if m > 0 {
            assert(g.released[m - 1] <= g.clock);
        }
    }
}

proof fn lemma_release_wf(g: GatewayView, now: nat)
    requires
        g.wf(),
        g.can_release(now),
        now <= u64::MAX,
    ensures
        g.release(now).wf(),
{
    reveal(GatewayView::wf);
    let h = g.release(now);
    let s = g.timer->0;
    let m = g.released.len() as int;
    assert forall|k: int| 0 <= k < h.released.len() implies #[trigger] h.released[k]
        <= h.clock by {
        if k < m {
            assert(g.released[k] <= g.clock);
        }
    }
    assert forall|k: int| 0 < k < h.released.len() implies #[trigger] h.released[k]
        >= h.released[k - 1] + h.interval by {
        if k < m {
            assert(g.released[k] >= g.released[k - 1] + g.interval);
        }
    }
    assert forall|k: int| 0 <= k < h.released.len() implies #[trigger] h.released[k]
        >= h.completed[k] + h.interval by {
        if k < m {
            assert(g.released[k] >= g.completed[k] + g.interval);
        }
    }
    assert forall|k: int|
        h.capacity <= k < h.admitted.len() implies k - h.capacity < h.released.len()
        && h.released[k - h.capacity] <= #[trigger] h.admitted[k] by {
        assert(g.released[k - g.capacity] <= g.admitted[k]);
    }
}

impl Default for Middleware {
    /// A gateway with id zero and the documented limits: ten requests in
    /// flight, two releases a second.
    fn default() -> (r: Middleware)
        ensures
            r@ == GatewayView::initial(0, BURST_LIMIT as nat, release_interval(RATE_LIMIT as nat)),
            r@.wf(),
    {
        proof {
            lemma_release_interval(RATE_LIMIT as nat);
            lemma_initial_wf(0, BURST_LIMIT as nat, release_interval(RATE_LIMIT as nat));
        }
        Middleware {
            id: 0,
            capacity: BURST_LIMIT,
            interval_nanos: interval_for(RATE_LIMIT),
            free: BURST_LIMIT,
            in_flight: 0,
            pending: 0,
            clock: 0,
            timer: None,
            waiting: Vec::new(),
            next_ticket: 0,
            admitted: Ghost(Seq::empty()),
            completed: Ghost(Seq::empty()),
            released: Ghost(Seq::empty()),
        }
    }
}

} // verus!
