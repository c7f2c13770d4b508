use std::collections::VecDeque;

use vstd::prelude::*;

verus! {

/// Highest rate the shaper adapts to, in bytes per millisecond.
pub const MAX_TOKENS_PER_MS: u64 = 0x1_0000_0000;

/// Something that has a length: for a chunk of data, its number of bytes.
pub trait Length {
    /// The length, as contracts see it.
    spec fn byte_len(&self) -> nat;

    fn len(&self) -> (r: usize)
        ensures
            r == self.byte_len(),
    ;
}

impl Length for Vec<u8> {
    open spec fn byte_len(&self) -> nat {
        self@.len()
    }

    fn len(&self) -> (r: usize) {
        self.as_slice().len()
    }
}

/// A datagram and its address: its length is that of the datagram.
impl<A> Length for (Vec<u8>, A) {
    open spec fn byte_len(&self) -> nat {
        self.0@.len()
    }

    fn len(&self) -> (r: usize) {
        self.0.as_slice().len()
    }
}

/// Why a shaper cannot be built.
#[derive(Debug, PartialEq, Eq)]
pub enum ConfigError {
    QueueCapacityZero,
    MinRateOutOfRange,
}

/// What the shaper is, as its contracts see it.
pub struct ShaperView<T> {
    /// Items waiting to be forwarded, head first.
    pub pending: Seq<T>,
    pub queue_len: nat,
    /// Current rate, in bytes per millisecond.
    pub rate: nat,
    pub min_rate: nat,
    /// Tokens left, carried over from period to period.
    pub tokens_left: nat,
    /// Tokens already spent on the head item, which was too large for the
    /// tokens at hand.
    pub remainder: nat,
    /// Whether the head item lacked tokens in this period.
    pub shortage: bool,
    /// The tokens paid for the item last released, while downstream may
    /// still refuse it.
    pub in_flight: Option<nat>,
    /// Bytes handed downstream so far (less those handed back).
    pub forwarded: nat,
    /// Tokens granted so far: the first period's and each refill's rate.
    pub granted: nat,
    /// Every item taken from upstream, in order.
    pub received: Seq<T>,
    /// Every item handed downstream and not handed back, in order.
    pub delivered: Seq<T>,
}

/// The next rate: double it (plus one) up to the cap after a shortage,
/// otherwise decay by one down to the floor.
pub open spec fn adjusted_rate(rate: nat, min_rate: nat, shortage: bool) -> nat {
    if shortage {
        if 2 * rate + 1 > MAX_TOKENS_PER_MS {
            MAX_TOKENS_PER_MS as nat
        } else {
            2 * rate + 1
        }
    } else if rate > min_rate {
        (rate - 1) as nat
    } else {
        min_rate
    }
}

/// `tokens + rate`, saturating at the largest `u64`.
pub open spec fn refilled(tokens: nat, rate: nat) -> nat {
    if tokens + rate > u64::MAX {
        u64::MAX as nat
    } else {
        tokens + rate
    }
}

/// The shaper after a refill: the rate adapted to the last period, the
/// shortage mark cleared, and the new period's tokens added to those left.
pub open spec fn ticked<T>(v: ShaperView<T>) -> ShaperView<T> {
    let rate = adjusted_rate(v.rate, v.min_rate, v.shortage);
    ShaperView {
        rate,
        shortage: false,
        tokens_left: refilled(v.tokens_left, rate),
        granted: v.granted + rate,
        ..v
    }
}

/// The tokens at hand, with those already spent on it, pay for the head
/// item.
pub open spec fn head_affordable<T: Length>(v: ShaperView<T>) -> bool {
    v.pending.len() > 0 && v.pending[0].byte_len() <= v.tokens_left + v.remainder
}

/// The shaper after releasing its head item, paid first from the tokens
/// already spent on it.
pub open spec fn released<T: Length>(v: ShaperView<T>) -> ShaperView<T> {
    ShaperView {
        pending: v.pending.drop_first(),
        tokens_left: (v.tokens_left + v.remainder - v.pending[0].byte_len()) as nat,
        remainder: 0,
        in_flight: Some(v.pending[0].byte_len()),
        forwarded: v.forwarded + v.pending[0].byte_len(),
        delivered: v.delivered.push(v.pending[0]),
        ..v
    }
}

/// The shaper after finding its head item too costly: all tokens at hand
/// are spent on it, and the period is marked short.
pub open spec fn starved<T>(v: ShaperView<T>) -> ShaperView<T> {
    ShaperView {
        tokens_left: 0,
        remainder: v.remainder + v.tokens_left,
        shortage: true,
        in_flight: None,
        ..v
    }
}

/// The shaper after downstream refused `item`, the item last released: it
/// is back at the head, and the tokens paid for it count as spent on it.
pub open spec fn refused_view<T: Length>(v: ShaperView<T>, item: T) -> ShaperView<T> {
    let paid = v.in_flight->0;
    ShaperView {
        pending: seq![item] + v.pending,
        remainder: if paid <= item.byte_len() {
            paid
        } else {
            item.byte_len()
        },
        in_flight: None,
        forwarded: (v.forwarded - paid) as nat,
        delivered: v.delivered.drop_last(),
        ..v
    }
}

/// Order is kept: what went downstream, then what waits, is what came in.
pub open spec fn fifo<T>(v: ShaperView<T>) -> bool {
    v.delivered + v.pending == v.received
}

/// From `a` to `b`, the bytes forwarded and the tokens at hand grow by no
/// more than the tokens granted in between.
pub open spec fn budget_step<T>(a: ShaperView<T>, b: ShaperView<T>) -> bool {
    &&& a.granted <= b.granted
    &&& b.forwarded + b.tokens_left + b.remainder <= a.forwarded + a.tokens_left + a.remainder + (
    b.granted - a.granted)
}

/// A single-producer, single-consumer queue with a byte-denominated token
/// bucket that paces what leaves it. A driver refills it every millisecond,
/// hands it what upstream offers while it has room, and forwards what it
/// releases.
pub struct Shaper<T> {
    pending: VecDeque<T>,
    queue_len: usize,
    tokens_per_ms: u64,
    min_tokens_per_ms: u64,
    send_tokens_left: u64,
    remainder_tokens: u64,
    token_shortage: bool,
    in_flight: Option<u64>,
    forwarded: Ghost<nat>,
    granted: Ghost<nat>,
    received: Ghost<Seq<T>>,
    delivered: Ghost<Seq<T>>,
}

impl<T: Length> View for Shaper<T> {
    type V = ShaperView<T>;

    closed spec fn view(&self) -> ShaperView<T> {
        ShaperView {
            pending: self.pending@,
            queue_len: self.queue_len as nat,
            rate: self.tokens_per_ms as nat,
            min_rate: self.min_tokens_per_ms as nat,
            tokens_left: self.send_tokens_left as nat,
            remainder: self.remainder_tokens as nat,
            shortage: self.token_shortage,
            in_flight: match self.in_flight {
                Some(n) => Some(n as nat),
                None => None,
            },
            forwarded: self.forwarded@,
            granted: self.granted@,
            received: self.received@,
            delivered: self.delivered@,
        }
    }
}

impl<T: Length> Shaper<T> {
    /// The invariant: the queue within its capacity, the rate within its
    /// bounds, no more bytes forwarded than tokens granted, and no more
    /// tokens spent on the head item than its length.
    pub closed spec fn wf(&self) -> bool {
        &&& 1 <= self.queue_len
        &&& self.pending@.len() <= self.queue_len
        &&& 1 <= self.min_tokens_per_ms <= self.tokens_per_ms <= MAX_TOKENS_PER_MS
        &&& self.pending@.len() == 0 ==> self.remainder_tokens == 0
        &&& self.pending@.len() > 0 ==> self.remainder_tokens <= self.pending@[0].byte_len()
        &&& self.forwarded@ + self.send_tokens_left + self.remainder_tokens <= self.granted@
        &&& match self.in_flight {
            Some(n) => {
                &&& self.remainder_tokens == 0
                &&& n <= self.forwarded@
                &&& self.delivered@.len() > 0
                &&& n == self.delivered@.last().byte_len()
            },
            None => true,
        }
    }

    /// A shaper with room for `queue_len` items and a floor of
    /// `min_tokens_per_ms` bytes per millisecond, which is also its first
    /// rate and its first period's tokens.
    pub fn new(queue_len: usize, min_tokens_per_ms: u64) -> (r: Result<Self, ConfigError>)
        ensures
            match r {
                Ok(s) => {
                    &&& s.wf()
                    &&& fifo(s@)
                    &&& s@ == (ShaperView {
                        pending: Seq::<T>::empty(),
                        queue_len: queue_len as nat,
                        rate: min_tokens_per_ms as nat,
                        min_rate: min_tokens_per_ms as nat,
                        tokens_left: min_tokens_per_ms as nat,
                        remainder: 0,
                        shortage: false,
                        in_flight: None,
                        forwarded: 0,
                        granted: min_tokens_per_ms as nat,
                        received: Seq::<T>::empty(),
                        delivered: Seq::<T>::empty(),
                    })
                },
                Err(ConfigError::QueueCapacityZero) => queue_len == 0,
                Err(ConfigError::MinRateOutOfRange) => queue_len >= 1 && (min_tokens_per_ms == 0
                    || min_tokens_per_ms > MAX_TOKENS_PER_MS),
            },
    {
        if queue_len == 0 {
            return Err(ConfigError::QueueCapacityZero);
        }
        if min_tokens_per_ms == 0 || min_tokens_per_ms > MAX_TOKENS_PER_MS {
            return Err(ConfigError::MinRateOutOfRange);
        }
        let r = Shaper {
            pending: VecDeque::new(),
            queue_len,
            tokens_per_ms: min_tokens_per_ms,
            min_tokens_per_ms,
            send_tokens_left: min_tokens_per_ms,
            remainder_tokens: 0,
            token_shortage: false,
            in_flight: None,
            forwarded: Ghost(0),
            granted: Ghost(min_tokens_per_ms as nat),
            received: Ghost(Seq::empty()),
            delivered: Ghost(Seq::empty()),
        };
        assert(fifo(r@));
        Ok(r)
    }

    /// Adapt the rate to what the last period showed, and clear the
    /// shortage mark.
    pub fn inspect_and_correct(&mut self)
        requires
            old(self).wf(),
        ensures
            final(self).wf(),
            final(self)@ == (ShaperView {
                rate: adjusted_rate(old(self)@.rate, old(self)@.min_rate, old(self)@.shortage),
                shortage: false,
                ..old(self)@
            }),
    {
        let new_tokens_per_ms = if self.token_shortage {
            if 2 * self.tokens_per_ms + 1 > MAX_TOKENS_PER_MS {
                MAX_TOKENS_PER_MS
            } else {
                2 * self.tokens_per_ms + 1
            }
        } else if self.tokens_per_ms > self.min_tokens_per_ms {
            self.tokens_per_ms - 1
        } else {
            self.min_tokens_per_ms
        };
        self.token_shortage = false;
        self.tokens_per_ms = new_tokens_per_ms;
    }

    /// Start a new one-millisecond period: adapt the rate, then add the
    /// period's tokens to those left.
    pub fn time_tick(&mut self)
        requires
            old(self).wf(),
        ensures
            final(self).wf(),
            final(self)@ == ticked(old(self)@),
            budget_step(old(self)@, final(self)@),
            fifo(old(self)@) ==> fifo(final(self)@),
    {
        self.inspect_and_correct();
        self.send_tokens_left = self.send_tokens_left.saturating_add(self.tokens_per_ms);
        self.granted = Ghost(self.granted@ + self.tokens_per_ms as nat);
    }

    /// Bytes released never run ahead of the tokens granted (the first
    /// period's, then one period's rate at each refill), and the tokens
    /// spent on the head item never exceed its length.
    pub proof fn lemma_rate_bound(&self)
        requires
            self.wf(),
        ensures
            self@.forwarded + self@.tokens_left + self@.remainder <= self@.granted,
            self@.pending.len() == 0 ==> self@.remainder == 0,
            self@.pending.len() > 0 ==> self@.remainder <= self@.pending[0].byte_len(),
            1 <= self@.min_rate <= self@.rate <= MAX_TOKENS_PER_MS,
            self@.pending.len() <= self@.queue_len,
    {
    }

    /// Whether the queue has room for another item.
    pub fn has_room(&self) -> (r: bool)
        requires
            self.wf(),
        ensures
            r == (self@.pending.len() < self@.queue_len),
    {
        self.pending.len() < self.queue_len
    }

    /// Take an item from upstream, at the back of the queue.
    pub fn push(&mut self, item: T)
        requires
            old(self).wf(),
            old(self)@.pending.len() < old(self)@.queue_len,
        ensures
            final(self).wf(),
            final(self)@ == (ShaperView {
                pending: old(self)@.pending.push(item),
                received: old(self)@.received.push(item),
                ..old(self)@
            }),
            budget_step(old(self)@, final(self)@),
            fifo(old(self)@) ==> fifo(final(self)@),
    {
        self.pending.push_back(item);
        self.received = Ghost(self.received@.push(item));
        assert(self.delivered@ + self.pending@ =~= (old(self).delivered@ + old(self).pending@).push(item));
    }

    /// The current rate, in bytes per millisecond.
    pub fn current_rate(&self) -> (r: u64)
        ensures
            r == self@.rate,
    {
        self.tokens_per_ms
    }

    /// Number of items waiting.
    pub fn pending_len(&self) -> (r: usize)
        requires
            self.wf(),
        ensures
            r == self@.pending.len(),
    {
        self.pending.len()
    }

    /// Whether an item was released since the last shortage or refusal, so
    /// that downstream may still refuse it.
    pub fn can_refuse(&self) -> (r: bool)
        ensures
            r == self@.in_flight is Some,
    {
        self.in_flight.is_some()
    }

    /// Release the head item if the tokens at hand, with those already spent
    /// on it, pay for it. If they do not, they are all spent on it, the
    /// period is marked short, and nothing is released.
    pub fn take_ready(&mut self) -> (r: Option<T>)
        requires
            old(self).wf(),
        ensures
            final(self).wf(),
            old(self)@.pending.len() == 0 ==> r is None && final(self)@ == old(self)@,
            head_affordable(old(self)@) ==> r == Some(old(self)@.pending[0]) && final(self)@ == released(
                old(self)@,
            ),
            old(self)@.pending.len() > 0 && !head_affordable(old(self)@) ==> r is None && final(self)@
                == starved(old(self)@),
            budget_step(old(self)@, final(self)@),
            fifo(old(self)@) ==> fifo(final(self)@),
    {
        if self.pending.len() == 0 {
            return None;
        }
        let item_len = self.pending[0].len() as u64;
        if item_len - self.remainder_tokens > self.send_tokens_left {
            self.remainder_tokens = self.remainder_tokens + self.send_tokens_left;
            self.send_tokens_left = 0;
            self.token_shortage = true;
            self.in_flight = None;
            return None;
        }
        let ghost head = self.pending@[0];
        let item = match self.pending.pop_front() {
            Some(item) => item,
            None => return None,
        };
        self.send_tokens_left = self.send_tokens_left - (item_len - self.remainder_tokens);
        self.remainder_tokens = 0;
        self.forwarded = Ghost(self.forwarded@ + item_len as nat);
        self.delivered = Ghost(self.delivered@.push(head));
        self.in_flight = Some(item_len);
        assert(old(self).pending@ =~= seq![head] + self.pending@);
        assert(self.delivered@ + self.pending@ =~= old(self).delivered@ + old(self).pending@);
        Some(item)
    }

    /// Put back at the head the item last released, which downstream
    /// refused: the tokens paid for it count as spent on it again, and it
    /// no longer counts as forwarded.
    pub fn refused(&mut self, item: T)
        requires
            old(self).wf(),
            old(self)@.pending.len() < old(self)@.queue_len,
            old(self)@.in_flight is Some,
        ensures
            final(self).wf(),
            final(self)@ == refused_view(old(self)@, item),
            item.byte_len() >= old(self)@.in_flight->0 ==> final(self)@.forwarded + final(self)@.tokens_left
                + final(self)@.remainder == old(self)@.forwarded + old(self)@.tokens_left + old(
                self,
            )@.remainder,
            budget_step(old(self)@, final(self)@),
            item == old(self)@.delivered.last() ==> final(self)@.remainder == item.byte_len(),
            fifo(old(self)@) && item == old(self)@.delivered.last() ==> fifo(final(self)@),
    {
        let item_len = item.len() as u64;
        let n = match self.in_flight {
            Some(n) => n,
            None => 0,
        };
        self.remainder_tokens = if n <= item_len {
            n
        } else {
            item_len
        };
        self.forwarded = Ghost((self.forwarded@ - n) as nat);
        self.delivered = Ghost(self.delivered@.drop_last());
        self.in_flight = None;
        self.pending.push_front(item);
        assert(self.pending@ =~= seq![item] + old(self)@.pending);
        assert(fifo(old(self)@) && item == old(self)@.delivered.last() ==> self.delivered@ + self.pending@
            =~= old(self).delivered@ + old(self).pending@);
    }
}

/// Over any run of shaper states, each reached from the one before by one
/// of the shaper's operations (whose contracts give `budget_step`), the bytes
/// forwarded are at most the tokens at hand and spent on the head item at
/// the start (at most one item's worth beyond the tokens) plus the rates
/// granted by the refills in between.
pub proof fn lemma_window_bound<T>(run: Seq<ShaperView<T>>)
    requires
        run.len() >= 1,
        forall|i: int| 0 <= i < run.len() - 1 ==> budget_step(#[trigger] run[i], run[i + 1]),
    ensures
        run.last().granted >= run[0].granted,
        run.last().forwarded + run.last().tokens_left + run.last().remainder <= run[0].forwarded
            + run[0].tokens_left + run[0].remainder + (run.last().granted - run[0].granted),
        run.last().forwarded <= run[0].forwarded + run[0].tokens_left + run[0].remainder + (
        run.last().granted - run[0].granted),
    decreases run.len(),
{
    if run.len() > 1 {
        let r = run.drop_last();
        assert forall|i: int| 0 <= i < r.len() - 1 implies budget_step(#[trigger] r[i], r[i + 1]) by {
            assert(r[i] == run[i] && r[i + 1] == run[i + 1]);
        }
        lemma_window_bound(r);
        let a = run[0];
        let b = run[run.len() - 2];
        let c = run[run.len() - 1];
        assert(r[0] == a && r.last() == b);
        assert(budget_step(b, c));
        assert(a.granted <= b.granted <= c.granted);
        assert(run.last() == c);
    }
}

/// Periods with a downstream that never refuses and no new item at the
/// head: each is a refill, then the head item is released or all tokens at
/// hand go to it. Once the head is affordable the state is kept as it is.
pub open spec fn periods<T: Length>(v: ShaperView<T>, k: nat) -> ShaperView<T>
    decreases k,
{
    if k == 0 {
        v
    } else {
        let w = periods(v, (k - 1) as nat);
        if head_affordable(ticked(w)) {
            w
        } else {
            starved(ticked(w))
        }
    }
}

proof fn lemma_periods_progress<T: Length>(v: ShaperView<T>, k: nat)
    requires
        1 <= v.min_rate <= v.rate <= MAX_TOKENS_PER_MS,
        v.pending.len() > 0,
    ensures
        periods(v, k).pending == v.pending,
        periods(v, k).min_rate == v.min_rate,
        periods(v, k).min_rate <= periods(v, k).rate <= MAX_TOKENS_PER_MS,
        head_affordable(ticked(periods(v, k))) || periods(v, k).remainder >= v.remainder + k * v.min_rate,
    decreases k,
{
    if k > 0 {
        lemma_periods_progress(v, (k - 1) as nat);
        let w = periods(v, (k - 1) as nat);
        if !head_affordable(ticked(w)) {
            assert(ticked(w).tokens_left >= v.min_rate);
            assert(k * v.min_rate == (k - 1) * v.min_rate + v.min_rate) by (nonlinear_arith);
        }
    }
}

/// Liveness: with a downstream that never refuses, a head item of `n` bytes
/// becomes affordable within `ceil(n / min_rate)` periods, since each period
/// adds at least the floor rate to the tokens at hand, and all of them go to
/// the head until it can be released.
pub proof fn lemma_head_released<T: Length>(v: ShaperView<T>)
    requires
        1 <= v.min_rate <= v.rate <= MAX_TOKENS_PER_MS,
        v.pending.len() > 0,
    ensures
        exists|k: nat|
            k <= (v.pending[0].byte_len() + v.min_rate - 1) / (v.min_rate as int) && #[trigger] head_affordable(
                ticked(periods(v, k)),
            ),
{
    let n = v.pending[0].byte_len();
    let m = v.min_rate;
    let k = ((n + m - 1) / (m as int)) as nat;
    assert(k * m >= n) by (nonlinear_arith)
        requires
            m >= 1,
            k == (n + m - 1) / (m as int),
    ;
    lemma_periods_progress(v, k);
    assert(head_affordable(ticked(periods(v, k))));
}

} // verus!
