//! The encoder's counters: every decision it takes is an event, and the
//! statistics count the events.
use vstd::prelude::*;

verus! {

/// A decision of the encoder.
#[derive(Debug, Clone, Copy, PartialEq, Eq)]
pub enum Event {
    /// A frame was written.
    Frame,
    /// A CONSTANT subframe was written.
    Constant,
    /// A VERBATIM subframe was written.
    Verbatim,
    /// A FIXED subframe was written.
    Fixed,
    /// An LPC subframe was written.
    Lpc,
    /// A stereo frame was written with this channel assignment.
    Stereo(Assignment),
    /// Coefficients could not be quantized.
    QuantizeFailed,
    /// The recursion for the coefficients ended before the highest order.
    LevinsonExhausted,
    /// The second window gave the better predictor.
    SecondWindowWon,
    /// A residual was written with this partition order.
    PartitionOrder(u32),
    /// A FIXED subframe was written with this predictor order.
    FixedOrder(u32),
    /// A subframe was written with its trailing zero bits shifted out.
    WastedBits,
}

/// The four ways of coding a stereo pair.
#[derive(Debug, Clone, Copy, PartialEq, Eq)]
pub enum Assignment {
    Independent,
    LeftSide,
    RightSide,
    MidSide,
}

/// How often an event occurs in a history.
pub open spec fn count(history: Seq<Event>, e: Event) -> nat
    decreases history.len(),
{
    if history.len() == 0 {
        0
    } else {
        count(history.drop_last(), e) + (if history.last() == e {
            1nat
        } else {
            0nat
        })
    }
}

/// Counts with a history added to them.
pub open spec fn tallied(counts: spec_fn(Event) -> nat, history: Seq<Event>) -> spec_fn(
    Event,
) -> nat {
    |e: Event| counts(e) + count(history, e)
}

/// The counts before anything happened.
pub open spec fn none() -> spec_fn(Event) -> nat {
    |e: Event| 0nat
}

/// Wiring-audit counters: every decision path in the encoder counts what it
/// chose, so a corpus run can prove no path is silently dead and no fallback
/// is silently hot.
#[derive(Debug, Clone)]
pub struct EncodeStats {
    pub frames: u64,
    /// Chosen subframe kinds, over all written subframes.
    pub sub_constant: u64,
    pub sub_verbatim: u64,
    pub sub_fixed: u64,
    pub sub_lpc: u64,
    /// Stereo channel assignments chosen (stereo streams only).
    pub stereo_independent: u64,
    pub stereo_left_side: u64,
    pub stereo_right_side: u64,
    pub stereo_mid_side: u64,
    /// LPC machinery health.
    pub lpc_quantize_failed: u64,
    pub lpc_levinson_exhausted: u64,
    pub lpc_window_second_won: u64,
    /// Histogram of chosen partition orders (0..=8).
    pub partition_orders: [u64; 9],
    /// Fixed-predictor orders chosen (0..=4).
    pub fixed_orders: [u64; 5],
    /// Subframes that shifted out trailing zero bits (wasted-bits path).
    pub sub_wasted_bits: u64,
}

impl View for EncodeStats {
    type V = spec_fn(Event) -> nat;

    open spec fn view(&self) -> spec_fn(Event) -> nat {
        |e: Event|
            match e {
                Event::Frame => self.frames as nat,
                Event::Constant => self.sub_constant as nat,
                Event::Verbatim => self.sub_verbatim as nat,
                Event::Fixed => self.sub_fixed as nat,
                Event::Lpc => self.sub_lpc as nat,
                Event::Stereo(Assignment::Independent) => self.stereo_independent as nat,
                Event::Stereo(Assignment::LeftSide) => self.stereo_left_side as nat,
                Event::Stereo(Assignment::RightSide) => self.stereo_right_side as nat,
                Event::Stereo(Assignment::MidSide) => self.stereo_mid_side as nat,
                Event::QuantizeFailed => self.lpc_quantize_failed as nat,
                Event::LevinsonExhausted => self.lpc_levinson_exhausted as nat,
                Event::SecondWindowWon => self.lpc_window_second_won as nat,
                Event::PartitionOrder(po) => if po < 9 {
                    self.partition_orders[po as int] as nat
                } else {
                    0
                },
                Event::FixedOrder(order) => if order < 5 {
                    self.fixed_orders[order as int] as nat
                } else {
                    0
                },
                Event::WastedBits => self.sub_wasted_bits as nat,
            }
    }
}

impl Default for EncodeStats {
    fn default() -> (r: Self)
        ensures
            r@ == none(),
    {
        let r = EncodeStats {
            frames: 0,
            sub_constant: 0,
            sub_verbatim: 0,
            sub_fixed: 0,
            sub_lpc: 0,
            stereo_independent: 0,
            stereo_left_side: 0,
            stereo_right_side: 0,
            stereo_mid_side: 0,
            lpc_quantize_failed: 0,
            lpc_levinson_exhausted: 0,
            lpc_window_second_won: 0,
            partition_orders: [0u64; 9],
            fixed_orders: [0u64; 5],
            sub_wasted_bits: 0,
        };
        assert(r@ =~= none());
        r
    }
}

/// No counter overflows within the next `n` events.
pub open spec fn room(counts: spec_fn(Event) -> nat, n: int) -> bool {
    forall|e: Event| #[trigger] counts(e) + n <= u64::MAX
}

impl EncodeStats {
    /// Count one event.
    pub fn count(&mut self, e: Event)
        requires
            room(old(self)@, 1),
            e matches Event::PartitionOrder(po) ==> po < 9,
            e matches Event::FixedOrder(order) ==> order < 5,
        ensures
            final(self)@ == tallied(old(self)@, seq![e]),
    {
        let ghost before = self@;
        assert(before(e) < u64::MAX);
        match e {
            Event::Frame => {
                self.frames = self.frames + 1;
            },
            Event::Constant => {
                self.sub_constant = self.sub_constant + 1;
            },
            Event::Verbatim => {
                self.sub_verbatim = self.sub_verbatim + 1;
            },
            Event::Fixed => {
                self.sub_fixed = self.sub_fixed + 1;
            },
            Event::Lpc => {
                self.sub_lpc = self.sub_lpc + 1;
            },
            Event::Stereo(Assignment::Independent) => {
                self.stereo_independent = self.stereo_independent + 1;
            },
            Event::Stereo(Assignment::LeftSide) => {
                self.stereo_left_side = self.stereo_left_side + 1;
            },
            Event::Stereo(Assignment::RightSide) => {
                self.stereo_right_side = self.stereo_right_side + 1;
            },
            Event::Stereo(Assignment::MidSide) => {
                self.stereo_mid_side = self.stereo_mid_side + 1;
            },
            Event::QuantizeFailed => {
                self.lpc_quantize_failed = self.lpc_quantize_failed + 1;
            },
            Event::LevinsonExhausted => {
                self.lpc_levinson_exhausted = self.lpc_levinson_exhausted + 1;
            },
            Event::SecondWindowWon => {
                self.lpc_window_second_won = self.lpc_window_second_won + 1;
            },
            Event::PartitionOrder(po) => {
                self.partition_orders[po as usize] = self.partition_orders[po as usize] + 1;
            },
            Event::FixedOrder(order) => {
                self.fixed_orders[order as usize] = self.fixed_orders[order as usize] + 1;
            },
            Event::WastedBits => {
                self.sub_wasted_bits = self.sub_wasted_bits + 1;
            },
        }
        proof {
            let one = seq![e];
            assert(one.drop_last() =~= Seq::<Event>::empty());
            assert forall|x: Event| #[trigger] count(one, x) == (if x == e {
                1nat
            } else {
                0nat
            }) by {
                assert(count(one.drop_last(), x) == 0);
            }
            assert(self@ =~= tallied(before, one));
        }
    }
}

pub proof fn lemma_count_concat(a: Seq<Event>, b: Seq<Event>, e: Event)
    ensures
        count(a + b, e) == count(a, e) + count(b, e),
    decreases b.len(),
{
    if b.len() == 0 {
        assert(a + b =~= a);
    } else {
        lemma_count_concat(a, b.drop_last(), e);
        assert((a + b).drop_last() =~= a + b.drop_last());
    }
}

/// An event occurs no more often than there are events.
pub proof fn lemma_count_bound(history: Seq<Event>, e: Event)
    ensures
        count(history, e) <= history.len(),
    decreases history.len(),
{
    if history.len() > 0 {
        lemma_count_bound(history.drop_last(), e);
    }
}

/// Counting one history and then another counts both.
pub proof fn lemma_tallied_concat(counts: spec_fn(Event) -> nat, a: Seq<Event>, b: Seq<Event>)
    ensures
        tallied(tallied(counts, a), b) == tallied(counts, a + b),
{
    assert forall|e: Event| #[trigger]
        tallied(tallied(counts, a), b)(e) == tallied(counts, a + b)(e) by {
        lemma_count_concat(a, b, e);
    }
    assert(tallied(tallied(counts, a), b) =~= tallied(counts, a + b));
}

pub proof fn lemma_tallied_empty(counts: spec_fn(Event) -> nat)
    ensures
        tallied(counts, Seq::empty()) == counts,
{
    assert(tallied(counts, Seq::empty()) =~= counts);
}

/// Every event takes at most one away from the room that is left.
pub proof fn lemma_room(counts: spec_fn(Event) -> nat, history: Seq<Event>, n: int)
    requires
        room(counts, n),
    ensures
        room(tallied(counts, history), n - history.len()),
{
    assert forall|e: Event| #[trigger] tallied(counts, history)(e) + (n - history.len())
        <= u64::MAX by {
        lemma_count_bound(history, e);
        assert(counts(e) + n <= u64::MAX);
    }
}

} // verus!
