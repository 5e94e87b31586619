//! Serial Peripheral Interface.
//!
//! A full-duplex bit-banging SPI controller built from a data-in pin
//! (MISO), a data-out pin (MOSI), a clock pin (SCK) and a periodic timer
//! running at twice the desired SPI frequency: each bit costs two ticks.
//! All four clock polarity/phase modes are supported, and the transmit
//! bit order is configurable; the receive order is fixed by the protocol,
//! with the first sampled bit landing in the most significant position.

use vstd::prelude::*;
use crate::bits::{acc8, lsb8, msb8, shift_fold, shift_in};
use crate::bits::{lemma_bit_order_reversal, lemma_shift_fold_byte, lemma_shift_fold_push};
use crate::trace::{lemma_prefix_refl, lemma_prefix_trans};

verus! {

/// One observable action on the SPI lines.
#[derive(Clone, Copy, PartialEq, Eq, Structural, Debug)]
pub enum SpiEvent {
    /// The data-out line driven to a level.
    Mosi(bool),
    /// The clock line driven to a level.
    Sck(bool),
    /// The data-in line sampled at a level.
    Miso(bool),
    /// One timer period elapsed.
    Tick,
}

/// The pin and timer capabilities the SPI driver consumes: a data-in
/// pin, a data-out pin, a clock pin and a periodic timer, bundled. An
/// implementation records every action it performs in its event trace; a
/// failed action records nothing.
pub trait SpiPins {
    /// The error of the underlying digital-pin or timer capability.
    type Error;

    /// Every level driven, level sampled and tick waited so far, oldest
    /// first. Implementations that the verifier reads override this;
    /// the default, an empty trace, serves implementations outside its
    /// reach, about which nothing is claimed.
    open spec fn events(&self) -> Seq<SpiEvent> {
        Seq::empty()
    }

    /// Drive the data-out line to `level`.
    fn set_mosi(&mut self, level: bool) -> (r: Result<(), Self::Error>)
        ensures
            r is Ok ==> final(self).events() == old(self).events().push(SpiEvent::Mosi(level)),
            r is Err ==> final(self).events() == old(self).events(),
    ;

    /// Drive the clock line to `level`.
    fn set_sck(&mut self, level: bool) -> (r: Result<(), Self::Error>)
        ensures
            r is Ok ==> final(self).events() == old(self).events().push(SpiEvent::Sck(level)),
            r is Err ==> final(self).events() == old(self).events(),
    ;

    /// Sample the data-in line; true means high.
    fn miso_is_high(&mut self) -> (r: Result<bool, Self::Error>)
        ensures
            r matches Ok(b) ==> final(self).events() == old(self).events().push(SpiEvent::Miso(b)),
            r is Err ==> final(self).events() == old(self).events(),
    ;

    /// Block until the next timer tick.
    fn wait(&mut self) -> (r: Result<(), Self::Error>)
        ensures
            r is Ok ==> final(self).events() == old(self).events().push(SpiEvent::Tick),
            r is Err ==> final(self).events() == old(self).events(),
    ;
}

/// SPI errors.
#[derive(Debug)]
pub enum Error<E> {
    /// GPIO or timer error.
    Bus(E),
    /// `try_read` was called before any `try_send` completed a byte.
    NoData,
}

/// Transmit bit order.
#[derive(Clone, Copy, PartialEq, Eq, Structural, Debug)]
pub enum BitOrder {
    /// Most significant bit first.
    MSBFirst,
    /// Least significant bit first.
    LSBFirst,
}

impl Default for BitOrder {
    /// Default bit order: MSB first.
    fn default() -> (r: Self)
        ensures
            r == BitOrder::MSBFirst,
    {
        BitOrder::MSBFirst
    }
}

/// Clock polarity: the clock line's idle level.
#[derive(Clone, Copy, PartialEq, Eq, Structural, Debug)]
pub enum Polarity {
    /// The clock idles low.
    IdleLow,
    /// The clock idles high.
    IdleHigh,
}

/// Clock phase: which clock edge the data-in line is sampled on.
#[derive(Clone, Copy, PartialEq, Eq, Structural, Debug)]
pub enum Phase {
    /// Sample on the leading (first) clock edge of each bit.
    SampleLeading,
    /// Sample on the trailing (second) clock edge of each bit.
    SampleTrailing,
}

/// One of the four standard SPI clock modes, as a polarity and a phase.
#[derive(Clone, Copy, PartialEq, Eq, Structural, Debug)]
pub struct SpiMode {
    /// The clock's idle level.
    pub polarity: Polarity,
    /// The sampling edge.
    pub phase: Phase,
}

/// The clock level a polarity idles at.
pub open spec fn idle_level(p: Polarity) -> bool {
    p is IdleHigh
}

/// The bit sequence a byte is transmitted as under a bit order.
pub open spec fn tx_bits(byte: u8, order: BitOrder) -> Seq<bool> {
    match order {
        BitOrder::MSBFirst => msb8(byte),
        BitOrder::LSBFirst => lsb8(byte),
    }
}

/// The five events that clock one bit across after the data-out line is
/// set, in the fixed order the mode prescribes; `s` is the level sampled
/// from the data-in line.
pub open spec fn spi_clock_evs(mode: SpiMode, s: bool) -> Seq<SpiEvent> {
    match (mode.polarity, mode.phase) {
        (Polarity::IdleLow, Phase::SampleLeading) => seq![
            SpiEvent::Tick,
            SpiEvent::Sck(true),
            SpiEvent::Miso(s),
            SpiEvent::Tick,
            SpiEvent::Sck(false),
        ],
        (Polarity::IdleLow, Phase::SampleTrailing) => seq![
            SpiEvent::Sck(true),
            SpiEvent::Tick,
            SpiEvent::Miso(s),
            SpiEvent::Sck(false),
            SpiEvent::Tick,
        ],
        (Polarity::IdleHigh, Phase::SampleLeading) => seq![
            SpiEvent::Tick,
            SpiEvent::Sck(false),
            SpiEvent::Miso(s),
            SpiEvent::Tick,
            SpiEvent::Sck(true),
        ],
        (Polarity::IdleHigh, Phase::SampleTrailing) => seq![
            SpiEvent::Sck(false),
            SpiEvent::Tick,
            SpiEvent::Miso(s),
            SpiEvent::Sck(true),
            SpiEvent::Tick,
        ],
    }
}

/// The six events that transfer one bit: data out to `b`, then the
/// mode's clock-and-sample sequence with `s` the sampled level.
pub open spec fn spi_bit_evs(mode: SpiMode, b: bool, s: bool) -> Seq<SpiEvent> {
    seq![SpiEvent::Mosi(b)] + spi_clock_evs(mode, s)
}

/// The events that transfer each bit of `bits`, sampling `samples` in
/// step, stopping at the shorter sequence.
pub open spec fn spi_bits_evs(mode: SpiMode, bits: Seq<bool>, samples: Seq<bool>) -> Seq<SpiEvent>
    recommends
        bits.len() == samples.len(),
    decreases bits.len(),
{
    if bits.len() == 0 || samples.len() == 0 {
        Seq::empty()
    } else {
        spi_bit_evs(mode, bits[0], samples[0]) + spi_bits_evs(
            mode,
            bits.drop_first(),
            samples.drop_first(),
        )
    }
}

/// The stored received byte, or zero before any byte was received.
pub open spec fn stored_or_zero(v: Option<u8>) -> u8 {
    match v {
        Some(x) => x,
        None => 0,
    }
}

/// Appending one bit and its sample to a transfer appends that bit's six
/// events.
proof fn lemma_spi_bits_evs_push(
    mode: SpiMode,
    bits: Seq<bool>,
    samples: Seq<bool>,
    b: bool,
    s: bool,
)
    requires
        bits.len() == samples.len(),
    ensures
        spi_bits_evs(mode, bits.push(b), samples.push(s)) == spi_bits_evs(mode, bits, samples)
            + spi_bit_evs(mode, b, s),
    decreases bits.len(),
{
    if bits.len() == 0 {
        let tb = bits.push(b);
        let ts = samples.push(s);
        assert(tb[0] == b);
        assert(ts[0] == s);
        assert(tb.drop_first() =~= Seq::<bool>::empty());
        assert(ts.drop_first() =~= Seq::<bool>::empty());
        assert(spi_bits_evs(mode, tb.drop_first(), ts.drop_first()) == Seq::<SpiEvent>::empty());
        assert(spi_bits_evs(mode, tb, ts) == spi_bit_evs(mode, b, s) + spi_bits_evs(
            mode,
            tb.drop_first(),
            ts.drop_first(),
        ));
        assert(spi_bits_evs(mode, bits, samples) == Seq::<SpiEvent>::empty());
        assert(spi_bits_evs(mode, tb, ts) =~= spi_bits_evs(mode, bits, samples) + spi_bit_evs(
            mode,
            b,
            s,
        ));
    } else {
        lemma_spi_bits_evs_push(mode, bits.drop_first(), samples.drop_first(), b, s);
        let tb = bits.push(b);
        let ts = samples.push(s);
        assert(tb[0] == bits[0]);
        assert(ts[0] == samples[0]);
        assert(tb.drop_first() =~= bits.drop_first().push(b));
        assert(ts.drop_first() =~= samples.drop_first().push(s));
        assert(spi_bit_evs(mode, bits[0], samples[0]) + (spi_bits_evs(
            mode,
            bits.drop_first(),
            samples.drop_first(),
        ) + spi_bit_evs(mode, b, s)) =~= (spi_bit_evs(mode, bits[0], samples[0]) + spi_bits_evs(
            mode,
            bits.drop_first(),
            samples.drop_first(),
        )) + spi_bit_evs(mode, b, s));
    }
}

/// A full-duplex SPI controller; needs a timer running at twice the
/// desired SPI frequency.
pub struct SPI<P> {
    /// The clock mode, fixed at construction.
    pub mode: SpiMode,
    /// The pin and timer bundle this driver exclusively owns.
    pub pins: P,
    /// The most recently completed received byte, if any.
    pub read_val: Option<u8>,
    /// The transmit bit order; mutable after construction.
    pub bit_order: BitOrder,
}

impl<P: SpiPins> SPI<P> {
    /// Every action this driver has performed on its lines, oldest first.
    pub open spec fn events(&self) -> Seq<SpiEvent> {
        self.pins.events()
    }

    /// Create new instance. The clock line is driven to the mode's idle
    /// level immediately — a function of the polarity alone, so two
    /// drivers constructed with the same polarity start their clock at
    /// the same level; a failure to drive it is ignored. No byte has been
    /// received yet, and the bit order starts at its default, MSB first.
    pub fn new(mode: SpiMode, pins: P) -> (r: Self)
        ensures
            r.mode == mode,
            r.read_val is None,
            r.bit_order == BitOrder::MSBFirst,
            r.events() == pins.events().push(SpiEvent::Sck(idle_level(mode.polarity)))
                || r.events() == pins.events(),
    {
        let mut spi = SPI { mode, pins, read_val: None, bit_order: BitOrder::default() };
        let level = match mode.polarity {
            Polarity::IdleLow => false,
            Polarity::IdleHigh => true,
        };
        match spi.pins.set_sck(level) {
            Ok(()) => {},
            Err(_) => {},
        }
        spi
    }

    /// Set the transmit bit order; nothing else changes.
    pub fn set_bit_order(&mut self, order: BitOrder)
        ensures
            final(self).bit_order == order,
            final(self).mode == old(self).mode,
            final(self).read_val == old(self).read_val,
            final(self).events() == old(self).events(),
    {
        self.bit_order = order;
    }

    /// Sample the data-in line once and shift the sampled bit into the
    /// receive register from the least significant end.
    fn read_bit(&mut self) -> (r: Result<(), Error<P::Error>>)
        ensures
            final(self).mode == old(self).mode,
            final(self).bit_order == old(self).bit_order,
            r is Ok ==> exists|b: bool|
                final(self).events() == old(self).events().push(SpiEvent::Miso(b))
                    && final(self).read_val == Some(
                    shift_in(stored_or_zero(old(self).read_val), b),
                ),
            r is Err ==> final(self).events() == old(self).events()
                && final(self).read_val == old(self).read_val,
    {
        let sampled;
        match self.pins.miso_is_high() {
            Ok(b) => {
                sampled = b;
            },
            Err(e) => {
                return Err(Error::Bus(e));
            },
        }
        let held: u8 = match self.read_val {
            Some(v) => v,
            None => 0,
        };
        let add: u8 = if sampled {
            1
        } else {
            0
        };
        self.read_val = Some((held << 1) | add);
        proof {
            assert(self.events() == old(self).events().push(SpiEvent::Miso(sampled))
                && self.read_val == Some(
                shift_in(stored_or_zero(old(self).read_val), sampled),
            ));
        }
        Ok(())
    }

    /// After the data-out line is set for a bit, run the mode's fixed
    /// clock-transition / sample / wait sequence for that bit.
    fn clock_and_sample(&mut self) -> (r: Result<(), Error<P::Error>>)
        ensures
            final(self).mode == old(self).mode,
            final(self).bit_order == old(self).bit_order,
            r is Ok ==> exists|b: bool|
                final(self).events() == old(self).events() + spi_clock_evs(old(self).mode, b)
                    && final(self).read_val == Some(
                    shift_in(stored_or_zero(old(self).read_val), b),
                ),
            r is Err ==> old(self).events().is_prefix_of(final(self).events()),
    {
        let ghost pre = self.events();
        let idle = match self.mode.polarity {
            Polarity::IdleLow => false,
            Polarity::IdleHigh => true,
        };
        let leading = match self.mode.phase {
            Phase::SampleLeading => true,
            Phase::SampleTrailing => false,
        };
        if leading {
            match self.pins.wait() {
                Ok(()) => {},
                Err(e) => {
                    proof {
                        lemma_prefix_refl(pre);
                    }
                    return Err(Error::Bus(e));
                },
            }
            match self.pins.set_sck(!idle) {
                Ok(()) => {},
                Err(e) => {
                    proof {
                        assert(pre =~= self.events().subrange(0, pre.len() as int));
                    }
                    return Err(Error::Bus(e));
                },
            }
            let ghost before_rb = self.events();
            match self.read_bit() {
                Ok(()) => {},
                Err(e) => {
                    proof {
                        assert(pre =~= self.events().subrange(0, pre.len() as int));
                    }
                    return Err(e);
                },
            }
            let ghost after_rb = self.events();
            let ghost rv_after = self.read_val;
            match self.pins.wait() {
                Ok(()) => {},
                Err(e) => {
                    proof {
                        assert(pre =~= self.events().subrange(0, pre.len() as int));
                    }
                    return Err(Error::Bus(e));
                },
            }
            match self.pins.set_sck(idle) {
                Ok(()) => {},
                Err(e) => {
                    proof {
                        assert(pre =~= self.events().subrange(0, pre.len() as int));
                    }
                    return Err(Error::Bus(e));
                },
            }
            proof {
                let b = choose|b: bool|
                    after_rb == before_rb.push(SpiEvent::Miso(b)) && rv_after == Some(
                        shift_in(stored_or_zero(old(self).read_val), b),
                    );
                assert(self.events() =~= pre + spi_clock_evs(old(self).mode, b));
            }
            Ok(())
        } else {
            match self.pins.set_sck(!idle) {
                Ok(()) => {},
                Err(e) => {
                    proof {
                        lemma_prefix_refl(pre);
                    }
                    return Err(Error::Bus(e));
                },
            }
            match self.pins.wait() {
                Ok(()) => {},
                Err(e) => {
                    proof {
                        assert(pre =~= self.events().subrange(0, pre.len() as int));
                    }
                    return Err(Error::Bus(e));
                },
            }
            let ghost before_rb = self.events();
            match self.read_bit() {
                Ok(()) => {},
                Err(e) => {
                    proof {
                        assert(pre =~= self.events().subrange(0, pre.len() as int));
                    }
                    return Err(e);
                },
            }
            let ghost after_rb = self.events();
            let ghost rv_after = self.read_val;
            match self.pins.set_sck(idle) {
                Ok(()) => {},
                Err(e) => {
                    proof {
                        assert(pre =~= self.events().subrange(0, pre.len() as int));
                    }
                    return Err(Error::Bus(e));
                },
            }
            match self.pins.wait() {
                Ok(()) => {},
                Err(e) => {
                    proof {
                        assert(pre =~= self.events().subrange(0, pre.len() as int));
                    }
                    return Err(Error::Bus(e));
                },
            }
            proof {
                let b = choose|b: bool|
                    after_rb == before_rb.push(SpiEvent::Miso(b)) && rv_after == Some(
                        shift_in(stored_or_zero(old(self).read_val), b),
                    );
                assert(self.events() =~= pre + spi_clock_evs(old(self).mode, b));
            }
            Ok(())
        }
    }

    /// Transmit one byte under the configured bit order while sampling
    /// one received byte into the receive register, one data-in sample
    /// per transmitted bit. After success the register holds exactly the
    /// byte formed from the 8 samples, first sample in the most
    /// significant position — whatever it held before, and independent of
    /// the transmit bit order. A pin or timer failure is returned at
    /// once, leaving the transfer partially complete.
    pub fn try_send(&mut self, byte: u8) -> (r: Result<(), Error<P::Error>>)
        ensures
            final(self).mode == old(self).mode,
            final(self).bit_order == old(self).bit_order,
            r is Ok ==> exists|samples: Seq<bool>|
                samples.len() == 8 && final(self).events() == old(self).events() + spi_bits_evs(
                    old(self).mode,
                    tx_bits(byte, old(self).bit_order),
                    samples,
                ) && final(self).read_val == Some(acc8(samples)),
            r is Err ==> old(self).events().is_prefix_of(final(self).events()),
    {
        let ghost pre = self.events();
        let ghost txb = tx_bits(byte, self.bit_order);
        let ghost v0 = stored_or_zero(self.read_val);
        let ghost mut samples: Seq<bool> = Seq::empty();
        let mut i: u8 = 0;
        proof {
            assert(txb.take(0) =~= Seq::<bool>::empty());
            assert(spi_bits_evs(self.mode, txb.take(0), samples) == Seq::<SpiEvent>::empty());
            assert(self.events() =~= pre + spi_bits_evs(self.mode, txb.take(0), samples));
        }
        while i < 8
            invariant
                i <= 8,
                samples.len() == i as nat,
                txb == tx_bits(byte, old(self).bit_order),
                v0 == stored_or_zero(old(self).read_val),
                self.mode == old(self).mode,
                self.bit_order == old(self).bit_order,
                pre == old(self).events(),
                self.events() == pre + spi_bits_evs(
                    old(self).mode,
                    txb.take(i as int),
                    samples,
                ),
                i == 0 ==> self.read_val == old(self).read_val,
                i > 0 ==> self.read_val == Some(shift_fold(v0, samples)),
            decreases 8 - i,
        {
            let out_bit = match self.bit_order {
                BitOrder::MSBFirst => ((byte >> (7 - i)) & 1) == 1,
                BitOrder::LSBFirst => ((byte >> i) & 1) == 1,
            };
            proof {
                assert(out_bit == txb[i as int]);
            }
            let ghost before = self.events();
            match self.pins.set_mosi(out_bit) {
                Ok(()) => {},
                Err(e) => {
                    proof {
                        assert(pre =~= self.events().subrange(0, pre.len() as int));
                    }
                    return Err(Error::Bus(e));
                },
            }
            let ghost rv_before = self.read_val;
            match self.clock_and_sample() {
                Ok(()) => {},
                Err(e) => {
                    proof {
                        assert(pre.is_prefix_of(before.push(SpiEvent::Mosi(out_bit)))) by {
                            assert(pre =~= before.push(SpiEvent::Mosi(out_bit)).subrange(
                                0,
                                pre.len() as int,
                            ));
                        }
                        lemma_prefix_trans(
                            pre,
                            before.push(SpiEvent::Mosi(out_bit)),
                            self.events(),
                        );
                    }
                    return Err(e);
                },
            }
            proof {
                let b = choose|b: bool|
                    self.events() == before.push(SpiEvent::Mosi(out_bit)) + spi_clock_evs(
                        old(self).mode,
                        b,
                    ) && self.read_val == Some(shift_in(stored_or_zero(rv_before), b));
                let t = txb.take(i as int);
                lemma_spi_bits_evs_push(old(self).mode, t, samples, out_bit, b);
                assert(txb.take(i as int + 1) =~= t.push(txb[i as int]));
                assert(before.push(SpiEvent::Mosi(out_bit)) + spi_clock_evs(old(self).mode, b)
                    =~= before + spi_bit_evs(old(self).mode, out_bit, b));
                assert(pre + spi_bits_evs(old(self).mode, txb.take(i as int + 1), samples.push(b))
                    =~= (pre + spi_bits_evs(old(self).mode, t, samples)) + spi_bit_evs(
                    old(self).mode,
                    out_bit,
                    b,
                ));
                if i == 0 {
                    assert(samples.push(b) =~= Seq::<bool>::empty().push(b));
                    assert(shift_fold(v0, Seq::<bool>::empty()) == v0);
                    lemma_shift_fold_push(v0, samples, b);
                } else {
                    lemma_shift_fold_push(v0, samples, b);
                }
                samples = samples.push(b);
            }
            i = i + 1;
        }
        proof {
            assert(txb.take(8) =~= txb);
            lemma_shift_fold_byte(v0, samples);
            assert(samples.len() == 8 && self.events() == old(self).events() + spi_bits_evs(
                old(self).mode,
                tx_bits(byte, old(self).bit_order),
                samples,
            ) && self.read_val == Some(acc8(samples)));
        }
        Ok(())
    }

    /// Return the most recently received byte; `NoData` if and only if no
    /// `try_send` has completed yet. The driver is left unchanged.
    pub fn try_read(&mut self) -> (r: Result<u8, Error<P::Error>>)
        ensures
            *final(self) == *old(self),
            old(self).read_val matches Some(v) ==> r == Ok::<u8, Error<P::Error>>(v),
            old(self).read_val is None ==> r matches Err(Error::NoData),
    {
        match self.read_val {
            Some(v) => Ok(v),
            None => Err(Error::NoData),
        }
    }
}

/// Bit-order law: for any byte, the LSB-first transmit sequence is the
/// exact bit-reversal of the MSB-first one.
pub proof fn lemma_tx_bit_order_reversal(byte: u8)
    ensures
        tx_bits(byte, BitOrder::LSBFirst) == tx_bits(byte, BitOrder::MSBFirst).reverse(),
{
    lemma_bit_order_reversal(byte);
}

/// The initial clock level an SPI driver drives at construction is a
/// function of the configured polarity alone: two drivers constructed
/// with the same polarity start their clock at the same level.
pub proof fn lemma_initial_clock_deterministic(m1: SpiMode, m2: SpiMode)
    requires
        m1.polarity == m2.polarity,
    ensures
        idle_level(m1.polarity) == idle_level(m2.polarity),
{
}

} // verus!
