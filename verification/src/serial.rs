//! Serial communication (UART-style).
//!
//! A bit-banging asynchronous serial driver built from a transmit pin, a
//! receive pin and a periodic timer; there is no clock line, so the timer
//! must run at exactly the desired bit rate. A byte is framed as one low
//! start bit, 8 data bits LSB-first and one high stop bit — ten ticks in
//! all. The receiver samples 8 bits into an accumulator that shifts left
//! and ors each new sample in, so the first-received (least significant)
//! data bit lands in the most significant position of the returned byte.

use vstd::prelude::*;
use crate::bits::{acc8, lsb8, rev8, shift_fold};
use crate::bits::{lemma_acc8_of_lsb, lemma_shift_fold_byte, lemma_shift_fold_push};
use crate::trace::{lemma_prefix_refl, lemma_prefix_trans};

verus! {

/// One observable action on the serial lines.
#[derive(Clone, Copy, PartialEq, Eq, Structural, Debug)]
pub enum SerialEvent {
    /// The transmit line driven to a level.
    Tx(bool),
    /// The receive line sampled at a level.
    Rx(bool),
    /// One timer period elapsed.
    Tick,
}

/// The pin and timer capabilities the serial driver consumes: a transmit
/// output pin, a receive input pin and a periodic timer, bundled. An
/// implementation records every action it performs in its event trace; a
/// failed action records nothing.
pub trait SerialPins {
    /// The error of the underlying digital-pin or timer capability.
    type Error;

    /// Every level driven, level sampled and tick waited so far, oldest
    /// first. Implementations that the verifier reads override this;
    /// the default, an empty trace, serves implementations outside its
    /// reach, about which nothing is claimed.
    open spec fn events(&self) -> Seq<SerialEvent> {
        Seq::empty()
    }

    /// Drive the transmit line to `level`.
    fn set_tx(&mut self, level: bool) -> (r: Result<(), Self::Error>)
        ensures
            r is Ok ==> final(self).events() == old(self).events().push(SerialEvent::Tx(level)),
            r is Err ==> final(self).events() == old(self).events(),
    ;

    /// Sample the receive line; true means high.
    fn rx_is_high(&mut self) -> (r: Result<bool, Self::Error>)
        ensures
            r matches Ok(b) ==> final(self).events() == old(self).events().push(
                SerialEvent::Rx(b),
            ),
            r is Err ==> final(self).events() == old(self).events(),
    ;

    /// Block until the next timer tick.
    fn wait(&mut self) -> (r: Result<(), Self::Error>)
        ensures
            r is Ok ==> final(self).events() == old(self).events().push(SerialEvent::Tick),
            r is Err ==> final(self).events() == old(self).events(),
    ;
}

/// Serial errors.
#[derive(Debug)]
pub enum Error<E> {
    /// GPIO or timer error.
    Bus(E),
    /// No start condition is present: the receive line read high. A
    /// blocking read is a retry loop around `try_read`; no termination
    /// argument exists for such a spin (the peer may never transmit), so
    /// the driver reports the idle line instead of spinning internally.
    WouldBlock,
}

/// The two events that put one level on the wire for one bit period:
/// drive the transmit line, wait one tick.
pub open spec fn write_bit_evs(b: bool) -> Seq<SerialEvent> {
    seq![SerialEvent::Tx(b), SerialEvent::Tick]
}

/// The events that put each level of `bits` on the wire, in order.
pub open spec fn write_bits_evs(bits: Seq<bool>) -> Seq<SerialEvent>
    decreases bits.len(),
{
    if bits.len() == 0 {
        Seq::empty()
    } else {
        write_bit_evs(bits[0]) + write_bits_evs(bits.drop_first())
    }
}

/// The events of writing one byte: a low start bit, the 8 data bits
/// LSB-first, and a high stop bit, each held for one tick.
pub open spec fn write_frame_evs(byte: u8) -> Seq<SerialEvent> {
    write_bit_evs(false) + write_bits_evs(lsb8(byte)) + write_bit_evs(true)
}

/// The two events that take one sample: read the receive line, wait one
/// tick.
pub open spec fn read_bit_evs(b: bool) -> Seq<SerialEvent> {
    seq![SerialEvent::Rx(b), SerialEvent::Tick]
}

/// The events that take each sample of `samples`, in order.
pub open spec fn read_bits_evs(samples: Seq<bool>) -> Seq<SerialEvent>
    decreases samples.len(),
{
    if samples.len() == 0 {
        Seq::empty()
    } else {
        read_bit_evs(samples[0]) + read_bits_evs(samples.drop_first())
    }
}

/// The events of reading one byte once the start condition is seen: the
/// low start-bit sample and a tick past it, the 8 data samples each
/// followed by a tick, and one final tick past the stop bit.
pub open spec fn read_frame_evs(samples: Seq<bool>) -> Seq<SerialEvent>
    recommends
        samples.len() == 8,
{
    seq![SerialEvent::Rx(false), SerialEvent::Tick] + read_bits_evs(samples) + seq![
        SerialEvent::Tick,
    ]
}

/// Appending one bit to a write appends that bit's two events.
proof fn lemma_write_bits_evs_push(bits: Seq<bool>, b: bool)
    ensures
        write_bits_evs(bits.push(b)) == write_bits_evs(bits) + write_bit_evs(b),
    decreases bits.len(),
{
    if bits.len() == 0 {
        let s = bits.push(b);
        assert(s[0] == b);
        assert(s.drop_first() =~= Seq::<bool>::empty());
        assert(write_bits_evs(s.drop_first()) == Seq::<SerialEvent>::empty());
        assert(write_bits_evs(s) == write_bit_evs(b) + write_bits_evs(s.drop_first()));
        assert(write_bits_evs(bits) == Seq::<SerialEvent>::empty());
        assert(write_bits_evs(s) =~= write_bits_evs(bits) + write_bit_evs(b));
    } else {
        lemma_write_bits_evs_push(bits.drop_first(), b);
        let s = bits.push(b);
        assert(s[0] == bits[0]);
        assert(s.drop_first() =~= bits.drop_first().push(b));
        assert(write_bit_evs(bits[0]) + (write_bits_evs(bits.drop_first()) + write_bit_evs(b)) =~= (
        write_bit_evs(bits[0]) + write_bits_evs(bits.drop_first())) + write_bit_evs(b));
    }
}

/// Appending one sample to a read appends that sample's two events.
proof fn lemma_read_bits_evs_push(samples: Seq<bool>, b: bool)
    ensures
        read_bits_evs(samples.push(b)) == read_bits_evs(samples) + read_bit_evs(b),
    decreases samples.len(),
{
    if samples.len() == 0 {
        let s = samples.push(b);
        assert(s[0] == b);
        assert(s.drop_first() =~= Seq::<bool>::empty());
        assert(read_bits_evs(s.drop_first()) == Seq::<SerialEvent>::empty());
        assert(read_bits_evs(s) == read_bit_evs(b) + read_bits_evs(s.drop_first()));
        assert(read_bits_evs(samples) == Seq::<SerialEvent>::empty());
        assert(read_bits_evs(s) =~= read_bits_evs(samples) + read_bit_evs(b));
    } else {
        lemma_read_bits_evs_push(samples.drop_first(), b);
        let s = samples.push(b);
        assert(s[0] == samples[0]);
        assert(s.drop_first() =~= samples.drop_first().push(b));
        assert(read_bit_evs(samples[0]) + (read_bits_evs(samples.drop_first()) + read_bit_evs(b))
            =~= (read_bit_evs(samples[0]) + read_bits_evs(samples.drop_first())) + read_bit_evs(
            b,
        ));
    }
}

/// Bit banging serial communication (USART) device.
pub struct Serial<P> {
    /// The pin and timer bundle this driver exclusively owns.
    pub pins: P,
}

impl<P: SerialPins> Serial<P> {
    /// Every action this driver has performed on its lines, oldest first.
    pub open spec fn events(&self) -> Seq<SerialEvent> {
        self.pins.events()
    }

    /// Create new instance.
    pub fn new(pins: P) -> (r: Self)
        ensures
            r.events() == pins.events(),
    {
        Serial { pins }
    }

    /// Hold the transmit line at `level` for one bit period: drive it,
    /// then wait one tick. A pin or timer failure is returned at once.
    fn write_level(&mut self, level: bool) -> (r: Result<(), Error<P::Error>>)
        ensures
            r is Ok ==> final(self).events() == old(self).events() + write_bit_evs(level),
            r is Err ==> old(self).events().is_prefix_of(final(self).events()),
    {
        let ghost pre = self.events();
        match self.pins.set_tx(level) {
            Ok(()) => {},
            Err(e) => {
                proof {
                    lemma_prefix_refl(pre);
                }
                return Err(Error::Bus(e));
            },
        }
        match self.pins.wait() {
            Ok(()) => {},
            Err(e) => {
                proof {
                    assert(pre =~= self.events().subrange(0, pre.len() as int));
                }
                return Err(Error::Bus(e));
            },
        }
        proof {
            assert(self.events() =~= pre + write_bit_evs(level));
        }
        Ok(())
    }

    /// Write one byte: a low start bit, the 8 data bits LSB-first, and a
    /// high stop bit, each held for one tick — ten ticks in all. A pin or
    /// timer failure is returned at once, leaving the frame partially
    /// emitted.
    pub fn try_write(&mut self, byte: u8) -> (r: Result<(), Error<P::Error>>)
        ensures
            r is Ok ==> final(self).events() == old(self).events() + write_frame_evs(byte),
            r is Err ==> old(self).events().is_prefix_of(final(self).events()),
    {
        let ghost pre = self.events();
        match self.write_level(false) {
            Ok(()) => {},
            Err(e) => {
                return Err(e);
            },
        }
        let ghost start = self.events();
        let ghost bits = lsb8(byte);
        let mut i: u8 = 0;
        proof {
            assert(bits.take(0) =~= Seq::<bool>::empty());
            assert(write_bits_evs(bits.take(0)) == Seq::<SerialEvent>::empty());
            assert(self.events() =~= start + write_bits_evs(bits.take(0)));
        }
        while i < 8
            invariant
                i <= 8,
                bits == lsb8(byte),
                pre == old(self).events(),
                start == pre + write_bit_evs(false),
                self.events() == start + write_bits_evs(bits.take(i as int)),
            decreases 8 - i,
        {
            let bit = ((byte >> i) & 1) == 1;
            proof {
                assert(bit == bits[i as int]);
            }
            let ghost mid = self.events();
            match self.write_level(bit) {
                Ok(()) => {},
                Err(e) => {
                    proof {
                        assert(pre.is_prefix_of(mid)) by {
                            assert(pre =~= mid.subrange(0, pre.len() as int));
                        }
                        lemma_prefix_trans(pre, mid, self.events());
                    }
                    return Err(e);
                },
            }
            proof {
                let t = bits.take(i as int);
                lemma_write_bits_evs_push(t, bit);
                assert(bits.take(i as int + 1) =~= t.push(bits[i as int]));
                assert(start + write_bits_evs(bits.take(i as int + 1)) =~= (start
                    + write_bits_evs(t)) + write_bit_evs(bit));
            }
            i = i + 1;
        }
        let ghost mid = self.events();
        match self.write_level(true) {
            Ok(()) => {},
            Err(e) => {
                proof {
                    assert(pre.is_prefix_of(mid)) by {
                        assert(pre =~= mid.subrange(0, pre.len() as int));
                    }
                    lemma_prefix_trans(pre, mid, self.events());
                }
                return Err(e);
            },
        }
        proof {
            assert(bits.take(8) =~= bits);
            assert(self.events() =~= pre + write_frame_evs(byte));
        }
        Ok(())
    }

    /// Nothing is buffered, so there is never anything left to flush.
    pub fn try_flush(&mut self) -> (r: Result<(), Error<P::Error>>)
        ensures
            r is Ok,
            final(self).events() == old(self).events(),
    {
        Ok(())
    }

    /// Read one byte if a start condition is present. The receive line is
    /// sampled once: high means the line is idle and `WouldBlock` is
    /// returned — a blocking read, which may then wait forever for a peer
    /// that never transmits, is a retry loop around this call. On a low
    /// sample (the start bit) the driver waits one tick past the start
    /// bit, samples 8 data bits one tick apart, and waits one final tick
    /// past the stop bit. The returned byte holds the first-received
    /// sample in its most significant bit. No start- or stop-bit validity
    /// check is performed. A pin or timer failure is returned at once.
    pub fn try_read(&mut self) -> (r: Result<u8, Error<P::Error>>)
        ensures
            r matches Ok(v) ==> exists|s: Seq<bool>|
                s.len() == 8 && final(self).events() == old(self).events() + read_frame_evs(s)
                    && v == acc8(s),
            r matches Err(Error::WouldBlock) ==> final(self).events() == old(self).events().push(
                SerialEvent::Rx(true),
            ),
            r is Err ==> old(self).events().is_prefix_of(final(self).events()),
    {
        let ghost pre = self.events();
        // look for the start bit
        match self.pins.rx_is_high() {
            Ok(true) => {
                proof {
                    assert(pre =~= self.events().subrange(0, pre.len() as int));
                }
                return Err(Error::WouldBlock);
            },
            Ok(false) => {},
            Err(e) => {
                proof {
                    lemma_prefix_refl(pre);
                }
                return Err(Error::Bus(e));
            },
        }
        // skip past the start bit
        match self.pins.wait() {
            Ok(()) => {},
            Err(e) => {
                proof {
                    assert(pre =~= self.events().subrange(0, pre.len() as int));
                }
                return Err(Error::Bus(e));
            },
        }
        let ghost start = self.events();
        let ghost mut s: Seq<bool> = Seq::empty();
        let mut data_in: u8 = 0;
        let mut i: u8 = 0;
        proof {
            assert(read_bits_evs(s) == Seq::<SerialEvent>::empty());
            assert(self.events() =~= start + read_bits_evs(s));
        }
        while i < 8
            invariant
                i <= 8,
                s.len() == i as nat,
                pre == old(self).events(),
                start == pre + seq![SerialEvent::Rx(false), SerialEvent::Tick],
                self.events() == start + read_bits_evs(s),
                data_in == shift_fold(0, s),
            decreases 8 - i,
        {
            let bit;
            match self.pins.rx_is_high() {
                Ok(b) => {
                    bit = b;
                },
                Err(e) => {
                    proof {
                        assert(pre =~= self.events().subrange(0, pre.len() as int));
                    }
                    return Err(Error::Bus(e));
                },
            }
            match self.pins.wait() {
                Ok(()) => {},
                Err(e) => {
                    proof {
                        assert(pre =~= self.events().subrange(0, pre.len() as int));
                    }
                    return Err(Error::Bus(e));
                },
            }
            let add: u8 = if bit {
                1
            } else {
                0
            };
            data_in = (data_in << 1) | add;
            proof {
                lemma_read_bits_evs_push(s, bit);
                lemma_shift_fold_push(0, s, bit);
                assert(start + read_bits_evs(s.push(bit)) =~= (start + read_bits_evs(s))
                    + read_bit_evs(bit));
                s = s.push(bit);
            }
            i = i + 1;
        }
        // wait past the stop bit
        match self.pins.wait() {
            Ok(()) => {},
            Err(e) => {
                proof {
                    assert(pre =~= self.events().subrange(0, pre.len() as int));
                }
                return Err(Error::Bus(e));
            },
        }
        proof {
            lemma_shift_fold_byte(0, s);
            assert(self.events() =~= pre + read_frame_evs(s));
            assert(s.len() == 8 && self.events() == pre + read_frame_evs(s) && data_in == acc8(s));
        }
        Ok(data_in)
    }
}

/// The level of the transmit line at each tick of `evs`, starting from
/// level `t0`: what a peer pacing itself by the same timer samples.
pub open spec fn tx_at_ticks(evs: Seq<SerialEvent>, t0: bool) -> Seq<bool>
    decreases evs.len(),
{
    if evs.len() == 0 {
        Seq::empty()
    } else {
        match evs[0] {
            SerialEvent::Tx(b) => tx_at_ticks(evs.drop_first(), b),
            SerialEvent::Tick => seq![t0] + tx_at_ticks(evs.drop_first(), t0),
            _ => tx_at_ticks(evs.drop_first(), t0),
        }
    }
}

/// The level of the transmit line after `evs`, starting from `t0`.
pub open spec fn tx_after(evs: Seq<SerialEvent>, t0: bool) -> bool
    decreases evs.len(),
{
    if evs.len() == 0 {
        t0
    } else {
        match evs[0] {
            SerialEvent::Tx(b) => tx_after(evs.drop_first(), b),
            _ => tx_after(evs.drop_first(), t0),
        }
    }
}

proof fn lemma_tx_at_ticks_add(a: Seq<SerialEvent>, b: Seq<SerialEvent>, t0: bool)
    ensures
        tx_at_ticks(a + b, t0) == tx_at_ticks(a, t0) + tx_at_ticks(b, tx_after(a, t0)),
        tx_after(a + b, t0) == tx_after(b, tx_after(a, t0)),
    decreases a.len(),
{
    if a.len() == 0 {
        assert(a + b =~= b);
        assert(tx_at_ticks(a, t0) + tx_at_ticks(b, t0) =~= tx_at_ticks(b, t0));
    } else {
        assert((a + b).drop_first() =~= a.drop_first() + b);
        assert((a + b)[0] == a[0]);
        match a[0] {
            SerialEvent::Tx(x) => {
                lemma_tx_at_ticks_add(a.drop_first(), b, x);
            },
            SerialEvent::Tick => {
                lemma_tx_at_ticks_add(a.drop_first(), b, t0);
                assert(seq![t0] + (tx_at_ticks(a.drop_first(), t0) + tx_at_ticks(
                    b,
                    tx_after(a.drop_first(), t0),
                )) =~= (seq![t0] + tx_at_ticks(a.drop_first(), t0)) + tx_at_ticks(
                    b,
                    tx_after(a.drop_first(), t0),
                ));
            },
            _ => {
                lemma_tx_at_ticks_add(a.drop_first(), b, t0);
            },
        }
    }
}

proof fn lemma_write_bit_evs_wire(b: bool, t0: bool)
    ensures
        tx_at_ticks(write_bit_evs(b), t0) == seq![b],
        tx_after(write_bit_evs(b), t0) == b,
{
    let e = write_bit_evs(b);
    let e1 = e.drop_first();
    let e2 = e1.drop_first();
    assert(e1 =~= seq![SerialEvent::Tick]);
    assert(e2 =~= Seq::<SerialEvent>::empty());
    assert(tx_at_ticks(e2, b) == Seq::<bool>::empty());
    assert(tx_at_ticks(e1, b) == seq![b] + tx_at_ticks(e2, b));
    assert(tx_at_ticks(e, t0) == tx_at_ticks(e1, b));
    assert(tx_at_ticks(e, t0) =~= seq![b]);
    assert(tx_after(e2, b) == b);
    assert(tx_after(e1, b) == tx_after(e2, b));
    assert(tx_after(e, t0) == tx_after(e1, b));
}

proof fn lemma_write_bits_evs_wire(bits: Seq<bool>, t0: bool)
    ensures
        tx_at_ticks(write_bits_evs(bits), t0) == bits,
        tx_after(write_bits_evs(bits), t0) == if bits.len() == 0 {
            t0
        } else {
            bits.last()
        },
    decreases bits.len(),
{
    if bits.len() == 0 {
        assert(tx_at_ticks(write_bits_evs(bits), t0) =~= bits);
    } else {
        let rest = bits.drop_first();
        lemma_write_bit_evs_wire(bits[0], t0);
        lemma_write_bits_evs_wire(rest, bits[0]);
        lemma_tx_at_ticks_add(write_bit_evs(bits[0]), write_bits_evs(rest), t0);
        assert(tx_at_ticks(write_bits_evs(bits), t0) =~= bits);
        if rest.len() != 0 {
            assert(bits.last() == rest.last());
        }
    }
}

/// Wire form of a written byte: across the ten ticks of the frame the
/// transmit line reads as the low start bit, the 8 data bits LSB-first,
/// and the high stop bit, whatever level the line idled at before.
pub proof fn lemma_write_frame_wire(byte: u8, t0: bool)
    ensures
        tx_at_ticks(write_frame_evs(byte), t0) == seq![false] + lsb8(byte) + seq![true],
        tx_after(write_frame_evs(byte), t0) == true,
{
    let a = write_bit_evs(false);
    let c = write_bits_evs(lsb8(byte));
    let d = write_bit_evs(true);
    lemma_write_bit_evs_wire(false, t0);
    lemma_write_bits_evs_wire(lsb8(byte), false);
    let ghost m = if lsb8(byte).len() == 0 {
        false
    } else {
        lsb8(byte).last()
    };
    lemma_write_bit_evs_wire(true, m);
    lemma_tx_at_ticks_add(a, c, t0);
    lemma_tx_at_ticks_add(a + c, d, t0);
    assert(tx_at_ticks(write_frame_evs(byte), t0) =~= seq![false] + lsb8(byte) + seq![true]);
}

/// Round trip across the wire. A peer that samples the ten bit periods of
/// a written frame sees the start bit low, the stop bit high, and the 8
/// data bits in between; assembling those 8 samples with the receiver's
/// shift-left accumulator yields the bit-reversal of the written byte,
/// because the writer puts the least significant bit on the wire first
/// and the reader files the first sample in the most significant
/// position.
pub proof fn lemma_serial_round_trip(byte: u8, t0: bool)
    ensures
        ({
            let wire = tx_at_ticks(write_frame_evs(byte), t0);
            wire.len() == 10 && wire[0] == false && wire[9] == true && acc8(
                wire.subrange(1, 9),
            ) == rev8(byte)
        }),
{
    lemma_write_frame_wire(byte, t0);
    let wire = tx_at_ticks(write_frame_evs(byte), t0);
    assert(wire.subrange(1, 9) =~= lsb8(byte));
    lemma_acc8_of_lsb(byte);
}

/// On a byte that is its own bit-reversal the round trip of
/// [`lemma_serial_round_trip`] reproduces the byte exactly.
pub proof fn lemma_serial_round_trip_identity(byte: u8, t0: bool)
    requires
        rev8(byte) == byte,
    ensures
        acc8(tx_at_ticks(write_frame_evs(byte), t0).subrange(1, 9)) == byte,
{
    lemma_serial_round_trip(byte, t0);
}

} // verus!
