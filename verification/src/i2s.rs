//! Inter-IC Sound.
//!
//! A bit-banging I2S transmitter built from three output pins — clock
//! (SCK), data (SD) and word-select (WS) — and a periodic timer. The timer
//! must run at twice the desired bit rate: each data bit costs two ticks.
//!
//! Both standard I2S and left-justified framing are supported. Every
//! transfer's contract states the exact sequence of pin-state changes and
//! tick waits it performs, as a sequence of [`I2sEvent`]s.

use vstd::prelude::*;
use crate::bits::{msb_bits, wbit};
use crate::trace::{lemma_prefix_extend, lemma_prefix_refl, lemma_prefix_trans};

verus! {

/// One observable action on the I2S lines.
#[derive(Clone, Copy, PartialEq, Eq, Structural, Debug)]
pub enum I2sEvent {
    /// The data line driven to a level.
    Sd(bool),
    /// The clock line driven to a level.
    Sck(bool),
    /// The word-select line driven to a level.
    Ws(bool),
    /// One timer period elapsed.
    Tick,
}

/// The pin and timer capabilities an I2S driver consumes: three output
/// pins and a periodic timer, bundled. An implementation records every
/// action it performs in its event trace; a failed action records nothing.
pub trait I2sPins {
    /// The error of the underlying digital-pin or timer capability.
    type Error;

    /// Every pin level driven and every tick waited so far, oldest
    /// first. Implementations that the verifier reads override this;
    /// the default, an empty trace, serves implementations outside its
    /// reach, about which nothing is claimed.
    open spec fn events(&self) -> Seq<I2sEvent> {
        Seq::empty()
    }

    /// Drive the data line to `level`.
    fn set_sd(&mut self, level: bool) -> (r: Result<(), Self::Error>)
        ensures
            r is Ok ==> final(self).events() == old(self).events().push(I2sEvent::Sd(level)),
            r is Err ==> final(self).events() == old(self).events(),
    ;

    /// Drive the clock line to `level`.
    fn set_sck(&mut self, level: bool) -> (r: Result<(), Self::Error>)
        ensures
            r is Ok ==> final(self).events() == old(self).events().push(I2sEvent::Sck(level)),
            r is Err ==> final(self).events() == old(self).events(),
    ;

    /// Drive the word-select line to `level`.
    fn set_ws(&mut self, level: bool) -> (r: Result<(), Self::Error>)
        ensures
            r is Ok ==> final(self).events() == old(self).events().push(I2sEvent::Ws(level)),
            r is Err ==> final(self).events() == old(self).events(),
    ;

    /// Block until the next timer tick.
    fn wait(&mut self) -> (r: Result<(), Self::Error>)
        ensures
            r is Ok ==> final(self).events() == old(self).events().push(I2sEvent::Tick),
            r is Err ==> final(self).events() == old(self).events(),
    ;
}

/// I2S errors.
#[derive(Debug)]
pub enum Error<EP> {
    /// GPIO or timer error.
    Pin(EP),
}

/// I2S mode.
#[derive(Clone, Copy, PartialEq, Eq, Structural, Debug)]
pub enum Mode {
    /// Standard I2S: word-select changes one bit-period ahead of the
    /// channel it announces.
    I2s,
    /// Left-justified: word-select changes exactly at the word boundary.
    LeftJustified,
}

/// The five events that transmit one data bit: data line to the bit's
/// level, one tick, clock high (the peer samples here), one tick, clock
/// low.
pub open spec fn bit_evs(b: bool) -> Seq<I2sEvent> {
    seq![
        I2sEvent::Sd(b),
        I2sEvent::Tick,
        I2sEvent::Sck(true),
        I2sEvent::Tick,
        I2sEvent::Sck(false),
    ]
}

/// The events that transmit each bit of `bits`, in order.
pub open spec fn bits_evs(bits: Seq<bool>) -> Seq<I2sEvent>
    decreases bits.len(),
{
    if bits.len() == 0 {
        Seq::empty()
    } else {
        bit_evs(bits[0]) + bits_evs(bits.drop_first())
    }
}

/// The events of one stereo frame: the left word then the right word,
/// each as its low `n` bits MSB-first, with word-select framed per
/// `mode`. In standard I2S mode word-select rises one bit-period before
/// the left word ends and falls one bit-period before the right word
/// ends; in left-justified mode it rises after the left word and falls
/// after the right word.
pub open spec fn frame_evs(mode: Mode, left: u32, right: u32, n: nat) -> Seq<I2sEvent>
    recommends
        1 <= n <= 32,
{
    match mode {
        Mode::I2s => bits_evs(msb_bits(left, n).take(n - 1)) + seq![I2sEvent::Ws(true)] + bit_evs(
            wbit(left, 0),
        ) + bits_evs(msb_bits(right, n).take(n - 1)) + seq![I2sEvent::Ws(false)] + bit_evs(
            wbit(right, 0),
        ),
        Mode::LeftJustified => bits_evs(msb_bits(left, n)) + seq![I2sEvent::Ws(true)] + bits_evs(
            msb_bits(right, n),
        ) + seq![I2sEvent::Ws(false)],
    }
}

/// The events of a sequence of stereo frames, one per word pair, stopping
/// at the shorter input.
pub open spec fn frames_evs(mode: Mode, ls: Seq<u32>, rs: Seq<u32>, n: nat) -> Seq<I2sEvent>
    decreases ls.len(),
{
    if ls.len() == 0 || rs.len() == 0 {
        Seq::empty()
    } else {
        frame_evs(mode, ls[0], rs[0], n) + frames_evs(mode, ls.drop_first(), rs.drop_first(), n)
    }
}

/// The data bits among `evs`, in order.
pub open spec fn data_bits(evs: Seq<I2sEvent>) -> Seq<bool>
    decreases evs.len(),
{
    if evs.len() == 0 {
        Seq::empty()
    } else {
        match evs[0] {
            I2sEvent::Sd(b) => seq![b] + data_bits(evs.drop_first()),
            _ => data_bits(evs.drop_first()),
        }
    }
}

/// The word-select level prevailing at each data bit of `evs`, starting
/// from level `w0`.
pub open spec fn ws_levels(evs: Seq<I2sEvent>, w0: bool) -> Seq<bool>
    decreases evs.len(),
{
    if evs.len() == 0 {
        Seq::empty()
    } else {
        match evs[0] {
            I2sEvent::Sd(_) => seq![w0] + ws_levels(evs.drop_first(), w0),
            I2sEvent::Ws(b) => ws_levels(evs.drop_first(), b),
            _ => ws_levels(evs.drop_first(), w0),
        }
    }
}

/// The word-select level after `evs`, starting from `w0`.
pub open spec fn ws_after(evs: Seq<I2sEvent>, w0: bool) -> bool
    decreases evs.len(),
{
    if evs.len() == 0 {
        w0
    } else {
        match evs[0] {
            I2sEvent::Ws(b) => ws_after(evs.drop_first(), b),
            _ => ws_after(evs.drop_first(), w0),
        }
    }
}

proof fn lemma_data_bits_add(a: Seq<I2sEvent>, b: Seq<I2sEvent>)
    ensures
        data_bits(a + b) == data_bits(a) + data_bits(b),
    decreases a.len(),
{
    if a.len() == 0 {
        assert(a + b =~= b);
        assert(data_bits(a) + data_bits(b) =~= data_bits(b));
    } else {
        lemma_data_bits_add(a.drop_first(), b);
        assert((a + b).drop_first() =~= a.drop_first() + b);
        assert((a + b)[0] == a[0]);
        match a[0] {
            I2sEvent::Sd(x) => {
                assert(seq![x] + (data_bits(a.drop_first()) + data_bits(b)) =~= (seq![x]
                    + data_bits(a.drop_first())) + data_bits(b));
            },
            _ => {},
        }
    }
}

proof fn lemma_ws_after_add(a: Seq<I2sEvent>, b: Seq<I2sEvent>, w0: bool)
    ensures
        ws_after(a + b, w0) == ws_after(b, ws_after(a, w0)),
    decreases a.len(),
{
    if a.len() == 0 {
        assert(a + b =~= b);
    } else {
        assert((a + b).drop_first() =~= a.drop_first() + b);
        assert((a + b)[0] == a[0]);
        match a[0] {
            I2sEvent::Ws(x) => {
                lemma_ws_after_add(a.drop_first(), b, x);
            },
            _ => {
                lemma_ws_after_add(a.drop_first(), b, w0);
            },
        }
    }
}

proof fn lemma_ws_levels_add(a: Seq<I2sEvent>, b: Seq<I2sEvent>, w0: bool)
    ensures
        ws_levels(a + b, w0) == ws_levels(a, w0) + ws_levels(b, ws_after(a, w0)),
    decreases a.len(),
{
    if a.len() == 0 {
        assert(a + b =~= b);
        assert(ws_levels(a, w0) + ws_levels(b, w0) =~= ws_levels(b, w0));
    } else {
        assert((a + b).drop_first() =~= a.drop_first() + b);
        assert((a + b)[0] == a[0]);
        match a[0] {
            I2sEvent::Sd(_) => {
                lemma_ws_levels_add(a.drop_first(), b, w0);
                assert(seq![w0] + (ws_levels(a.drop_first(), w0) + ws_levels(
                    b,
                    ws_after(a.drop_first(), w0),
                )) =~= (seq![w0] + ws_levels(a.drop_first(), w0)) + ws_levels(
                    b,
                    ws_after(a.drop_first(), w0),
                ));
            },
            I2sEvent::Ws(x) => {
                lemma_ws_levels_add(a.drop_first(), b, x);
            },
            _ => {
                lemma_ws_levels_add(a.drop_first(), b, w0);
            },
        }
    }
}

proof fn lemma_bit_evs_proj(b: bool, w0: bool)
    ensures
        data_bits(bit_evs(b)) == seq![b],
        ws_levels(bit_evs(b), w0) == seq![w0],
        ws_after(bit_evs(b), w0) == w0,
{
    let e = bit_evs(b);
    let e1 = e.drop_first();
    let e2 = e1.drop_first();
    let e3 = e2.drop_first();
    let e4 = e3.drop_first();
    let e5 = e4.drop_first();
    assert(e1 =~= seq![I2sEvent::Tick, I2sEvent::Sck(true), I2sEvent::Tick, I2sEvent::Sck(false)]);
    assert(e2 =~= seq![I2sEvent::Sck(true), I2sEvent::Tick, I2sEvent::Sck(false)]);
    assert(e3 =~= seq![I2sEvent::Tick, I2sEvent::Sck(false)]);
    assert(e4 =~= seq![I2sEvent::Sck(false)]);
    assert(e5 =~= Seq::<I2sEvent>::empty());
    assert(data_bits(e5) == Seq::<bool>::empty());
    assert(data_bits(e4) == data_bits(e5));
    assert(data_bits(e3) == data_bits(e4));
    assert(data_bits(e2) == data_bits(e3));
    assert(data_bits(e1) == data_bits(e2));
    assert(data_bits(e) == seq![b] + data_bits(e1));
    assert(data_bits(e) =~= seq![b]);
    assert(ws_levels(e5, w0) == Seq::<bool>::empty());
    assert(ws_levels(e4, w0) == ws_levels(e5, w0));
    assert(ws_levels(e3, w0) == ws_levels(e4, w0));
    assert(ws_levels(e2, w0) == ws_levels(e3, w0));
    assert(ws_levels(e1, w0) == ws_levels(e2, w0));
    assert(ws_levels(e, w0) == seq![w0] + ws_levels(e1, w0));
    assert(ws_levels(e, w0) =~= seq![w0]);
    assert(ws_after(e5, w0) == w0);
    assert(ws_after(e4, w0) == ws_after(e5, w0));
    assert(ws_after(e3, w0) == ws_after(e4, w0));
    assert(ws_after(e2, w0) == ws_after(e3, w0));
    assert(ws_after(e1, w0) == ws_after(e2, w0));
    assert(ws_after(e, w0) == ws_after(e1, w0));
}

proof fn lemma_ws_ev_proj(x: bool, w0: bool)
    ensures
        data_bits(seq![I2sEvent::Ws(x)]) == Seq::<bool>::empty(),
        ws_levels(seq![I2sEvent::Ws(x)], w0) == Seq::<bool>::empty(),
        ws_after(seq![I2sEvent::Ws(x)], w0) == x,
{
    let e = seq![I2sEvent::Ws(x)];
    let e1 = e.drop_first();
    assert(e1 =~= Seq::<I2sEvent>::empty());
    assert(data_bits(e1) == Seq::<bool>::empty());
    assert(data_bits(e) == data_bits(e1));
    assert(ws_levels(e1, x) == Seq::<bool>::empty());
    assert(ws_levels(e, w0) == ws_levels(e1, x));
    assert(ws_after(e1, x) == x);
    assert(ws_after(e, w0) == ws_after(e1, x));
}

proof fn lemma_bits_evs_proj(bits: Seq<bool>, w0: bool)
    ensures
        data_bits(bits_evs(bits)) == bits,
        ws_levels(bits_evs(bits), w0) == Seq::new(bits.len(), |k: int| w0),
        ws_after(bits_evs(bits), w0) == w0,
    decreases bits.len(),
{
    if bits.len() == 0 {
        assert(data_bits(bits_evs(bits)) =~= bits);
        assert(ws_levels(bits_evs(bits), w0) =~= Seq::new(bits.len(), |k: int| w0));
    } else {
        let rest = bits.drop_first();
        lemma_bits_evs_proj(rest, w0);
        lemma_bit_evs_proj(bits[0], w0);
        lemma_data_bits_add(bit_evs(bits[0]), bits_evs(rest));
        lemma_ws_levels_add(bit_evs(bits[0]), bits_evs(rest), w0);
        lemma_ws_after_add(bit_evs(bits[0]), bits_evs(rest), w0);
        assert(data_bits(bits_evs(bits)) =~= bits);
        assert(ws_levels(bits_evs(bits), w0) =~= Seq::new(bits.len(), |k: int| w0));
    }
}

/// Appending one bit to a transmission appends that bit's five events.
proof fn lemma_bits_evs_push(bits: Seq<bool>, b: bool)
    ensures
        bits_evs(bits.push(b)) == bits_evs(bits) + bit_evs(b),
    decreases bits.len(),
{
    if bits.len() == 0 {
        let s = bits.push(b);
        assert(s[0] == b);
        assert(s.drop_first() =~= Seq::<bool>::empty());
        assert(bits_evs(s.drop_first()) == Seq::<I2sEvent>::empty());
        assert(bits_evs(s) == bit_evs(b) + bits_evs(s.drop_first()));
        assert(bits_evs(bits) == Seq::<I2sEvent>::empty());
        assert(bits_evs(s) =~= bits_evs(bits) + bit_evs(b));
    } else {
        lemma_bits_evs_push(bits.drop_first(), b);
        let s = bits.push(b);
        assert(s[0] == bits[0]);
        assert(s.drop_first() =~= bits.drop_first().push(b));
        assert(bit_evs(bits[0]) + (bits_evs(bits.drop_first()) + bit_evs(b)) =~= (bit_evs(bits[0])
            + bits_evs(bits.drop_first())) + bit_evs(b));
    }
}

/// Bit-banging I2S device.
pub struct I2s<P> {
    /// The framing mode, fixed at construction.
    pub mode: Mode,
    /// The pin and timer bundle this driver exclusively owns.
    pub pins: P,
}

impl<P: I2sPins> I2s<P> {
    /// Every action this driver has performed on its lines, oldest first.
    pub open spec fn events(&self) -> Seq<I2sEvent> {
        self.pins.events()
    }

    /// Create new instance.
    pub fn new(mode: Mode, pins: P) -> (r: Self)
        ensures
            r.mode == mode,
            r.events() == pins.events(),
    {
        I2s { mode, pins }
    }

    /// Drive word-select high.
    pub fn set_ws_high(&mut self) -> (r: Result<(), Error<P::Error>>)
        ensures
            final(self).mode == old(self).mode,
            r is Ok ==> final(self).events() == old(self).events().push(I2sEvent::Ws(true)),
            r is Err ==> final(self).events() == old(self).events(),
    {
        match self.pins.set_ws(true) {
            Ok(()) => Ok(()),
            Err(e) => Err(Error::Pin(e)),
        }
    }

    /// Drive word-select low.
    pub fn set_ws_low(&mut self) -> (r: Result<(), Error<P::Error>>)
        ensures
            final(self).mode == old(self).mode,
            r is Ok ==> final(self).events() == old(self).events().push(I2sEvent::Ws(false)),
            r is Err ==> final(self).events() == old(self).events(),
    {
        match self.pins.set_ws(false) {
            Ok(()) => Ok(()),
            Err(e) => Err(Error::Pin(e)),
        }
    }

    /// Transmit one data bit: data line to the bit's level, one tick,
    /// clock high (the peer samples on this rising edge), one tick, clock
    /// low. A pin or timer failure is returned at once, leaving the bit
    /// partially emitted.
    pub fn try_write_bit(&mut self, bit: bool) -> (r: Result<(), Error<P::Error>>)
        ensures
            final(self).mode == old(self).mode,
            r is Ok ==> final(self).events() == old(self).events() + bit_evs(bit),
            r is Err ==> old(self).events().is_prefix_of(final(self).events()),
    {
        let ghost pre = self.events();
        match self.pins.set_sd(bit) {
            Ok(()) => {},
            Err(e) => {
                proof {
                    lemma_prefix_refl(pre);
                }
                return Err(Error::Pin(e));
            },
        }
        match self.pins.wait() {
            Ok(()) => {},
            Err(e) => {
                proof {
                    assert(pre =~= self.events().subrange(0, pre.len() as int));
                }
                return Err(Error::Pin(e));
            },
        }
        match self.pins.set_sck(true) {
            Ok(()) => {},
            Err(e) => {
                proof {
                    assert(pre =~= self.events().subrange(0, pre.len() as int));
                }
                return Err(Error::Pin(e));
            },
        }
        match self.pins.wait() {
            Ok(()) => {},
            Err(e) => {
                proof {
                    assert(pre =~= self.events().subrange(0, pre.len() as int));
                }
                return Err(Error::Pin(e));
            },
        }
        match self.pins.set_sck(false) {
            Ok(()) => {},
            Err(e) => {
                proof {
                    assert(pre =~= self.events().subrange(0, pre.len() as int));
                }
                return Err(Error::Pin(e));
            },
        }
        proof {
            assert(self.events() =~= pre + bit_evs(bit));
        }
        Ok(())
    }

    /// Transmit the first `count` of the low `n` bits of `word`,
    /// MSB-first: bit `n - 1` down to bit `n - count`.
    fn write_msb_bits(&mut self, word: u32, n: u8, count: u8) -> (r: Result<(), Error<P::Error>>)
        requires
            1 <= n <= 32,
            count <= n,
        ensures
            final(self).mode == old(self).mode,
            r is Ok ==> final(self).events() == old(self).events() + bits_evs(
                msb_bits(word, n as nat).take(count as int),
            ),
            r is Err ==> old(self).events().is_prefix_of(final(self).events()),
    {
        let ghost pre = self.events();
        let ghost bits = msb_bits(word, n as nat);
        let mut offset: u8 = 0;
        proof {
            assert(bits.take(0) =~= Seq::<bool>::empty());
            assert(bits_evs(bits.take(0)) == Seq::<I2sEvent>::empty());
            assert(self.events() =~= pre + bits_evs(bits.take(0)));
        }
        while offset < count
            invariant
                1 <= n <= 32,
                count <= n,
                offset <= count,
                bits == msb_bits(word, n as nat),
                self.mode == old(self).mode,
                pre == old(self).events(),
                self.events() == pre + bits_evs(bits.take(offset as int)),
            decreases count - offset,
        {
            let shift: u8 = n - 1 - offset;
            let bit = ((word >> (shift as u32)) & 1) == 1;
            proof {
                assert(bit == bits[offset as int]);
            }
            match self.try_write_bit(bit) {
                Ok(()) => {},
                Err(e) => {
                    proof {
                        lemma_prefix_extend(pre, bits_evs(bits.take(offset as int)));
                        lemma_prefix_trans(
                            pre,
                            pre + bits_evs(bits.take(offset as int)),
                            self.events(),
                        );
                    }
                    return Err(e);
                },
            }
            proof {
                let t = bits.take(offset as int);
                lemma_bits_evs_push(t, bit);
                assert(bits.take(offset as int + 1) =~= t.push(bits[offset as int]));
                assert(pre + bits_evs(bits.take(offset as int + 1)) =~= (pre + bits_evs(t))
                    + bit_evs(bit));
            }
            offset = offset + 1;
        }
        Ok(())
    }

    /// Transfer a sequence of stereo frames of 16-bit words; the two
    /// slices pair up index by index and must have equal length. Word-
    /// select is driven low first, then each pair is sent as one frame
    /// per the driver's mode.
    pub fn try_write_i16(&mut self, left_words: &[i16], right_words: &[i16]) -> (r: Result<
        (),
        Error<P::Error>,
    >)
        requires
            left_words@.len() == right_words@.len(),
        ensures
            final(self).mode == old(self).mode,
            r is Ok ==> final(self).events() == old(self).events().push(I2sEvent::Ws(false))
                + frames_evs(
                old(self).mode,
                left_words@.map_values(|w: i16| w as u16 as u32),
                right_words@.map_values(|w: i16| w as u16 as u32),
                16,
            ),
            r is Err ==> old(self).events().is_prefix_of(final(self).events()),
    {
        self.try_write_iter_i16(left_words, right_words)
    }

    /// Streaming variant of `try_write_i16`: the two inputs need not
    /// pair up — the transfer ends as soon as either is exhausted, and
    /// the words left over in the longer one are ignored.
    pub fn try_write_iter_i16(&mut self, left_words: &[i16], right_words: &[i16]) -> (r:
        Result<(), Error<P::Error>>)
        ensures
            final(self).mode == old(self).mode,
            r is Ok ==> final(self).events() == old(self).events().push(I2sEvent::Ws(false))
                + frames_evs(
                old(self).mode,
                left_words@.map_values(|w: i16| w as u16 as u32),
                right_words@.map_values(|w: i16| w as u16 as u32),
                16,
            ),
            r is Err ==> old(self).events().is_prefix_of(final(self).events()),
    {
        let ghost pre = self.events();
        let ghost lw = left_words@.map_values(|w: i16| w as u16 as u32);
        let ghost rw = right_words@.map_values(|w: i16| w as u16 as u32);
        match self.set_ws_low() {
            Ok(()) => {},
            Err(e) => {
                proof {
                    lemma_prefix_refl(pre);
                }
                return Err(e);
            },
        }
        let ghost start = self.events();
        let count = if left_words.len() <= right_words.len() {
            left_words.len()
        } else {
            right_words.len()
        };
        let mut i: usize = 0;
        proof {
            assert(lw.take(0) =~= Seq::<u32>::empty());
            assert(rw.take(0) =~= Seq::<u32>::empty());
            assert(self.events() =~= start + frames_evs(old(self).mode, lw.take(0), rw.take(0), 16));
        }
        while i < count
            invariant
                count <= left_words@.len(),
                count <= right_words@.len(),
                count == left_words@.len() || count == right_words@.len(),
                i <= count,
                lw == left_words@.map_values(|w: i16| w as u16 as u32),
                rw == right_words@.map_values(|w: i16| w as u16 as u32),
                self.mode == old(self).mode,
                pre == old(self).events(),
                start == pre.push(I2sEvent::Ws(false)),
                self.events() == start + frames_evs(
                    old(self).mode,
                    lw.take(i as int),
                    rw.take(i as int),
                    16,
                ),
            decreases count - i,
        {
            let l = left_words[i];
            let r = right_words[i];
            let ghost mid = self.events();
            match self.try_write_words(l as u16 as u32, r as u16 as u32, 16) {
                Ok(()) => {},
                Err(e) => {
                    proof {
                        assert(pre.is_prefix_of(mid)) by {
                            assert(pre =~= mid.subrange(0, pre.len() as int));
                        }
                        lemma_prefix_trans(pre, mid, self.events());
                    }
                    return Err(e);
                },
            }
            proof {
                lemma_frames_evs_push(
                    old(self).mode,
                    lw.take(i as int),
                    rw.take(i as int),
                    lw[i as int],
                    rw[i as int],
                    16,
                );
                assert(lw.take(i as int + 1) =~= lw.take(i as int).push(lw[i as int]));
                assert(rw.take(i as int + 1) =~= rw.take(i as int).push(rw[i as int]));
                assert(start + frames_evs(
                    old(self).mode,
                    lw.take(i as int + 1),
                    rw.take(i as int + 1),
                    16,
                ) =~= (start + frames_evs(old(self).mode, lw.take(i as int), rw.take(i as int), 16))
                    + frame_evs(old(self).mode, lw[i as int], rw[i as int], 16));
            }
            i = i + 1;
        }
        proof {
            lemma_frames_evs_trunc(old(self).mode, lw, rw, 16, count as int);
        }
        Ok(())
    }

    /// Transfer a sequence of stereo frames of 32-bit words; the two
    /// slices pair up index by index and must have equal length. Word-
    /// select is driven low first, then each pair is sent as one frame
    /// per the driver's mode.
    pub fn try_write_i32(&mut self, left_words: &[i32], right_words: &[i32]) -> (r: Result<
        (),
        Error<P::Error>,
    >)
        requires
            left_words@.len() == right_words@.len(),
        ensures
            final(self).mode == old(self).mode,
            r is Ok ==> final(self).events() == old(self).events().push(I2sEvent::Ws(false))
                + frames_evs(
                old(self).mode,
                left_words@.map_values(|w: i32| w as u32),
                right_words@.map_values(|w: i32| w as u32),
                32,
            ),
            r is Err ==> old(self).events().is_prefix_of(final(self).events()),
    {
        self.try_write_iter_i32(left_words, right_words)
    }

    /// Streaming variant of `try_write_i32`: the two inputs need not
    /// pair up — the transfer ends as soon as either is exhausted, and
    /// the words left over in the longer one are ignored.
    pub fn try_write_iter_i32(&mut self, left_words: &[i32], right_words: &[i32]) -> (r:
        Result<(), Error<P::Error>>)
        ensures
            final(self).mode == old(self).mode,
            r is Ok ==> final(self).events() == old(self).events().push(I2sEvent::Ws(false))
                + frames_evs(
                old(self).mode,
                left_words@.map_values(|w: i32| w as u32),
                right_words@.map_values(|w: i32| w as u32),
                32,
            ),
            r is Err ==> old(self).events().is_prefix_of(final(self).events()),
    {
        let ghost pre = self.events();
        let ghost lw = left_words@.map_values(|w: i32| w as u32);
        let ghost rw = right_words@.map_values(|w: i32| w as u32);
        match self.set_ws_low() {
            Ok(()) => {},
            Err(e) => {
                proof {
                    lemma_prefix_refl(pre);
                }
                return Err(e);
            },
        }
        let ghost start = self.events();
        let count = if left_words.len() <= right_words.len() {
            left_words.len()
        } else {
            right_words.len()
        };
        let mut i: usize = 0;
        proof {
            assert(lw.take(0) =~= Seq::<u32>::empty());
            assert(rw.take(0) =~= Seq::<u32>::empty());
            assert(self.events() =~= start + frames_evs(old(self).mode, lw.take(0), rw.take(0), 32));
        }
        while i < count
            invariant
                count <= left_words@.len(),
                count <= right_words@.len(),
                count == left_words@.len() || count == right_words@.len(),
                i <= count,
                lw == left_words@.map_values(|w: i32| w as u32),
                rw == right_words@.map_values(|w: i32| w as u32),
                self.mode == old(self).mode,
                pre == old(self).events(),
                start == pre.push(I2sEvent::Ws(false)),
                self.events() == start + frames_evs(
                    old(self).mode,
                    lw.take(i as int),
                    rw.take(i as int),
                    32,
                ),
            decreases count - i,
        {
            let l = left_words[i];
            let r = right_words[i];
            let ghost mid = self.events();
            match self.try_write_words(l as u32, r as u32, 32) {
                Ok(()) => {},
                Err(e) => {
                    proof {
                        assert(pre.is_prefix_of(mid)) by {
                            assert(pre =~= mid.subrange(0, pre.len() as int));
                        }
                        lemma_prefix_trans(pre, mid, self.events());
                    }
                    return Err(e);
                },
            }
            proof {
                lemma_frames_evs_push(
                    old(self).mode,
                    lw.take(i as int),
                    rw.take(i as int),
                    lw[i as int],
                    rw[i as int],
                    32,
                );
                assert(lw.take(i as int + 1) =~= lw.take(i as int).push(lw[i as int]));
                assert(rw.take(i as int + 1) =~= rw.take(i as int).push(rw[i as int]));
                assert(start + frames_evs(
                    old(self).mode,
                    lw.take(i as int + 1),
                    rw.take(i as int + 1),
                    32,
                ) =~= (start + frames_evs(old(self).mode, lw.take(i as int), rw.take(i as int), 32))
                    + frame_evs(old(self).mode, lw[i as int], rw[i as int], 32));
            }
            i = i + 1;
        }
        proof {
            lemma_frames_evs_trunc(old(self).mode, lw, rw, 32, count as int);
        }
        Ok(())
    }

    /// Transfer one stereo frame: the low `bit_count` bits of each word,
    /// left channel first, MSB-first, with word-select framed per the
    /// driver's mode. The driver never reads word-select's prior level,
    /// so the very first frame of a session may show one fewer
    /// word-select edge than a steady-state frame if the line already
    /// sat at the level being driven. A pin or timer failure is returned
    /// at once, leaving the frame partially emitted.
    pub fn try_write_words(&mut self, left_word: u32, right_word: u32, bit_count: u8) -> (r: Result<
        (),
        Error<P::Error>,
    >)
        requires
            1 <= bit_count <= 32,
        ensures
            final(self).mode == old(self).mode,
            r is Ok ==> final(self).events() == old(self).events() + frame_evs(
                old(self).mode,
                left_word,
                right_word,
                bit_count as nat,
            ),
            r is Err ==> old(self).events().is_prefix_of(final(self).events()),
    {
        let ghost pre = self.events();
        let n = bit_count;
        let ghost nn = n as nat;
        match self.mode {
            Mode::I2s => {
                match self.write_msb_bits(left_word, n, n - 1) {
                    Ok(()) => {},
                    Err(e) => {
                        proof {
                            lemma_prefix_refl(pre);
                        }
                        return Err(e);
                    },
                }
                match self.set_ws_high() {
                    Ok(()) => {},
                    Err(e) => {
                        proof {
                            assert(pre =~= self.events().subrange(0, pre.len() as int));
                        }
                        return Err(e);
                    },
                }
                let last_left = (left_word & 1) == 1;
                proof {
                    assert(((left_word & 1) == 1) == ((left_word >> 0u32) & 1 == 1))
                        by (bit_vector);
                }
                let ghost mid1 = self.events();
                match self.try_write_bit(last_left) {
                    Ok(()) => {},
                    Err(e) => {
                        proof {
                            assert(pre.is_prefix_of(mid1)) by {
                                assert(pre =~= mid1.subrange(0, pre.len() as int));
                            }
                            lemma_prefix_trans(pre, mid1, self.events());
                        }
                        return Err(e);
                    },
                }
                let ghost mid2 = self.events();
                match self.write_msb_bits(right_word, n, n - 1) {
                    Ok(()) => {},
                    Err(e) => {
                        proof {
                            assert(pre.is_prefix_of(mid2)) by {
                                assert(pre =~= mid2.subrange(0, pre.len() as int));
                            }
                            lemma_prefix_trans(pre, mid2, self.events());
                        }
                        return Err(e);
                    },
                }
                match self.set_ws_low() {
                    Ok(()) => {},
                    Err(e) => {
                        proof {
                            assert(pre =~= self.events().subrange(0, pre.len() as int));
                        }
                        return Err(e);
                    },
                }
                let last_right = (right_word & 1) == 1;
                proof {
                    assert(((right_word & 1) == 1) == ((right_word >> 0u32) & 1 == 1))
                        by (bit_vector);
                }
                let ghost mid3 = self.events();
                match self.try_write_bit(last_right) {
                    Ok(()) => {},
                    Err(e) => {
                        proof {
                            assert(pre.is_prefix_of(mid3)) by {
                                assert(pre =~= mid3.subrange(0, pre.len() as int));
                            }
                            lemma_prefix_trans(pre, mid3, self.events());
                        }
                        return Err(e);
                    },
                }
                proof {
                    assert(self.events() =~= pre + frame_evs(
                        Mode::I2s,
                        left_word,
                        right_word,
                        nn,
                    ));
                }
                Ok(())
            },
            Mode::LeftJustified => {
                match self.write_msb_bits(left_word, n, n) {
                    Ok(()) => {},
                    Err(e) => {
                        proof {
                            lemma_prefix_refl(pre);
                        }
                        return Err(e);
                    },
                }
                match self.set_ws_high() {
                    Ok(()) => {},
                    Err(e) => {
                        proof {
                            assert(pre =~= self.events().subrange(0, pre.len() as int));
                        }
                        return Err(e);
                    },
                }
                let ghost mid1 = self.events();
                match self.write_msb_bits(right_word, n, n) {
                    Ok(()) => {},
                    Err(e) => {
                        proof {
                            assert(pre.is_prefix_of(mid1)) by {
                                assert(pre =~= mid1.subrange(0, pre.len() as int));
                            }
                            lemma_prefix_trans(pre, mid1, self.events());
                        }
                        return Err(e);
                    },
                }
                match self.set_ws_low() {
                    Ok(()) => {},
                    Err(e) => {
                        proof {
                            assert(pre =~= self.events().subrange(0, pre.len() as int));
                        }
                        return Err(e);
                    },
                }
                proof {
                    assert(msb_bits(left_word, nn).take(nn as int) =~= msb_bits(left_word, nn));
                    assert(msb_bits(right_word, nn).take(nn as int) =~= msb_bits(right_word, nn));
                    assert(self.events() =~= pre + frame_evs(
                        Mode::LeftJustified,
                        left_word,
                        right_word,
                        nn,
                    ));
                }
                Ok(())
            },
        }
    }
}

/// Appending one word pair to a transfer appends that pair's frame.
proof fn lemma_frames_evs_push(mode: Mode, ls: Seq<u32>, rs: Seq<u32>, l: u32, r: u32, n: nat)
    requires
        ls.len() == rs.len(),
    ensures
        frames_evs(mode, ls.push(l), rs.push(r), n) == frames_evs(mode, ls, rs, n) + frame_evs(
            mode,
            l,
            r,
            n,
        ),
    decreases ls.len(),
{
    if ls.len() == 0 {
        let a = ls.push(l);
        let b = rs.push(r);
        assert(a[0] == l);
        assert(b[0] == r);
        assert(a.drop_first() =~= Seq::<u32>::empty());
        assert(b.drop_first() =~= Seq::<u32>::empty());
        assert(frames_evs(mode, a.drop_first(), b.drop_first(), n) == Seq::<I2sEvent>::empty());
        assert(frames_evs(mode, a, b, n) == frame_evs(mode, l, r, n) + frames_evs(
            mode,
            a.drop_first(),
            b.drop_first(),
            n,
        ));
        assert(frames_evs(mode, ls, rs, n) == Seq::<I2sEvent>::empty());
        assert(frames_evs(mode, a, b, n) =~= frames_evs(mode, ls, rs, n) + frame_evs(
            mode,
            l,
            r,
            n,
        ));
    } else {
        lemma_frames_evs_push(mode, ls.drop_first(), rs.drop_first(), l, r, n);
        let a = ls.push(l);
        let b = rs.push(r);
        assert(a[0] == ls[0]);
        assert(b[0] == rs[0]);
        assert(a.drop_first() =~= ls.drop_first().push(l));
        assert(b.drop_first() =~= rs.drop_first().push(r));
        assert(frame_evs(mode, ls[0], rs[0], n) + (frames_evs(
            mode,
            ls.drop_first(),
            rs.drop_first(),
            n,
        ) + frame_evs(mode, l, r, n)) =~= (frame_evs(mode, ls[0], rs[0], n) + frames_evs(
            mode,
            ls.drop_first(),
            rs.drop_first(),
            n,
        )) + frame_evs(mode, l, r, n));
    }
}

/// A transfer stops at the shorter input: taking both inputs down to
/// the shorter length changes nothing.
proof fn lemma_frames_evs_trunc(mode: Mode, ls: Seq<u32>, rs: Seq<u32>, n: nat, m: int)
    requires
        0 <= m <= ls.len(),
        m <= rs.len(),
        m == ls.len() || m == rs.len(),
    ensures
        frames_evs(mode, ls.take(m), rs.take(m), n) == frames_evs(mode, ls, rs, n),
    decreases ls.len(),
{
    if m == 0 {
        assert(ls.take(0) =~= Seq::<u32>::empty());
        assert(rs.take(0) =~= Seq::<u32>::empty());
    } else {
        let a = ls.take(m);
        let b = rs.take(m);
        assert(a[0] == ls[0]);
        assert(b[0] == rs[0]);
        assert(a.drop_first() =~= ls.drop_first().take(m - 1));
        assert(b.drop_first() =~= rs.drop_first().take(m - 1));
        lemma_frames_evs_trunc(mode, ls.drop_first(), rs.drop_first(), n, m - 1);
    }
}

/// Standard-I2S framing law. A frame carries the left word's `n` bits
/// then the right word's `n` bits, MSB-first. Starting from word-select
/// low, the level is low at each of the first `n - 1` data bits, high
/// from the left word's final bit through the right word's next-to-last
/// bit, and low again at the right word's final bit: word-select rises
/// exactly once — one bit-period before the right channel begins — and
/// falls exactly once, one bit-period before the frame ends.
pub proof fn lemma_standard_framing(left: u32, right: u32, n: nat)
    requires
        1 <= n <= 32,
    ensures
        data_bits(frame_evs(Mode::I2s, left, right, n)) == msb_bits(left, n) + msb_bits(right, n),
        ws_levels(frame_evs(Mode::I2s, left, right, n), false) == Seq::new(
            2 * n,
            |k: int| n - 1 <= k < 2 * n - 1,
        ),
        ws_after(frame_evs(Mode::I2s, left, right, n), false) == false,
{
    let lt = msb_bits(left, n).take(n - 1);
    let rt = msb_bits(right, n).take(n - 1);
    let a = bits_evs(lt);
    let w1 = seq![I2sEvent::Ws(true)];
    let bl = bit_evs(wbit(left, 0));
    let c = bits_evs(rt);
    let w2 = seq![I2sEvent::Ws(false)];
    let dr = bit_evs(wbit(right, 0));
    let f = frame_evs(Mode::I2s, left, right, n);
    assert(f == a + w1 + bl + c + w2 + dr);
    lemma_bits_evs_proj(lt, false);
    lemma_bits_evs_proj(rt, true);
    lemma_ws_ev_proj(true, false);
    lemma_ws_ev_proj(false, true);
    lemma_bit_evs_proj(wbit(left, 0), true);
    lemma_bit_evs_proj(wbit(right, 0), false);
    lemma_data_bits_add(a, w1);
    lemma_ws_levels_add(a, w1, false);
    lemma_ws_after_add(a, w1, false);
    lemma_data_bits_add(a + w1, bl);
    lemma_ws_levels_add(a + w1, bl, false);
    lemma_ws_after_add(a + w1, bl, false);
    lemma_data_bits_add(a + w1 + bl, c);
    lemma_ws_levels_add(a + w1 + bl, c, false);
    lemma_ws_after_add(a + w1 + bl, c, false);
    lemma_data_bits_add(a + w1 + bl + c, w2);
    lemma_ws_levels_add(a + w1 + bl + c, w2, false);
    lemma_ws_after_add(a + w1 + bl + c, w2, false);
    lemma_data_bits_add(a + w1 + bl + c + w2, dr);
    lemma_ws_levels_add(a + w1 + bl + c + w2, dr, false);
    lemma_ws_after_add(a + w1 + bl + c + w2, dr, false);
    assert(msb_bits(left, n) =~= lt.push(wbit(left, 0)));
    assert(msb_bits(right, n) =~= rt.push(wbit(right, 0)));
    assert(data_bits(f) =~= msb_bits(left, n) + msb_bits(right, n));
    assert(ws_levels(f, false) =~= Seq::new(2 * n, |k: int| n - 1 <= k < 2 * n - 1));
}

/// Left-justified framing law. A frame carries the left word's `n` bits
/// then the right word's `n` bits, MSB-first. Starting from word-select
/// low, the level is low at every bit of the left word and high at every
/// bit of the right word, with no edge mid-word; word-select returns low
/// only after the right word's final bit.
pub proof fn lemma_left_justified_framing(left: u32, right: u32, n: nat)
    requires
        1 <= n <= 32,
    ensures
        data_bits(frame_evs(Mode::LeftJustified, left, right, n)) == msb_bits(left, n) + msb_bits(
            right,
            n,
        ),
        ws_levels(frame_evs(Mode::LeftJustified, left, right, n), false) == Seq::new(
            2 * n,
            |k: int| k >= n,
        ),
        ws_after(frame_evs(Mode::LeftJustified, left, right, n), false) == false,
{
    let a = bits_evs(msb_bits(left, n));
    let w1 = seq![I2sEvent::Ws(true)];
    let c = bits_evs(msb_bits(right, n));
    let w2 = seq![I2sEvent::Ws(false)];
    let f = frame_evs(Mode::LeftJustified, left, right, n);
    assert(f == a + w1 + c + w2);
    lemma_bits_evs_proj(msb_bits(left, n), false);
    lemma_bits_evs_proj(msb_bits(right, n), true);
    lemma_ws_ev_proj(true, false);
    lemma_ws_ev_proj(false, true);
    lemma_data_bits_add(a, w1);
    lemma_ws_levels_add(a, w1, false);
    lemma_ws_after_add(a, w1, false);
    lemma_data_bits_add(a + w1, c);
    lemma_ws_levels_add(a + w1, c, false);
    lemma_ws_after_add(a + w1, c, false);
    lemma_data_bits_add(a + w1 + c, w2);
    lemma_ws_levels_add(a + w1 + c, w2, false);
    lemma_ws_after_add(a + w1 + c, w2, false);
    assert(data_bits(f) =~= msb_bits(left, n) + msb_bits(right, n));
    assert(ws_levels(f, false) =~= Seq::new(2 * n, |k: int| k >= n));
}

} // verus!
