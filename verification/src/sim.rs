//! Simulated pin bundles.
//!
//! Each simulator implements a driver's pin-bundle trait by appending
//! every action to an ordinary vector — its event trace is exactly that
//! vector — so a test can run a driver against a simulator and inspect
//! what appeared on the lines. Input lines read from a finite script of
//! levels and idle high past its end. Operations can be made to start
//! failing after a chosen count, to exercise the drivers' error paths.

use vstd::prelude::*;
use crate::i2s::{I2sEvent, I2sPins};
use crate::serial::{SerialEvent, SerialPins};
use crate::spi::{SpiEvent, SpiPins};

verus! {

/// A simulated I2S pin bundle: three output lines and a timer whose
/// ticks elapse instantly.
pub struct SimI2sPins {
    /// Every event performed, oldest first.
    pub log: Vec<I2sEvent>,
    /// How many more operations succeed; `None` means all do.
    pub fail_after: Option<usize>,
}

impl SimI2sPins {
    /// A simulator on which every operation succeeds.
    pub fn new() -> (r: Self)
        ensures
            r.log@ == Seq::<I2sEvent>::empty(),
    {
        SimI2sPins { log: Vec::new(), fail_after: None }
    }

    /// A simulator on which the first `count` operations succeed and
    /// every later one fails.
    pub fn failing_after(count: usize) -> (r: Self)
        ensures
            r.log@ == Seq::<I2sEvent>::empty(),
    {
        SimI2sPins { log: Vec::new(), fail_after: Some(count) }
    }

    /// Count one operation; false when it must fail.
    fn step(&mut self) -> (ok: bool)
        ensures
            final(self).log == old(self).log,
    {
        match self.fail_after {
            None => true,
            Some(0) => false,
            Some(k) => {
                self.fail_after = Some(k - 1);
                true
            },
        }
    }
}

impl I2sPins for SimI2sPins {
    type Error = ();

    open spec fn events(&self) -> Seq<I2sEvent> {
        self.log@
    }

    fn set_sd(&mut self, level: bool) -> (r: Result<(), ()>) {
        if self.step() {
            self.log.push(I2sEvent::Sd(level));
            Ok(())
        } else {
            Err(())
        }
    }

    fn set_sck(&mut self, level: bool) -> (r: Result<(), ()>) {
        if self.step() {
            self.log.push(I2sEvent::Sck(level));
            Ok(())
        } else {
            Err(())
        }
    }

    fn set_ws(&mut self, level: bool) -> (r: Result<(), ()>) {
        if self.step() {
            self.log.push(I2sEvent::Ws(level));
            Ok(())
        } else {
            Err(())
        }
    }

    fn wait(&mut self) -> (r: Result<(), ()>) {
        if self.step() {
            self.log.push(I2sEvent::Tick);
            Ok(())
        } else {
            Err(())
        }
    }
}

/// A simulated serial pin bundle: a transmit line, a scripted receive
/// line, and a timer whose ticks elapse instantly.
pub struct SimSerialPins {
    /// Every event performed, oldest first.
    pub log: Vec<SerialEvent>,
    /// The levels the receive line reads, in order; past the end the
    /// line idles high.
    pub rx_script: Vec<bool>,
    /// The next script position.
    pub rx_pos: usize,
    /// How many more operations succeed; `None` means all do.
    pub fail_after: Option<usize>,
}

impl SimSerialPins {
    /// A simulator whose receive line will read the given levels; every
    /// operation succeeds.
    pub fn new(rx_script: Vec<bool>) -> (r: Self)
        ensures
            r.log@ == Seq::<SerialEvent>::empty(),
            r.rx_script@ == rx_script@,
            r.rx_pos == 0,
    {
        SimSerialPins { log: Vec::new(), rx_script, rx_pos: 0, fail_after: None }
    }

    /// A simulator with a scripted receive line on which the first
    /// `count` operations succeed and every later one fails.
    pub fn failing_after(rx_script: Vec<bool>, count: usize) -> (r: Self)
        ensures
            r.log@ == Seq::<SerialEvent>::empty(),
            r.rx_script@ == rx_script@,
            r.rx_pos == 0,
    {
        SimSerialPins { log: Vec::new(), rx_script, rx_pos: 0, fail_after: Some(count) }
    }

    /// Count one operation; false when it must fail.
    fn step(&mut self) -> (ok: bool)
        ensures
            final(self).log == old(self).log,
            final(self).rx_script == old(self).rx_script,
            final(self).rx_pos == old(self).rx_pos,
    {
        match self.fail_after {
            None => true,
            Some(0) => false,
            Some(k) => {
                self.fail_after = Some(k - 1);
                true
            },
        }
    }
}

impl SerialPins for SimSerialPins {
    type Error = ();

    open spec fn events(&self) -> Seq<SerialEvent> {
        self.log@
    }

    fn set_tx(&mut self, level: bool) -> (r: Result<(), ()>) {
        if self.step() {
            self.log.push(SerialEvent::Tx(level));
            Ok(())
        } else {
            Err(())
        }
    }

    fn rx_is_high(&mut self) -> (r: Result<bool, ()>) {
        if self.step() {
            let level = if self.rx_pos < self.rx_script.len() {
                let l = self.rx_script[self.rx_pos];
                self.rx_pos = self.rx_pos + 1;
                l
            } else {
                true
            };
            self.log.push(SerialEvent::Rx(level));
            Ok(level)
        } else {
            Err(())
        }
    }

    fn wait(&mut self) -> (r: Result<(), ()>) {
        if self.step() {
            self.log.push(SerialEvent::Tick);
            Ok(())
        } else {
            Err(())
        }
    }
}

/// A simulated SPI pin bundle: data-out and clock lines, a scripted
/// data-in line, and a timer whose ticks elapse instantly.
pub struct SimSpiPins {
    /// Every event performed, oldest first.
    pub log: Vec<SpiEvent>,
    /// The levels the data-in line reads, in order; past the end the
    /// line idles high.
    pub miso_script: Vec<bool>,
    /// The next script position.
    pub miso_pos: usize,
    /// How many more operations succeed; `None` means all do.
    pub fail_after: Option<usize>,
}

impl SimSpiPins {
    /// A simulator whose data-in line will read the given levels; every
    /// operation succeeds.
    pub fn new(miso_script: Vec<bool>) -> (r: Self)
        ensures
            r.log@ == Seq::<SpiEvent>::empty(),
            r.miso_script@ == miso_script@,
            r.miso_pos == 0,
    {
        SimSpiPins { log: Vec::new(), miso_script, miso_pos: 0, fail_after: None }
    }

    /// A simulator with a scripted data-in line on which the first
    /// `count` operations succeed and every later one fails.
    pub fn failing_after(miso_script: Vec<bool>, count: usize) -> (r: Self)
        ensures
            r.log@ == Seq::<SpiEvent>::empty(),
            r.miso_script@ == miso_script@,
            r.miso_pos == 0,
    {
        SimSpiPins { log: Vec::new(), miso_script, miso_pos: 0, fail_after: Some(count) }
    }

    /// Count one operation; false when it must fail.
    fn step(&mut self) -> (ok: bool)
        ensures
            final(self).log == old(self).log,
            final(self).miso_script == old(self).miso_script,
            final(self).miso_pos == old(self).miso_pos,
    {
        match self.fail_after {
            None => true,
            Some(0) => false,
            Some(k) => {
                self.fail_after = Some(k - 1);
                true
            },
        }
    }
}

impl SpiPins for SimSpiPins {
    type Error = ();

    open spec fn events(&self) -> Seq<SpiEvent> {
        self.log@
    }

    fn set_mosi(&mut self, level: bool) -> (r: Result<(), ()>) {
        if self.step() {
            self.log.push(SpiEvent::Mosi(level));
            Ok(())
        } else {
            Err(())
        }
    }

    fn set_sck(&mut self, level: bool) -> (r: Result<(), ()>) {
        if self.step() {
            self.log.push(SpiEvent::Sck(level));
            Ok(())
        } else {
            Err(())
        }
    }

    fn miso_is_high(&mut self) -> (r: Result<bool, ()>) {
        if self.step() {
            let level = if self.miso_pos < self.miso_script.len() {
                let l = self.miso_script[self.miso_pos];
                self.miso_pos = self.miso_pos + 1;
                l
            } else {
                true
            };
            self.log.push(SpiEvent::Miso(level));
            Ok(level)
        } else {
            Err(())
        }
    }

    fn wait(&mut self) -> (r: Result<(), ()>) {
        if self.step() {
            self.log.push(SpiEvent::Tick);
            Ok(())
        } else {
            Err(())
        }
    }
}

} // verus!
