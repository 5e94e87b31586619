//! Software-timed ("bit-banged") serial protocol drivers.
//!
//! Three drivers — I2S audio, asynchronous serial (UART-style), and SPI —
//! built from generic digital-pin and periodic-timer capabilities. Each
//! driver is generic over a pin-bundle trait whose contract records every
//! pin-state change and timer tick in an event trace; the drivers' contracts
//! state exactly which trace each transfer appends.
//!
//! Every pin and timer failure is fatal to the transfer in progress: it is
//! returned to the caller at once, never retried, and the lines are left
//! mid-frame — recovery framing is the caller's concern.

pub mod bits;
pub mod i2s;
pub mod serial;
pub mod sim;
pub mod spi;
pub mod trace;
