use bitbang::serial::{Error, Serial, SerialEvent};
use bitbang::sim::SimSerialPins;

fn lsb_bits(byte: u8) -> Vec<bool> {
    (0..8).map(|k| (byte >> k) & 1 == 1).collect()
}

fn write_frame(byte: u8) -> Vec<SerialEvent> {
    let mut v = vec![SerialEvent::Tx(false), SerialEvent::Tick];
    for b in lsb_bits(byte) {
        v.push(SerialEvent::Tx(b));
        v.push(SerialEvent::Tick);
    }
    v.push(SerialEvent::Tx(true));
    v.push(SerialEvent::Tick);
    v
}

fn tx_levels_at_ticks(log: &[SerialEvent]) -> Vec<bool> {
    let mut level = true;
    let mut wire = Vec::new();
    for e in log {
        match e {
            SerialEvent::Tx(b) => level = *b,
            SerialEvent::Tick => wire.push(level),
            _ => {}
        }
    }
    wire
}

#[test]
fn write_byte_frame() {
    let mut dev = Serial::new(SimSerialPins::new(Vec::new()));
    dev.try_write(0x55).unwrap();
    assert_eq!(dev.pins.log, write_frame(0x55));
    // ten bit periods: start low, data LSB-first, stop high
    let wire = tx_levels_at_ticks(&dev.pins.log);
    assert_eq!(wire.len(), 10);
    assert!(!wire[0]);
    assert!(wire[9]);
    assert_eq!(wire[1..9].to_vec(), lsb_bits(0x55));
}

#[test]
fn read_byte_from_script() {
    // start bit, then the 8 data samples; the first sample lands in the
    // most significant bit of the result
    let mut script = vec![false];
    script.extend([true, false, true, false, false, true, false, true]);
    let mut dev = Serial::new(SimSerialPins::new(script));
    assert_eq!(dev.try_read().unwrap(), 0b1010_0101);
    // one start sample, 8 data samples, 10 ticks in all
    let samples = dev
        .pins
        .log
        .iter()
        .filter(|e| matches!(e, SerialEvent::Rx(_)))
        .count();
    assert_eq!(samples, 9);
    let ticks = dev
        .pins
        .log
        .iter()
        .filter(|e| matches!(e, SerialEvent::Tick))
        .count();
    assert_eq!(ticks, 10);
}

#[test]
fn read_idle_line_would_block() {
    // an idle-high line holds no start condition
    let mut dev = Serial::new(SimSerialPins::new(Vec::new()));
    assert!(matches!(dev.try_read(), Err(Error::WouldBlock)));
    assert_eq!(dev.pins.log, vec![SerialEvent::Rx(true)]);
}

#[test]
fn round_trip_reverses_bit_order() {
    // a reader paced by the same ticks samples the writer's wire levels;
    // the writer sends LSB-first and the reader files the first sample
    // in the most significant position, so the round trip returns the
    // bit-reversed byte for every byte value
    for byte in 0..=255u8 {
        let mut tx = Serial::new(SimSerialPins::new(Vec::new()));
        tx.try_write(byte).unwrap();
        let wire = tx_levels_at_ticks(&tx.pins.log);
        // the reader consumes the start level and the 8 data levels
        let mut rx = Serial::new(SimSerialPins::new(wire[..9].to_vec()));
        assert_eq!(rx.try_read().unwrap(), byte.reverse_bits());
    }
}

#[test]
fn round_trip_identity_on_palindromes() {
    // a byte that is its own bit-reversal comes back unchanged
    for byte in [0x00u8, 0xFF, 0xA5, 0x5A, 0x81, 0x18] {
        assert_eq!(byte.reverse_bits(), byte);
        let mut tx = Serial::new(SimSerialPins::new(Vec::new()));
        tx.try_write(byte).unwrap();
        let wire = tx_levels_at_ticks(&tx.pins.log);
        let mut rx = Serial::new(SimSerialPins::new(wire[..9].to_vec()));
        assert_eq!(rx.try_read().unwrap(), byte);
    }
}

#[test]
fn flush_is_empty() {
    let mut dev = Serial::new(SimSerialPins::new(Vec::new()));
    dev.try_flush().unwrap();
    assert!(dev.pins.log.is_empty());
}

#[test]
fn write_failure_stops_mid_frame() {
    let mut dev = Serial::new(SimSerialPins::failing_after(Vec::new(), 4));
    let r = dev.try_write(0xFF);
    assert!(matches!(r, Err(Error::Bus(()))));
    assert_eq!(dev.pins.log.len(), 4);
    assert_eq!(dev.pins.log, write_frame(0xFF)[..4].to_vec());
}

#[test]
fn read_failure_reports_bus_error() {
    let script = vec![false, true, true, true];
    let mut dev = Serial::new(SimSerialPins::failing_after(script, 5));
    let r = dev.try_read();
    assert!(matches!(r, Err(Error::Bus(()))));
}
