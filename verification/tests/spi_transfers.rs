use bitbang::sim::SimSpiPins;
use bitbang::spi::{BitOrder, Error, Phase, Polarity, SpiEvent, SpiMode, SPI};

fn mode_0() -> SpiMode {
    SpiMode { polarity: Polarity::IdleLow, phase: Phase::SampleLeading }
}

fn mode_1() -> SpiMode {
    SpiMode { polarity: Polarity::IdleLow, phase: Phase::SampleTrailing }
}

fn mode_2() -> SpiMode {
    SpiMode { polarity: Polarity::IdleHigh, phase: Phase::SampleLeading }
}

fn mode_3() -> SpiMode {
    SpiMode { polarity: Polarity::IdleHigh, phase: Phase::SampleTrailing }
}

fn msb_bits(byte: u8) -> Vec<bool> {
    (0..8).map(|k| (byte >> (7 - k)) & 1 == 1).collect()
}

fn lsb_bits(byte: u8) -> Vec<bool> {
    (0..8).map(|k| (byte >> k) & 1 == 1).collect()
}

fn bit_events(mode: SpiMode, b: bool, s: bool) -> Vec<SpiEvent> {
    let mut v = vec![SpiEvent::Mosi(b)];
    match (mode.polarity, mode.phase) {
        (Polarity::IdleLow, Phase::SampleLeading) => v.extend([
            SpiEvent::Tick,
            SpiEvent::Sck(true),
            SpiEvent::Miso(s),
            SpiEvent::Tick,
            SpiEvent::Sck(false),
        ]),
        (Polarity::IdleLow, Phase::SampleTrailing) => v.extend([
            SpiEvent::Sck(true),
            SpiEvent::Tick,
            SpiEvent::Miso(s),
            SpiEvent::Sck(false),
            SpiEvent::Tick,
        ]),
        (Polarity::IdleHigh, Phase::SampleLeading) => v.extend([
            SpiEvent::Tick,
            SpiEvent::Sck(false),
            SpiEvent::Miso(s),
            SpiEvent::Tick,
            SpiEvent::Sck(true),
        ]),
        (Polarity::IdleHigh, Phase::SampleTrailing) => v.extend([
            SpiEvent::Sck(false),
            SpiEvent::Tick,
            SpiEvent::Miso(s),
            SpiEvent::Sck(true),
            SpiEvent::Tick,
        ]),
    }
    v
}

fn mosi_bits_of(log: &[SpiEvent]) -> Vec<bool> {
    log.iter()
        .filter_map(|e| match e {
            SpiEvent::Mosi(b) => Some(*b),
            _ => None,
        })
        .collect()
}

#[test]
fn mode0_send_ff_with_miso_high_reads_ff() {
    // an empty script leaves the data-in line constant high
    let mut dev = SPI::new(mode_0(), SimSpiPins::new(Vec::new()));
    dev.try_send(0xFF).unwrap();
    assert_eq!(dev.try_read().unwrap(), 0xFF);
}

#[test]
fn read_before_send_is_no_data() {
    let mut dev = SPI::new(mode_0(), SimSpiPins::new(Vec::new()));
    assert!(matches!(dev.try_read(), Err(Error::NoData)));
}

#[test]
fn mode_sequences_msb_first() {
    for mode in [mode_0(), mode_1(), mode_2(), mode_3()] {
        let script = vec![true, false, true, false, true, false, true, false];
        let mut dev = SPI::new(mode, SimSpiPins::new(script.clone()));
        dev.try_send(0xF0).unwrap();
        let idle = matches!(mode.polarity, Polarity::IdleHigh);
        let mut expected = vec![SpiEvent::Sck(idle)];
        for (k, b) in msb_bits(0xF0).into_iter().enumerate() {
            expected.extend(bit_events(mode, b, script[k]));
        }
        assert_eq!(dev.pins.log, expected);
        // the first sample lands in the most significant position
        assert_eq!(dev.try_read().unwrap(), 0b1010_1010);
    }
}

#[test]
fn received_byte_assembles_samples_msb_first() {
    let script = vec![false, true, true, false, true, false, false, true];
    let mut dev = SPI::new(mode_1(), SimSpiPins::new(script));
    dev.try_send(0x00).unwrap();
    assert_eq!(dev.try_read().unwrap(), 0b0110_1001);
}

#[test]
fn last_completed_byte_is_kept() {
    let mut script = vec![false, false, false, false, false, false, false, true];
    script.extend([true, false, false, false, false, false, false, false]);
    let mut dev = SPI::new(mode_0(), SimSpiPins::new(script));
    dev.try_send(0x12).unwrap();
    assert_eq!(dev.try_read().unwrap(), 0x01);
    dev.try_send(0x34).unwrap();
    assert_eq!(dev.try_read().unwrap(), 0x80);
}

#[test]
fn bit_orders_transmit_exact_reversals() {
    let byte = 0xB4u8;
    let mut msb_dev = SPI::new(mode_0(), SimSpiPins::new(Vec::new()));
    msb_dev.try_send(byte).unwrap();
    let mut lsb_dev = SPI::new(mode_0(), SimSpiPins::new(Vec::new()));
    lsb_dev.set_bit_order(BitOrder::LSBFirst);
    lsb_dev.try_send(byte).unwrap();
    let msb_sent = mosi_bits_of(&msb_dev.pins.log);
    let lsb_sent = mosi_bits_of(&lsb_dev.pins.log);
    let mut reversed = msb_sent.clone();
    reversed.reverse();
    assert_eq!(lsb_sent, reversed);
    assert_eq!(msb_sent, msb_bits(byte));
    assert_eq!(lsb_sent, lsb_bits(byte));
}

#[test]
fn receive_order_independent_of_transmit_order() {
    let script = vec![true, true, false, false, true, false, true, false];
    let mut msb_dev = SPI::new(mode_2(), SimSpiPins::new(script.clone()));
    msb_dev.try_send(0x5A).unwrap();
    let mut lsb_dev = SPI::new(mode_2(), SimSpiPins::new(script));
    lsb_dev.set_bit_order(BitOrder::LSBFirst);
    lsb_dev.try_send(0x5A).unwrap();
    assert_eq!(msb_dev.try_read().unwrap(), lsb_dev.try_read().unwrap());
    assert_eq!(msb_dev.try_read().unwrap(), 0b1100_1010);
}

#[test]
fn default_bit_order_is_msb_first() {
    assert_eq!(BitOrder::default(), BitOrder::MSBFirst);
}

#[test]
fn construction_drives_idle_clock_level() {
    // constructing twice with the same polarity drives the same level
    let low_a = SPI::new(mode_0(), SimSpiPins::new(Vec::new()));
    let low_b = SPI::new(mode_1(), SimSpiPins::new(Vec::new()));
    assert_eq!(low_a.pins.log, vec![SpiEvent::Sck(false)]);
    assert_eq!(low_a.pins.log, low_b.pins.log);
    let high_a = SPI::new(mode_2(), SimSpiPins::new(Vec::new()));
    let high_b = SPI::new(mode_3(), SimSpiPins::new(Vec::new()));
    assert_eq!(high_a.pins.log, vec![SpiEvent::Sck(true)]);
    assert_eq!(high_a.pins.log, high_b.pins.log);
}

#[test]
fn send_failure_stops_mid_transfer() {
    // the construction op succeeds, then four more, then failure
    let mut dev = SPI::new(mode_0(), SimSpiPins::failing_after(Vec::new(), 5));
    let r = dev.try_send(0xFF);
    assert!(matches!(r, Err(Error::Bus(()))));
    assert_eq!(dev.pins.log.len(), 5);
}
