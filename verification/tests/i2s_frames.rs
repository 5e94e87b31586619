use bitbang::i2s::{Error, I2s, I2sEvent, Mode};
use bitbang::sim::SimI2sPins;

fn bit_events(b: bool) -> Vec<I2sEvent> {
    vec![
        I2sEvent::Sd(b),
        I2sEvent::Tick,
        I2sEvent::Sck(true),
        I2sEvent::Tick,
        I2sEvent::Sck(false),
    ]
}

fn word_bits_msb(w: u32, n: u32) -> Vec<bool> {
    (0..n).map(|k| (w >> (n - 1 - k)) & 1 == 1).collect()
}

fn standard_frame(l: u32, r: u32, n: u32) -> Vec<I2sEvent> {
    let lb = word_bits_msb(l, n);
    let rb = word_bits_msb(r, n);
    let mut v = Vec::new();
    for k in 0..(n - 1) as usize {
        v.extend(bit_events(lb[k]));
    }
    v.push(I2sEvent::Ws(true));
    v.extend(bit_events(lb[(n - 1) as usize]));
    for k in 0..(n - 1) as usize {
        v.extend(bit_events(rb[k]));
    }
    v.push(I2sEvent::Ws(false));
    v.extend(bit_events(rb[(n - 1) as usize]));
    v
}

fn left_justified_frame(l: u32, r: u32, n: u32) -> Vec<I2sEvent> {
    let mut v = Vec::new();
    for b in word_bits_msb(l, n) {
        v.extend(bit_events(b));
    }
    v.push(I2sEvent::Ws(true));
    for b in word_bits_msb(r, n) {
        v.extend(bit_events(b));
    }
    v.push(I2sEvent::Ws(false));
    v
}

fn data_bits_of(log: &[I2sEvent]) -> Vec<bool> {
    log.iter()
        .filter_map(|e| match e {
            I2sEvent::Sd(b) => Some(*b),
            _ => None,
        })
        .collect()
}

fn ws_level_at_each_bit(log: &[I2sEvent]) -> Vec<bool> {
    let mut ws = false;
    let mut levels = Vec::new();
    for e in log {
        match e {
            I2sEvent::Ws(b) => ws = *b,
            I2sEvent::Sd(_) => levels.push(ws),
            _ => {}
        }
    }
    levels
}

#[test]
fn standard_framing_8bit() {
    let mut dev = I2s::new(Mode::I2s, SimI2sPins::new());
    dev.try_write_words(0xAB, 0xCD, 8).unwrap();
    assert_eq!(dev.pins.log, standard_frame(0xAB, 0xCD, 8));
    // word-select rises exactly once, after 7 bits of the left word, and
    // falls exactly once, after 7 bits of the right word
    let levels = ws_level_at_each_bit(&dev.pins.log);
    let expected: Vec<bool> = (0..16).map(|k| (7..15).contains(&k)).collect();
    assert_eq!(levels, expected);
    let ws_events: Vec<&I2sEvent> = dev
        .pins
        .log
        .iter()
        .filter(|e| matches!(e, I2sEvent::Ws(_)))
        .collect();
    assert_eq!(ws_events.len(), 2);
}

#[test]
fn left_justified_framing_8bit() {
    let mut dev = I2s::new(Mode::LeftJustified, SimI2sPins::new());
    dev.try_write_words(0xAB, 0xCD, 8).unwrap();
    assert_eq!(dev.pins.log, left_justified_frame(0xAB, 0xCD, 8));
    // word-select is low for exactly the 8 left bits and high for
    // exactly the 8 right bits, with no edge mid-word
    let levels = ws_level_at_each_bit(&dev.pins.log);
    let expected: Vec<bool> = (0..16).map(|k| k >= 8).collect();
    assert_eq!(levels, expected);
}

#[test]
fn msb_first_bit_sequence() {
    // the transmitted data bits read the word from bit n-1 down to bit 0
    for (word, n) in [(0xA5u32, 8u32), (0xBEEF, 16), (0xDEADBEEF, 32)] {
        let mut dev = I2s::new(Mode::LeftJustified, SimI2sPins::new());
        dev.try_write_words(word, 0, n as u8).unwrap();
        let bits = data_bits_of(&dev.pins.log);
        let expected: Vec<bool> = (0..n)
            .map(|k| (word >> (n - 1 - k)) & 1 == 1)
            .chain((0..n).map(|_| false))
            .collect();
        assert_eq!(bits, expected);
    }
}

#[test]
fn write_i16_pairs() {
    let mut dev = I2s::new(Mode::I2s, SimI2sPins::new());
    let left: [i16; 2] = [0x0102, -1];
    let right: [i16; 2] = [0x7FFF, 0];
    dev.try_write_i16(&left, &right).unwrap();
    let mut expected = vec![I2sEvent::Ws(false)];
    expected.extend(standard_frame(0x0102, 0x7FFF, 16));
    expected.extend(standard_frame(0xFFFF, 0x0000, 16));
    assert_eq!(dev.pins.log, expected);
}

#[test]
fn write_i32_pairs() {
    let mut dev = I2s::new(Mode::LeftJustified, SimI2sPins::new());
    let left: [i32; 1] = [-2];
    let right: [i32; 1] = [3];
    dev.try_write_i32(&left, &right).unwrap();
    let mut expected = vec![I2sEvent::Ws(false)];
    expected.extend(left_justified_frame(0xFFFFFFFE, 3, 32));
    assert_eq!(dev.pins.log, expected);
}

#[test]
fn empty_input_writes_nothing() {
    let mut dev = I2s::new(Mode::I2s, SimI2sPins::new());
    let none: [i16; 0] = [];
    dev.try_write_i16(&none, &none).unwrap();
    assert_eq!(dev.pins.log, vec![I2sEvent::Ws(false)]);
    assert!(data_bits_of(&dev.pins.log).is_empty());
}

#[test]
fn pin_failure_stops_mid_frame() {
    let mut dev = I2s::new(Mode::I2s, SimI2sPins::failing_after(3));
    let r = dev.try_write_words(0xAB, 0xCD, 8);
    assert!(matches!(r, Err(Error::Pin(()))));
    // the three successful operations are a prefix of the frame
    assert_eq!(dev.pins.log.len(), 3);
    assert_eq!(dev.pins.log, standard_frame(0xAB, 0xCD, 8)[..3].to_vec());
}

#[test]
fn streaming_write_stops_at_shorter_input() {
    let mut dev = I2s::new(Mode::I2s, SimI2sPins::new());
    let left: [i16; 3] = [0x0102, 0x0304, 0x0506];
    let right: [i16; 1] = [0x0708];
    dev.try_write_iter_i16(&left, &right).unwrap();
    let mut expected = vec![I2sEvent::Ws(false)];
    expected.extend(standard_frame(0x0102, 0x0708, 16));
    assert_eq!(dev.pins.log, expected);
}

#[test]
fn streaming_write_with_empty_side_sends_no_frame() {
    let mut dev = I2s::new(Mode::LeftJustified, SimI2sPins::new());
    let left: [i32; 2] = [1, 2];
    let right: [i32; 0] = [];
    dev.try_write_iter_i32(&left, &right).unwrap();
    assert_eq!(dev.pins.log, vec![I2sEvent::Ws(false)]);
}
