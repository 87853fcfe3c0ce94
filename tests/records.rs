use bitfield::{
    is_legal_width, read_bits, write_bits, Bits, FieldSpec, KnownSize, Layout, PackedRecord,
    SchemaError, Specifier, TotalSize, Zero,
};

fn schema(fields: &[(&str, usize)]) -> Vec<FieldSpec> {
    fields.iter().map(|(n, w)| FieldSpec::new(n, *w)).collect()
}

fn record(fields: &[(&str, usize)]) -> PackedRecord {
    PackedRecord::new(Layout::resolve(schema(fields)).expect("valid schema"))
}

#[test]
fn single_byte_scenario() {
    let mut r = record(&[("a", 1), ("b", 3), ("c", 4)]);
    assert!(r.set_field("a", 1));
    assert!(r.set_field("b", 5));
    assert!(r.set_field("c", 9));
    assert_eq!(r.as_bytes(), &[155u8][..]);
    assert_eq!(r.as_bytes()[0], 0x9B);
    assert_eq!(r.get_field("a"), Some(1));
    assert_eq!(r.get_field("b"), Some(5));
    assert_eq!(r.get_field("c"), Some(9));
}

#[test]
fn cross_byte_scenario() {
    let mut r = record(&[("x", 5), ("y", 5), ("z", 6)]);
    assert_eq!(r.as_bytes().len(), 2);
    assert!(r.set_field("y", 31));
    assert_eq!(r.get_field("x"), Some(0));
    assert_eq!(r.get_field("z"), Some(0));
    assert_eq!(r.get_field("y"), Some(31));
    assert_eq!(r.as_bytes(), &[0b1110_0000u8, 0b0000_0011][..]);
}

#[test]
fn size_validation_boundary() {
    assert_eq!(
        Layout::resolve(schema(&[("a", 3), ("b", 4)])).err(),
        Some(SchemaError::Misaligned { total_bits: 7 })
    );
    assert!(Layout::resolve(schema(&[("a", 8)])).is_ok());
    assert!(Layout::resolve(schema(&[("a", 7), ("b", 9)])).is_ok());
    let mut wide: Vec<(String, usize)> = (0..12).map(|i| (format!("f{i}"), 64)).collect();
    wide.push(("tail".to_string(), 40));
    let specs: Vec<FieldSpec> = wide.iter().map(|(n, w)| FieldSpec::new(n, *w)).collect();
    let layout = Layout::resolve(specs).expect("808 bits");
    assert_eq!(layout.total_bits(), 808);
    assert_eq!(PackedRecord::new(layout).as_bytes().len(), 101);
}

#[test]
fn round_trip_every_width_and_offset() {
    let mut r = record(&[("lo", 64), ("hi", 64)]);
    for w in 1..=64usize {
        for o in 0..=(128 - w) {
            let max = if w == 64 { u64::MAX } else { (1u64 << w) - 1 };
            for v in [0, 1, max, max / 3, 0x5555_5555_5555_5555 & max] {
                r.write(o, w, v);
                assert_eq!(r.read(o, w), v, "width {w} offset {o} value {v}");
            }
        }
    }
}

#[test]
fn writing_one_field_keeps_its_neighbours() {
    let mut r = record(&[("p", 3), ("q", 7), ("s", 13), ("t", 1), ("u", 8)]);
    let names = ["p", "q", "s", "t", "u"];
    let values = [5u64, 100, 8000, 1, 200];
    for (n, v) in names.iter().zip(values) {
        assert!(r.set_field(n, v));
    }
    for (i, n) in names.iter().enumerate() {
        let before: Vec<u64> = names.iter().map(|m| r.get_field(m).unwrap()).collect();
        assert!(r.set_field(n, u64::MAX));
        for (j, m) in names.iter().enumerate() {
            if i != j {
                assert_eq!(r.get_field(m), Some(before[j]));
            }
        }
        assert!(r.set_field(n, values[i]));
    }
    assert_eq!(r.get_at(2), 8000);
}

#[test]
fn high_bits_of_a_value_are_dropped() {
    let mut a = record(&[("x", 5), ("y", 11)]);
    let mut b = record(&[("x", 5), ("y", 11)]);
    a.set_at(1, 0xFFFF_0000_0000_1234);
    b.set_at(1, 0xFFFF_0000_0000_1234 % (1 << 11));
    assert_eq!(a.as_bytes(), b.as_bytes());
    assert_eq!(a.get_at(1), 0x1234 % 2048);
    assert_eq!(a.get_at(0), 0);
    a.set_at(0, 0b1110_0001);
    assert_eq!(a.get_at(0), 1);
}

#[test]
fn zero_width_is_a_no_op() {
    let mut r = record(&[("a", 4), ("b", 12)]);
    r.set_at(0, 0xA);
    r.set_at(1, 0xBCD);
    let bytes = r.as_bytes().to_vec();
    for offset in 0..=16 {
        assert_eq!(r.get::<Zero>(offset), 0);
        r.set::<Zero>(offset, u64::MAX);
        assert_eq!(r.as_bytes(), &bytes[..]);
    }
    assert_eq!(Zero::bits(), 0);
    assert_eq!(r.get_at(0), 0xA);
    assert_eq!(r.get_at(1), 0xBCD);
}

#[test]
fn typed_widths() {
    let mut r = record(&[("a", 3), ("b", 13)]);
    assert_eq!(Bits::<13>::bits(), 13);
    r.set::<Bits<13>>(3, 0x1ABC);
    assert_eq!(r.get::<Bits<13>>(3), 0x1ABC);
    assert_eq!(r.get_field("b"), Some(0x1ABC));
    assert_eq!(r.get::<Bits<3>>(0), 0);
}

#[test]
fn whole_byte_and_mid_byte_fields() {
    let mut r = record(&[("pad", 4), ("wide", 64), ("rest", 4), ("byte", 8)]);
    assert_eq!(r.as_bytes().len(), 10);
    r.set_field("wide", 0x0123_4567_89AB_CDEF);
    r.set_field("byte", 0xA5);
    assert_eq!(r.get_field("wide"), Some(0x0123_4567_89AB_CDEF));
    assert_eq!(r.get_field("byte"), Some(0xA5));
    assert_eq!(r.as_bytes()[9], 0xA5);
    assert_eq!(r.as_bytes()[8], 0x00);
    assert_eq!(r.as_bytes()[0], 0xF0);
    assert_eq!(r.get_field("pad"), Some(0));
    assert_eq!(r.get_field("rest"), Some(0));
}

#[test]
fn new_records_are_zero_and_independent() {
    let layout = Layout::resolve(schema(&[("a", 16)])).unwrap();
    let layout2 = Layout::resolve(schema(&[("a", 16)])).unwrap();
    let mut r1 = PackedRecord::new(layout);
    let r2 = PackedRecord::new(layout2);
    assert_eq!(r1.as_bytes(), &[0u8, 0][..]);
    r1.set_field("a", 0xBEEF);
    assert_eq!(r1.as_bytes(), &[0xEFu8, 0xBE][..]);
    assert_eq!(r2.get_field("a"), Some(0));
}

#[test]
fn unknown_names() {
    let mut r = record(&[("a", 8)]);
    assert_eq!(r.get_field("b"), None);
    assert!(!r.set_field("b", 3));
    assert_eq!(r.as_bytes(), &[0u8][..]);
}

#[test]
fn schema_errors() {
    assert_eq!(
        Layout::resolve(schema(&[("a", 8), ("b", 0), ("c", 65)])).err(),
        Some(SchemaError::InvalidWidth { index: 1, width: 0 })
    );
    assert_eq!(
        Layout::resolve(schema(&[("a", 8), ("b", 65)])).err(),
        Some(SchemaError::InvalidWidth { index: 1, width: 65 })
    );
    assert_eq!(
        Layout::resolve(schema(&[("a", 4), ("b", 4), ("a", 8), ("b", 8)])).err(),
        Some(SchemaError::DuplicateField { index: 2 })
    );
    assert_eq!(
        Layout::resolve(schema(&[("a", 4), ("a", 3)])).err(),
        Some(SchemaError::DuplicateField { index: 1 })
    );
    assert_eq!(
        Layout::resolve(schema(&[("a", 64), ("b", 1)])).err(),
        Some(SchemaError::Misaligned { total_bits: 65 })
    );
}

#[test]
fn layout_offsets_are_prefix_sums() {
    let layout = Layout::resolve(schema(&[("a", 1), ("b", 3), ("c", 12)])).unwrap();
    assert_eq!(layout.len(), 3);
    assert_eq!(layout.offset(0), 0);
    assert_eq!(layout.offset(1), 1);
    assert_eq!(layout.offset(2), 4);
    assert_eq!(layout.width(2), 12);
    assert_eq!(layout.index_of("c"), Some(2));
    assert_eq!(layout.index_of("d"), None);
    assert_eq!(layout.total_size(), TotalSize { bits: 16 });
    let r = PackedRecord::new(layout);
    assert_eq!(r.total_size().bits, 16);
    assert_eq!(r.get_layout().total_bits(), 16);
}

#[test]
fn width_registry() {
    assert!(!is_legal_width(0));
    assert!(is_legal_width(1));
    assert!(is_legal_width(64));
    assert!(!is_legal_width(65));
    let t = TotalSize { bits: 24 };
    assert!(t.is_multiple_of_8());
    assert_eq!(t.byte_len(), 3);
    assert!(!TotalSize { bits: 7 }.is_multiple_of_8());
}

#[test]
fn engine_on_plain_buffers() {
    let mut buf = vec![0xFFu8; 3];
    write_bits(&mut buf, 6, 10, 0);
    assert_eq!(buf, vec![0x3F, 0x00, 0xFF]);
    write_bits(&mut buf, 6, 10, 0x2AB);
    assert_eq!(read_bits(&buf, 6, 10), 0x2AB);
    assert_eq!(read_bits(&buf, 0, 6), 0x3F);
    assert_eq!(read_bits(&buf, 16, 8), 0xFF);
    assert_eq!(read_bits(&buf, 0, 24), 0xFF_AA_FF);
}
