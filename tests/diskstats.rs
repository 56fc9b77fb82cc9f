use sysmon::diskstats::{disk_io_totals, parse_field, physical_device, split_words};

const SAMPLE: &str = "   8       0 sda 1000 20 3000 400 500 60 7000 800 0 900 1000 0 0 0 0\n   8       1 sda1 10 0 30 4 5 0 70 8 0 9 10 0 0 0 0\n 259       0 nvme0n1 100 0 200 0 0 0 50 0 0 0 0 0 0 0 0\n 259       1 nvme0n1p1 1 0 2 0 0 0 5 0 0 0 0\n 253       0 vda 9 0 11 0 0 0 13 0 0 0 0 0 0 0\n   7       0 loop0 5 0 99 0 0 0 99 0 0 0 0 0 0 0\n";

#[test]
fn diskstats_sums_whole_devices() {
    assert_eq!(disk_io_totals(SAMPLE.as_bytes()), (3000 + 200 + 11, 7000 + 50 + 13));
}

#[test]
fn diskstats_skips_short_and_unreadable_lines() {
    let text = "8 0 sda 1 2 3 4 5 6 7 8 9 10\n8 0 sdb 1 2 x 4 5 6 7 8 9 10 11\n8 0 sdc 1 2 +5 4 5 6 9 8 9 10 11\r\n";
    assert_eq!(disk_io_totals(text.as_bytes()), (5, 9));
    assert_eq!(disk_io_totals(b""), (0, 0));
}

#[test]
fn diskstats_without_final_newline() {
    let text = "8 0 vdb 1 2 40 4 5 6 70 8 9 10 11";
    assert_eq!(disk_io_totals(text.as_bytes()), (40, 70));
}

#[test]
fn fields_parse_like_unsigned_integers() {
    assert_eq!(parse_field(&b"123".to_vec()), Some(123));
    assert_eq!(parse_field(&b"+7".to_vec()), Some(7));
    assert_eq!(parse_field(&b"+".to_vec()), None);
    assert_eq!(parse_field(&b"".to_vec()), None);
    assert_eq!(parse_field(&b"-1".to_vec()), None);
    assert_eq!(parse_field(&b"18446744073709551615".to_vec()), Some(u64::MAX));
    assert_eq!(parse_field(&b"18446744073709551616".to_vec()), None);
}

#[test]
fn device_names_and_words() {
    assert!(physical_device(&b"sda".to_vec()));
    assert!(!physical_device(&b"sda2".to_vec()));
    assert!(physical_device(&b"nvme1n1".to_vec()));
    assert!(!physical_device(&b"nvme1n1p3".to_vec()));
    assert!(!physical_device(&b"dm-0".to_vec()));
    let words = split_words(&b"  a bc\t d  ".to_vec());
    assert_eq!(words, vec![b"a".to_vec(), b"bc".to_vec(), b"d".to_vec()]);
}
