use capsize::{Bytes, Capacity, EXABYTE, KILOBYTE, MEGABYTE, PETABYTE};

fn parsed(s: &str) -> Result<i64, String> {
    Bytes::parse(s).map(|b| b.bytes())
}

#[test]
fn conversions_scale_by_powers_of_1024() {
    assert_eq!(3.bytes(), 3);
    assert_eq!(3.kilobytes(), 3 * 1024);
    assert_eq!(3.megabytes(), 3 * 1024 * 1024);
    assert_eq!(3.gigabytes(), 3 * 1024 * 1024 * 1024);
    assert_eq!(3.terabytes(), 3 * 1024_i64.pow(4));
    assert_eq!(3.petabytes(), 3 * 1024_i64.pow(5));
    assert_eq!(7.exabytes(), 7 * 1024_i64.pow(6));
    assert_eq!(0.exabytes(), 0);
    assert_eq!((-2).kilobytes(), -2048);
}

#[test]
fn conversions_on_bytes_values() {
    let b = Bytes::from(5);
    assert_eq!(b.bytes(), 5);
    assert_eq!(b.kilobytes(), 5120);
    assert_eq!(b.megabytes(), 5 * MEGABYTE);
    let c: Bytes = 2.into();
    assert_eq!(c.petabytes(), 2 * PETABYTE);
}

#[test]
fn format_exact_units() {
    assert_eq!(1024.capacity(), "1K");
    assert_eq!(MEGABYTE.capacity(), "1M");
    assert_eq!(1.gigabytes().capacity(), "1G");
    assert_eq!(1.terabytes().capacity(), "1T");
    assert_eq!(PETABYTE.capacity(), "1P");
    assert_eq!(EXABYTE.capacity(), "1E");
}

#[test]
fn format_below_a_kilobyte_is_decimal() {
    assert_eq!(500.capacity(), "500");
    assert_eq!(0.capacity(), "0");
    assert_eq!(7.capacity(), "7");
    assert_eq!(1023.capacity(), "1023");
    assert_eq!((-5).capacity(), "-5");
    assert_eq!(i64::MIN.capacity(), "-9223372036854775808");
}

#[test]
fn format_fractions() {
    assert_eq!(1536.capacity(), "1.5K");
    assert_eq!(2048.capacity(), "2.0K");
    assert_eq!(1280.capacity(), "1.2K");
    assert_eq!(1177.capacity(), "1.1K");
    assert_eq!(1100.capacity(), "1.1K");
    assert_eq!((MEGABYTE - 1).capacity(), "1024.0K");
    assert_eq!((4 * MEGABYTE + 100 * KILOBYTE).capacity(), "4.1M");
    assert_eq!(i64::MAX.capacity(), "8.0E");
}

#[test]
fn format_is_deterministic() {
    let n = 3 * MEGABYTE + 7;
    assert_eq!(n.capacity(), n.capacity());
    assert_eq!(Bytes::from(n).capacity(), n.capacity());
}

#[test]
fn parse_with_suffix() {
    assert_eq!(parsed("4K"), Ok(4096));
    assert_eq!(parsed("2M"), Ok(2 * MEGABYTE));
    assert_eq!(parsed("3G"), Ok(3 * 1024 * 1024 * 1024));
    assert_eq!(parsed("1T"), Ok(1024_i64.pow(4)));
    assert_eq!(parsed("5P"), Ok(5 * PETABYTE));
    assert_eq!(parsed("7E"), Ok(7 * EXABYTE));
    assert_eq!(parsed("-8E"), Ok(i64::MIN));
    assert_eq!(parsed("+2K"), Ok(2048));
}

#[test]
fn parse_plain_integers() {
    assert_eq!(parsed("1048576"), Ok(1048576));
    assert_eq!(parsed("0"), Ok(0));
    assert_eq!(parsed("7"), Ok(7));
    assert_eq!(parsed("-12"), Ok(-12));
    assert_eq!(parsed("9223372036854775807"), Ok(i64::MAX));
    assert_eq!(parsed("-9223372036854775808"), Ok(i64::MIN));
}

#[test]
fn parse_errors_carry_the_text() {
    assert_eq!(parsed("abc"), Err("abc".to_owned()));
    assert_eq!(parsed("4Z"), Err("4Z".to_owned()));
    assert_eq!(parsed(""), Err("".to_owned()));
    assert_eq!(parsed("K"), Err("K".to_owned()));
    assert_eq!(parsed("-"), Err("-".to_owned()));
    assert_eq!(parsed("-K"), Err("-K".to_owned()));
    assert_eq!(parsed("4k"), Err("4k".to_owned()));
    assert_eq!(parsed(" 4K"), Err(" 4K".to_owned()));
    assert_eq!(parsed("9223372036854775808"), Err("9223372036854775808".to_owned()));
    assert_eq!(parsed("99999999999999999999999"), Err("99999999999999999999999".to_owned()));
    assert_eq!(parsed("8E"), Err("8E".to_owned()));
    assert_eq!(parsed("é"), Err("é".to_owned()));
}

#[test]
fn parse_does_not_read_fractions_back() {
    assert_eq!(1536.capacity(), "1.5K");
    assert_eq!(parsed("1.5K"), Err("1.5K".to_owned()));
}

#[test]
fn parse_reads_back_exact_units_and_small_counts() {
    for n in [0, 1, 500, 1023, KILOBYTE, MEGABYTE, PETABYTE, EXABYTE] {
        assert_eq!(parsed(&n.capacity()), Ok(n));
    }
}

#[test]
fn from_str_matches_parse() {
    assert_eq!("4K".parse::<Bytes>().map(|b| b.bytes()), Ok(4096));
    assert_eq!("4Z".parse::<Bytes>().map(|b| b.bytes()), Err("4Z".to_owned()));
}

fn float_form(n: i64) -> String {
    let units = [
        ('E', EXABYTE),
        ('P', PETABYTE),
        ('T', 1_i64 << 40),
        ('G', 1_i64 << 30),
        ('M', MEGABYTE),
        ('K', KILOBYTE),
    ];
    for (suffix, size) in units {
        if n == size {
            return format!("1{}", suffix);
        } else if n > size {
            let sized = (n as f64) / (size as f64);
            let round = (sized * 100.0).round() / 100.0;
            return format!("{:.1}{}", round, suffix);
        }
    }
    unreachable!()
}

#[test]
fn format_matches_float_steps_on_small_counts() {
    for n in 1024..400_000_i64 {
        assert_eq!(n.capacity(), float_form(n), "n = {}", n);
    }
}

#[test]
fn format_matches_float_steps_on_large_counts() {
    let mut state: u64 = 0x9E37_79B9_7F4A_7C15;
    for shift in 10..63 {
        for _ in 0..3000 {
            state ^= state << 13;
            state ^= state >> 7;
            state ^= state << 17;
            let n = ((state >> 1) as i64) >> (62 - shift);
            if n >= 1024 {
                assert_eq!(n.capacity(), float_form(n), "n = {}", n);
            }
        }
        let edge = 1_i64 << shift;
        for n in [edge - 1, edge + 1, edge + edge / 2, edge + edge / 8, edge + edge / 20] {
            if n < 1024 {
                continue;
            }
            assert_eq!(n.capacity(), float_form(n), "n = {}", n);
        }
    }
    for n in [i64::MAX, i64::MAX - 1, (1_i64 << 53) + 1, (1_i64 << 53) + 3, 1177 << 50] {
        assert_eq!(n.capacity(), float_form(n), "n = {}", n);
    }
}
