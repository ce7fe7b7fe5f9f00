use bandwidth::Bandwidth;
use binary_bandwidth::{format_binary_bandwidth, parse_binary_bandwidth, Error};

fn new_bandwidth(tebi: u16, gibi: u16, mibi: u16, kibi: u16, bytes: u16) -> Bandwidth {
    let ki_b: u64 = 1024 * 8;
    let mi_b: u64 = 1024 * ki_b;
    let gi_b: u64 = 1024 * mi_b;
    let ti_b: u64 = 1024 * gi_b;

    let res: u64 = bytes as u64 * 8
        + kibi as u64 * ki_b
        + mibi as u64 * mi_b
        + gibi as u64 * gi_b
        + tebi as u64 * ti_b;
    Bandwidth::new(res / 1_000_000_000, (res % 1_000_000_000) as u32)
}

#[test]
fn test_units() {
    assert_eq!(parse_binary_bandwidth("1Bps"), Ok(new_bandwidth(0, 0, 0, 0, 1)));
    assert_eq!(parse_binary_bandwidth("2Byte/s"), Ok(new_bandwidth(0, 0, 0, 0, 2)));
    assert_eq!(parse_binary_bandwidth("15B/s"), Ok(new_bandwidth(0, 0, 0, 0, 15)));
    assert_eq!(parse_binary_bandwidth("21ops"), Ok(new_bandwidth(0, 0, 0, 0, 21)));
    assert_eq!(parse_binary_bandwidth("22o/s"), Ok(new_bandwidth(0, 0, 0, 0, 22)));
    assert_eq!(parse_binary_bandwidth("51KiBps"), Ok(new_bandwidth(0, 0, 0, 51, 0)));
    assert_eq!(parse_binary_bandwidth("79KiBps"), Ok(new_bandwidth(0, 0, 0, 79, 0)));
    assert_eq!(parse_binary_bandwidth("81KiByte/s"), Ok(new_bandwidth(0, 0, 0, 81, 0)));
    assert_eq!(parse_binary_bandwidth("100KiByte/s"), Ok(new_bandwidth(0, 0, 0, 100, 0)));
    assert_eq!(parse_binary_bandwidth("150KiB/s"), Ok(new_bandwidth(0, 0, 0, 150, 0)));
    assert_eq!(parse_binary_bandwidth("410KiB/s"), Ok(new_bandwidth(0, 0, 0, 410, 0)));
    assert_eq!(parse_binary_bandwidth("251Kiops"), Ok(new_bandwidth(0, 0, 0, 251, 0)));
    assert_eq!(parse_binary_bandwidth("279Kiops"), Ok(new_bandwidth(0, 0, 0, 279, 0)));
    assert_eq!(parse_binary_bandwidth("250Kio/s"), Ok(new_bandwidth(0, 0, 0, 250, 0)));
    assert_eq!(parse_binary_bandwidth("210Kio/s"), Ok(new_bandwidth(0, 0, 0, 210, 0)));
    assert_eq!(parse_binary_bandwidth("12MiBps"), Ok(new_bandwidth(0, 0, 12, 0, 0)));
    assert_eq!(parse_binary_bandwidth("16miBps"), Ok(new_bandwidth(0, 0, 16, 0, 0)));
    assert_eq!(parse_binary_bandwidth("24MiByte/s"), Ok(new_bandwidth(0, 0, 24, 0, 0)));
    assert_eq!(parse_binary_bandwidth("36miByte/s"), Ok(new_bandwidth(0, 0, 36, 0, 0)));
    assert_eq!(parse_binary_bandwidth("48MiB/s"), Ok(new_bandwidth(0, 0, 48, 0, 0)));
    assert_eq!(parse_binary_bandwidth("96miB/s"), Ok(new_bandwidth(0, 0, 96, 0, 0)));
    assert_eq!(parse_binary_bandwidth("212Miops"), Ok(new_bandwidth(0, 0, 212, 0, 0)));
    assert_eq!(parse_binary_bandwidth("216miops"), Ok(new_bandwidth(0, 0, 216, 0, 0)));
    assert_eq!(parse_binary_bandwidth("248Mio/s"), Ok(new_bandwidth(0, 0, 248, 0, 0)));
    assert_eq!(parse_binary_bandwidth("296mio/s"), Ok(new_bandwidth(0, 0, 296, 0, 0)));
    assert_eq!(parse_binary_bandwidth("2GiBps"), Ok(new_bandwidth(0, 2, 0, 0, 0)));
    assert_eq!(parse_binary_bandwidth("4giBps"), Ok(new_bandwidth(0, 4, 0, 0, 0)));
    assert_eq!(parse_binary_bandwidth("6GiByte/s"), Ok(new_bandwidth(0, 6, 0, 0, 0)));
    assert_eq!(parse_binary_bandwidth("8giByte/s"), Ok(new_bandwidth(0, 8, 0, 0, 0)));
    assert_eq!(parse_binary_bandwidth("16GiB/s"), Ok(new_bandwidth(0, 16, 0, 0, 0)));
    assert_eq!(parse_binary_bandwidth("40giB/s"), Ok(new_bandwidth(0, 40, 0, 0, 0)));
    assert_eq!(parse_binary_bandwidth("202Giops"), Ok(new_bandwidth(0, 202, 0, 0, 0)));
    assert_eq!(parse_binary_bandwidth("204giops"), Ok(new_bandwidth(0, 204, 0, 0, 0)));
    assert_eq!(parse_binary_bandwidth("216Gio/s"), Ok(new_bandwidth(0, 216, 0, 0, 0)));
    assert_eq!(parse_binary_bandwidth("240gio/s"), Ok(new_bandwidth(0, 240, 0, 0, 0)));
    assert_eq!(parse_binary_bandwidth("1TiBps"), Ok(new_bandwidth(1, 0, 0, 0, 0)));
    assert_eq!(parse_binary_bandwidth("2tiBps"), Ok(new_bandwidth(2, 0, 0, 0, 0)));
    assert_eq!(parse_binary_bandwidth("4TiByte/s"), Ok(new_bandwidth(4, 0, 0, 0, 0)));
    assert_eq!(parse_binary_bandwidth("8tiByte/s"), Ok(new_bandwidth(8, 0, 0, 0, 0)));
    assert_eq!(parse_binary_bandwidth("16TiB/s"), Ok(new_bandwidth(16, 0, 0, 0, 0)));
    assert_eq!(parse_binary_bandwidth("32tiB/s"), Ok(new_bandwidth(32, 0, 0, 0, 0)));
    assert_eq!(parse_binary_bandwidth("201Tiops"), Ok(new_bandwidth(201, 0, 0, 0, 0)));
    assert_eq!(parse_binary_bandwidth("202tiops"), Ok(new_bandwidth(202, 0, 0, 0, 0)));
    assert_eq!(parse_binary_bandwidth("216Tio/s"), Ok(new_bandwidth(216, 0, 0, 0, 0)));
    assert_eq!(parse_binary_bandwidth("232tio/s"), Ok(new_bandwidth(232, 0, 0, 0, 0)));
}

#[test]
fn test_decimal() {
    assert_eq!(parse_binary_bandwidth("1.5Bps"), Ok(new_bandwidth(0, 0, 0, 0, 2)));
    assert_eq!(parse_binary_bandwidth("2.5Byte/s"), Ok(new_bandwidth(0, 0, 0, 0, 3)));
    assert_eq!(parse_binary_bandwidth("15.5B/s"), Ok(new_bandwidth(0, 0, 0, 0, 16)));
    assert_eq!(parse_binary_bandwidth("51.6KiBps"), Ok(new_bandwidth(0, 0, 0, 51, 614)));
    assert_eq!(parse_binary_bandwidth("79.78KiBps"), Ok(new_bandwidth(0, 0, 0, 79, 799)));
    assert_eq!(parse_binary_bandwidth("81.923KiByte/s"), Ok(new_bandwidth(0, 0, 0, 81, 945)));
    assert_eq!(parse_binary_bandwidth("100.1234KiByte/s"), Ok(new_bandwidth(0, 0, 0, 100, 126)));
    assert_eq!(parse_binary_bandwidth("150.12345KiB/s"), Ok(new_bandwidth(0, 0, 0, 150, 126)));
    assert_eq!(parse_binary_bandwidth("410.123456KiB/s"), Ok(new_bandwidth(0, 0, 0, 410, 126)));
    assert_eq!(parse_binary_bandwidth("12.123MiBps"), Ok(new_bandwidth(0, 0, 12, 125, 975)));
    assert_eq!(parse_binary_bandwidth("16.1234miBps"), Ok(new_bandwidth(0, 0, 16, 126, 370)));
    assert_eq!(parse_binary_bandwidth("24.12345MiByte/s"), Ok(new_bandwidth(0, 0, 24, 126, 423)));
    assert_eq!(parse_binary_bandwidth("36.123456miByte/s"), Ok(new_bandwidth(0, 0, 36, 126, 429)));
    assert_eq!(parse_binary_bandwidth("48.123MiB/s"), Ok(new_bandwidth(0, 0, 48, 125, 975)));
    assert_eq!(parse_binary_bandwidth("96.1234miB/s"), Ok(new_bandwidth(0, 0, 96, 126, 370)));
    assert_eq!(parse_binary_bandwidth("2.123GiBps"), Ok(new_bandwidth(0, 2, 125, 974, 868)));
    assert_eq!(parse_binary_bandwidth("4.1234giBps"), Ok(new_bandwidth(0, 4, 126, 370, 285)));
    assert_eq!(parse_binary_bandwidth("6.12345GiByte/s"), Ok(new_bandwidth(0, 6, 126, 422, 724)));
    assert_eq!(
        parse_binary_bandwidth("8.123456giByte/s"),
        Ok(new_bandwidth(0, 8, 126, 428, 1023))
    );
    assert_eq!(
        parse_binary_bandwidth("16.123456789GiB/s"),
        Ok(new_bandwidth(0, 16, 126, 429, 846))
    );
    assert_eq!(
        parse_binary_bandwidth("40.12345678912giB/s"),
        Ok(new_bandwidth(0, 40, 126, 429, 846))
    );
    assert_eq!(parse_binary_bandwidth("1.123TiBps"), Ok(new_bandwidth(1, 125, 974, 868, 360)));
    assert_eq!(parse_binary_bandwidth("2.1234tiBps"), Ok(new_bandwidth(2, 126, 370, 285, 84)));
    assert_eq!(parse_binary_bandwidth("4.12345TiByte/s"), Ok(new_bandwidth(4, 126, 422, 724, 177)));
    assert_eq!(
        parse_binary_bandwidth("8.123456tiByte/s"),
        Ok(new_bandwidth(8, 126, 428, 1022, 639))
    );
    assert_eq!(
        parse_binary_bandwidth("16.123456789TiB/s"),
        Ok(new_bandwidth(16, 126, 429, 845, 825))
    );
    assert_eq!(
        parse_binary_bandwidth("32.12345678912tiB/s"),
        Ok(new_bandwidth(32, 126, 429, 845, 957))
    );
}

#[test]
fn test_combo() {
    assert_eq!(parse_binary_bandwidth("1Bps 2Byte/s 3B/s"), Ok(new_bandwidth(0, 0, 0, 0, 6)));
    assert_eq!(
        parse_binary_bandwidth("4KiBps 5KiBps 6KiByte/s"),
        Ok(new_bandwidth(0, 0, 0, 15, 0))
    );
    assert_eq!(
        parse_binary_bandwidth("7MiBps 8miBps 9MiByte/s"),
        Ok(new_bandwidth(0, 0, 24, 0, 0))
    );
    assert_eq!(
        parse_binary_bandwidth("10GiBps 11giBps 12GiByte/s"),
        Ok(new_bandwidth(0, 33, 0, 0, 0))
    );
    assert_eq!(
        parse_binary_bandwidth("13TiBps 14tiBps 15TiByte/s"),
        Ok(new_bandwidth(42, 0, 0, 0, 0))
    );
    assert_eq!(parse_binary_bandwidth("10GiBps 5MiBps 1B/s"), Ok(new_bandwidth(0, 10, 5, 0, 1)));
    assert_eq!(
        parse_binary_bandwidth("36MiBps 12KiBps 24Bps"),
        Ok(new_bandwidth(0, 0, 36, 12, 24))
    );
}

#[test]
fn test_decimal_combo() {
    assert_eq!(
        parse_binary_bandwidth("1.1Bps 2.2Byte/s 3.3B/s"),
        Ok(new_bandwidth(0, 0, 0, 0, 6))
    );
    assert_eq!(
        parse_binary_bandwidth("4.4KiBps 5.5KiBps 6.6KiByte/s"),
        Ok(new_bandwidth(0, 0, 0, 16, 512))
    );
    assert_eq!(
        parse_binary_bandwidth("7.7MiBps 8.8miBps 9.9MiByte/s"),
        Ok(new_bandwidth(0, 0, 26, 409, 614))
    );
    assert_eq!(
        parse_binary_bandwidth("10.10GiBps 11.11giBps 12.12GiByte/s"),
        Ok(new_bandwidth(0, 33, 337, 942, 82))
    );
    assert_eq!(
        parse_binary_bandwidth("13.13TiBps 14.14tiBps 15.15TiByte/s"),
        Ok(new_bandwidth(42, 430, 81, 942, 82))
    );
    assert_eq!(
        parse_binary_bandwidth("10.1GiBps 5.2MiBps 1.3B/s"),
        Ok(new_bandwidth(0, 10, 107, 614, 410))
    );
    assert_eq!(
        parse_binary_bandwidth("36.1MiBps 12.2KiBps 24.3Bps"),
        Ok(new_bandwidth(0, 0, 36, 114, 639))
    );
}

#[test]
fn test_overflow() {
    assert_eq!(
        parse_binary_bandwidth("100_000_000_000_000_000_000Bps"),
        Err(Error::NumberOverflow)
    );
    assert!(parse_binary_bandwidth("10_000_000_000_000_000_000Bps").is_ok());
    assert_eq!(
        parse_binary_bandwidth("100_000_000_000_000_000_000KiBps"),
        Err(Error::NumberOverflow)
    );
    assert!(parse_binary_bandwidth("10_000_000_000_000_000_000KiBps").is_ok());
    assert_eq!(
        parse_binary_bandwidth("100_000_000_000_000_000_000MiBps"),
        Err(Error::NumberOverflow)
    );
    assert!(parse_binary_bandwidth("10_000_000_000_000_000_000MiBps").is_ok());

    assert_eq!(
        parse_binary_bandwidth("10_000_000_000_000_000_000GiBps"),
        Err(Error::NumberOverflow)
    );
    assert!(parse_binary_bandwidth("1_000_000_000_000_000_000GiBps").is_ok());
    assert_eq!(parse_binary_bandwidth("10_000_000_000_000_000TiBps"), Err(Error::NumberOverflow));
    assert!(parse_binary_bandwidth("1_000_000_000_000_000TiBps").is_ok());
}

#[test]
fn test_nice_error_message() {
    assert_eq!(
        parse_binary_bandwidth("123").unwrap_err().message(),
        "binary bandwidth unit needed, for example 123MiB/s or 123B/s"
    );
    assert_eq!(
        parse_binary_bandwidth("10 GiBps 1").unwrap_err().message(),
        "binary bandwidth unit needed, for example 1MiB/s or 1B/s"
    );
    assert_eq!(
        parse_binary_bandwidth("10 byte/s").unwrap_err().message(),
        "unknown binary bandwidth unit \"byte/s\", \
                supported units: B/s, KiB/s, MiB/s, GiB/s, TiB/s"
    );
}

#[test]
fn test_formatted_bandwidth_integer() {
    assert_eq!(format_binary_bandwidth(new_bandwidth(0, 0, 0, 0, 0)).fmt_integer(), "0B/s");
    assert_eq!(format_binary_bandwidth(new_bandwidth(0, 0, 0, 0, 1)).fmt_integer(), "1B/s");
    assert_eq!(format_binary_bandwidth(new_bandwidth(0, 0, 0, 0, 15)).fmt_integer(), "15B/s");
    assert_eq!(format_binary_bandwidth(new_bandwidth(0, 0, 0, 51, 0)).fmt_integer(), "51KiB/s");
    assert_eq!(format_binary_bandwidth(new_bandwidth(0, 0, 32, 0, 0)).fmt_integer(), "32MiB/s");
    assert_eq!(format_binary_bandwidth(new_bandwidth(0, 0, 79, 0, 0)).fmt_integer(), "79MiB/s");
    assert_eq!(format_binary_bandwidth(new_bandwidth(0, 0, 100, 0, 0)).fmt_integer(), "100MiB/s");
    assert_eq!(format_binary_bandwidth(new_bandwidth(0, 0, 150, 0, 0)).fmt_integer(), "150MiB/s");
    assert_eq!(format_binary_bandwidth(new_bandwidth(0, 0, 410, 0, 0)).fmt_integer(), "410MiB/s");
    assert_eq!(format_binary_bandwidth(new_bandwidth(0, 1, 0, 0, 0)).fmt_integer(), "1GiB/s");
    assert_eq!(
        format_binary_bandwidth(new_bandwidth(0, 4, 500, 0, 0)).fmt_integer(),
        "4GiB/s 500MiB/s"
    );
    assert_eq!(
        format_binary_bandwidth(new_bandwidth(9, 420, 0, 0, 0)).fmt_integer(),
        "9TiB/s 420GiB/s"
    );
}

#[test]
fn test_formatted_bandwidth_decimal() {
    assert_eq!(format_binary_bandwidth(new_bandwidth(0, 0, 0, 0, 0)).fmt_decimal(None), "0B/s");
    assert_eq!(format_binary_bandwidth(new_bandwidth(0, 0, 0, 0, 1)).fmt_decimal(None), "1B/s");
    assert_eq!(format_binary_bandwidth(new_bandwidth(0, 0, 0, 0, 15)).fmt_decimal(None), "15B/s");
    assert_eq!(
        format_binary_bandwidth(new_bandwidth(0, 0, 0, 51, 256)).fmt_decimal(None),
        "51.25KiB/s"
    );
    assert_eq!(
        format_binary_bandwidth(new_bandwidth(0, 0, 32, 256, 0)).fmt_decimal(None),
        "32.25MiB/s"
    );
    assert_eq!(
        format_binary_bandwidth(new_bandwidth(0, 0, 79, 0, 5)).fmt_decimal(None),
        "79.000005MiB/s"
    );
    assert_eq!(
        format_binary_bandwidth(new_bandwidth(0, 0, 100, 128, 7)).fmt_decimal(None),
        "100.125007MiB/s"
    );
    assert_eq!(
        format_binary_bandwidth(new_bandwidth(0, 0, 150, 0, 0)).fmt_decimal(None),
        "150MiB/s"
    );
    assert_eq!(
        format_binary_bandwidth(new_bandwidth(0, 0, 410, 9, 116)).fmt_decimal(None),
        "410.0089MiB/s"
    );
    assert_eq!(format_binary_bandwidth(new_bandwidth(0, 1, 0, 0, 0)).fmt_decimal(None), "1GiB/s");
    assert_eq!(
        format_binary_bandwidth(new_bandwidth(0, 4, 512, 0, 0)).fmt_decimal(None),
        "4.5GiB/s"
    );
    assert_eq!(
        format_binary_bandwidth(new_bandwidth(8, 768, 0, 0, 0)).fmt_decimal(None),
        "8.75TiB/s"
    );
    assert_eq!(
        "9.375TiB/s",
        format_binary_bandwidth(new_bandwidth(9, 384, 0, 0, 0)).fmt_decimal(None)
    );
}

#[test]
fn test_formatted_bandwidth_decimal_with_precision() {
    let bandwidths = [
        (new_bandwidth(0, 0, 0, 0, 0), 0, 0, "B/s", 0),
        (new_bandwidth(0, 0, 0, 0, 1), 1, 0, "B/s", 0),
        (new_bandwidth(0, 0, 0, 0, 15), 15, 0, "B/s", 0),
        (new_bandwidth(0, 0, 0, 51, 256), 51, 250, "KiB/s", 3),
        (new_bandwidth(0, 0, 32, 256, 0), 32, 250_000, "MiB/s", 6),
        (new_bandwidth(0, 0, 79, 0, 5), 79, 5, "MiB/s", 6),
        (new_bandwidth(0, 0, 100, 128, 7), 100, 125_007, "MiB/s", 6),
        (new_bandwidth(0, 0, 150, 0, 0), 150, 0, "MiB/s", 6),
        (new_bandwidth(0, 0, 410, 9, 116), 410, 8_900, "MiB/s", 6),
        (new_bandwidth(0, 1, 0, 0, 0), 1, 0, "GiB/s", 9),
        (new_bandwidth(0, 4, 512, 0, 0), 4, 500_000_000, "GiB/s", 9),
        (new_bandwidth(8, 768, 0, 0, 0), 8, 750_000_000_000u64, "TiB/s", 12),
        (new_bandwidth(9, 384, 0, 0, 0), 9, 375_000_000_000u64, "TiB/s", 12),
    ];
    for precision in 0..7usize {
        for (bandwidth, int, fract, unit, max_precision) in bandwidths.iter() {
            let rendered = format_binary_bandwidth(*bandwidth).fmt_decimal(Some(precision));
            let pow = 10_u64.pow((max_precision - precision.min(*max_precision)) as u32);
            let fract = if pow != 1 {
                if fract % pow > pow / 2 || fract % pow == pow / 2 && fract / pow % 2 == 1 {
                    fract / pow + 1
                } else {
                    fract / pow
                }
            } else {
                *fract
            };
            if precision != 0 && *max_precision != 0 {
                assert_eq!(
                    rendered,
                    format!(
                        "{int}.{fract:0precision$}{unit}",
                        precision = precision.min(*max_precision)
                    )
                );
            } else {
                let int = if fract == 1 { int + 1 } else { *int };
                assert_eq!(rendered, format!("{int}{unit}"));
            }
        }
    }
}
