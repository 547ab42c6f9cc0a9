use mandel::fixed::{ComplexPoint, Fixed};
use mandel::parse::{parse_complex, parse_pair};

#[test]
fn test_parse_pair() {
    assert_eq!(parse_pair::<u32>("", ','), None);
    assert_eq!(parse_pair::<u32>("10,", ','), None);
    assert_eq!(parse_pair::<u32>(",10", ','), None);
    assert_eq!(parse_pair::<u32>("10,20", ','), Some((10, 20)));
    assert_eq!(parse_pair::<u32>("200x400", 'x'), Some((200, 400)));
    assert_eq!(
        parse_pair::<Fixed>("0.5x1.5", 'x'),
        Some((Fixed { units: 8388608 }, Fixed { units: 25165824 }))
    );
}

#[test]
fn test_parse_complex() {
    assert_eq!(
        parse_complex("1.25,-0.0625"),
        Some(ComplexPoint {
            re: Fixed { units: 20971520 },
            im: Fixed { units: -1048576 }
        })
    );
    assert_eq!(parse_complex(",-0.0625"), None);
}

#[test]
fn parse_pair_rejects_missing_separator() {
    assert_eq!(parse_pair::<u32>("1020", ','), None);
    assert_eq!(parse_pair::<u32>("10,20", 'x'), None);
}

#[test]
fn parse_pair_rejects_garbage_sides() {
    assert_eq!(parse_pair::<u32>("a,10", ','), None);
    assert_eq!(parse_pair::<u32>("10,2b", ','), None);
    assert_eq!(parse_pair::<u32>("4294967296,1", ','), None);
    assert_eq!(parse_pair::<u32>("4294967295,1", ','), Some((4294967295, 1)));
}

#[test]
fn parse_fixed_signs_and_fractions() {
    assert_eq!(
        parse_complex("-1.20,0.35"),
        Some(ComplexPoint {
            re: Fixed { units: -20132659 },
            im: Fixed { units: 5872025 }
        })
    );
    assert_eq!(
        parse_complex("-1,0.20"),
        Some(ComplexPoint {
            re: Fixed { units: -16777216 },
            im: Fixed { units: 3355443 }
        })
    );
    assert_eq!(
        parse_complex("+2,-2"),
        Some(ComplexPoint {
            re: Fixed { units: 33554432 },
            im: Fixed { units: -33554432 }
        })
    );
}

#[test]
fn parse_fixed_tiny_fraction_truncates_to_zero() {
    // 19 fraction digits: the last lies below one unit and is dropped.
    assert_eq!(
        parse_complex("0.0000000000000000001,0"),
        Some(ComplexPoint {
            re: Fixed { units: 0 },
            im: Fixed { units: 0 }
        })
    );
}

#[test]
fn parse_fixed_rejects_malformed() {
    assert_eq!(parse_complex(".5,1"), None);
    assert_eq!(parse_complex("1.2.3,0"), None);
    assert_eq!(parse_complex("--1,0"), None);
    assert_eq!(parse_complex("1,,2"), None);
    assert_eq!(parse_complex("200000000,0"), None);
}
