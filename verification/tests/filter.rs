use inslice::filter::{Filter, FilterSet, ParseError};
use inslice::num::NumError;

#[test]
fn filter_parse_exact_ok() {
    let filter = Filter::from_str("1").unwrap();
    let expected = Filter {
        start: 1,
        end: None,
    };

    assert_eq!(filter, expected);
}

#[test]
fn filter_parse_range_ok() {
    let filter = Filter::from_str("2:4").unwrap();
    let expected = Filter {
        start: 2,
        end: Some(4),
    };

    assert_eq!(filter, expected);
}

#[test]
fn filter_parse_range_start_ok() {
    let filter = Filter::from_str("2:").unwrap();
    let expected = Filter {
        start: 2,
        end: Some(0),
    };

    assert_eq!(filter, expected);
}

#[test]
fn filter_parse_range_end_ok() {
    let filter = Filter::from_str(":4").unwrap();
    let expected = Filter {
        start: 1,
        end: Some(4),
    };

    assert_eq!(filter, expected);
}

#[test]
fn filter_parse_range_full_ok() {
    let filter = Filter::from_str(":").unwrap();
    let expected = Filter {
        start: 1,
        end: Some(0),
    };

    assert_eq!(filter, expected);
}

#[test]
fn filter_parse_negative_err() {
    let filter = Filter::from_str("1:-1");

    assert!(matches!(filter, Err(ParseError::ParseIntFailed(_))));
}

#[test]
fn filter_parse_non_numeric_err() {
    let filter = Filter::from_str("non:numeric");

    assert!(matches!(filter, Err(ParseError::ParseIntFailed(_))));
}

#[test]
fn filter_parse_range_invalid_err() {
    let filter = Filter::from_str("4:2");

    assert!(matches!(filter, Err(ParseError::InvalidFilter { .. })));
}

#[test]
fn filter_parse_zero_start_err() {
    assert!(matches!(
        Filter::from_str("0"),
        Err(ParseError::InvalidFilter { .. })
    ));
    assert!(matches!(
        Filter::from_str("0:"),
        Err(ParseError::InvalidFilter { .. })
    ));
    assert!(matches!(
        Filter::from_str("0:4"),
        Err(ParseError::InvalidFilter { .. })
    ));
    assert!(matches!(
        Filter::from_str("0:0"),
        Err(ParseError::InvalidFilter { .. })
    ));
}

#[test]
fn filter_parse_zero_end_token_err() {
    assert!(matches!(
        Filter::from_str("2:0"),
        Err(ParseError::InvalidFilter { .. })
    ));
    assert!(matches!(
        Filter::from_str(":0"),
        Err(ParseError::InvalidFilter { .. })
    ));
}

#[test]
fn parse_error_message_zero_start() {
    let err = Filter::from_str("0:4").unwrap_err();

    assert_eq!(err.message(), "invalid filter: start [0] cannot be zero");
}

#[test]
fn filter_parse_empty_defaults_to_one() {
    let filter = Filter::from_str("").unwrap();
    let expected = Filter {
        start: 1,
        end: None,
    };

    assert_eq!(filter, expected);
}

#[test]
fn filter_parse_ignores_after_second_colon() {
    let filter = Filter::from_str("1:2:3").unwrap();
    let expected = Filter {
        start: 1,
        end: Some(2),
    };

    assert_eq!(filter, expected);
}

#[test]
fn filter_parse_double_colon_open_ended() {
    let filter = Filter::from_str("::").unwrap();
    let expected = Filter {
        start: 1,
        end: Some(0),
    };

    assert_eq!(filter, expected);
}

#[test]
fn filter_parse_max_value_ok() {
    let filter = Filter::from_str("4294967295").unwrap();
    let expected = Filter {
        start: u32::MAX,
        end: None,
    };

    assert_eq!(filter, expected);
}

#[test]
fn filter_parse_overflow_err() {
    let filter = Filter::from_str("4294967296");

    assert!(matches!(
        filter,
        Err(ParseError::ParseIntFailed(NumError::TooLarge))
    ));
}

#[test]
fn filter_parse_plus_sign_err() {
    let filter = Filter::from_str("+1");

    assert!(matches!(
        filter,
        Err(ParseError::ParseIntFailed(NumError::BadDigit))
    ));
}

#[test]
fn filter_parse_empty_end_token_after_bad_start_err() {
    let filter = Filter::from_str("x:");

    assert!(matches!(
        filter,
        Err(ParseError::ParseIntFailed(NumError::BadDigit))
    ));
}

#[test]
fn parse_error_message_invalid_range() {
    let err = Filter::from_str("4:2").unwrap_err();

    assert_eq!(
        err.message(),
        "invalid filter: end [2] cannot be before start [4]"
    );
}

#[test]
fn parse_error_message_bad_digit() {
    let err = Filter::from_str("non:numeric").unwrap_err();

    assert_eq!(
        err.message(),
        "failed to parse filter: invalid digit found in string"
    );
}

#[test]
fn filterset_apply_exact_true() {
    let filters = vec![Filter {
        start: 2,
        end: None,
    }];
    let index = 2;

    assert_eq!(FilterSet::new(filters).apply(index), true);
}

#[test]
fn filterset_apply_exact_false() {
    let filters = vec![Filter {
        start: 2,
        end: None,
    }];
    let index = 4;

    assert_eq!(FilterSet::new(filters).apply(index), false);
}

#[test]
fn filterset_apply_range_full_true() {
    let filters = vec![
        Filter {
            start: 1,
            end: Some(0),
        },
        Filter {
            start: 2,
            end: None,
        },
    ];
    let index = 4;

    assert_eq!(FilterSet::new(filters).apply(index), true);
}

#[test]
fn filterset_apply_range_inside_true() {
    let filters = vec![
        Filter {
            start: 1,
            end: Some(4),
        },
        Filter {
            start: 2,
            end: None,
        },
    ];
    let index = 3;

    assert_eq!(FilterSet::new(filters).apply(index), true);
}

#[test]
fn filterset_apply_range_inclusive_true() {
    let filters = vec![
        Filter {
            start: 1,
            end: Some(4),
        },
        Filter {
            start: 2,
            end: None,
        },
    ];
    let index = 4;

    assert_eq!(FilterSet::new(filters).apply(index), true);
}

#[test]
fn filterset_apply_range_before_false() {
    let filters = vec![
        Filter {
            start: 3,
            end: Some(5),
        },
        Filter {
            start: 2,
            end: Some(4),
        },
    ];
    let index = 1;

    assert_eq!(FilterSet::new(filters).apply(index), false);
}

#[test]
fn filterset_apply_range_after_false() {
    let filters = vec![
        Filter {
            start: 3,
            end: Some(5),
        },
        Filter {
            start: 2,
            end: Some(4),
        },
    ];
    let index = 6;

    assert_eq!(FilterSet::new(filters).apply(index), false);
}

#[test]
fn filterset_apply_range_between_false() {
    let filters = vec![
        Filter {
            start: 4,
            end: Some(5),
        },
        Filter {
            start: 1,
            end: Some(2),
        },
    ];
    let index = 3;

    assert_eq!(FilterSet::new(filters).apply(index), false);
}

#[test]
fn filterset_apply_is_union_of_members() {
    let a = Filter {
        start: 1,
        end: Some(2),
    };
    let b = Filter {
        start: 4,
        end: None,
    };

    for index in 1..=6 {
        let both = FilterSet::new(vec![a, b]).apply(index);
        let first = FilterSet::new(vec![a]).apply(index);
        let second = FilterSet::new(vec![b]).apply(index);
        assert_eq!(both, first || second);
    }
}

#[test]
fn filterset_empty_matches_no_position() {
    let set = FilterSet::new(Vec::new());

    assert!(set.is_empty());
    for index in 0..=5 {
        assert_eq!(set.apply(index), false);
    }
}

#[test]
fn parse_u32_accepts_leading_zeros() {
    assert_eq!(inslice::num::parse_u32("007"), Ok(7));
}

#[test]
fn parse_u32_rejects_empty() {
    assert_eq!(inslice::num::parse_u32(""), Err(NumError::Empty));
}

#[test]
fn dec_string_writes_decimal_digits() {
    assert_eq!(inslice::num::dec_string(0), "0");
    assert_eq!(inslice::num::dec_string(1230), "1230");
    assert_eq!(inslice::num::dec_string(u32::MAX), "4294967295");
}
