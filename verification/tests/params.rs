//! Tests of the parameters, of the number of points and of the texts.

use coll_birth::cli::{parse_u64, passes_of, Args, ArgsError, ParseError};
use coll_birth::common::CellCount;
use coll_birth::sizing::{
    buffer_load, class_load, compute_points, dispatch, partition_bits, scan_load, stage_load,
    stage_samples, stage_share_load, Load, PointsError, MIN_POINTS,
};
use coll_birth::text::{
    birthday_tradeoff_desc, bits_read_desc, decimal, decimal_after, decimation_desc,
    effective_cells_suffix, join_mode_parts, superscript, tradeoff_desc,
};

fn plain() -> Args {
    Args {
        u: 32,
        t: 2,
        m: Some(100_000),
        s: 0,
        tradeoff: None,
        decimate: None,
        checkpoints: false,
        birthday_spacings: false,
        reps: 1,
        seed: 0,
        pretty_p: false,
        parallel: None,
        pass: None,
    }
}

fn refused(args: Args, error: ArgsError, message: &str) {
    assert_eq!(args.validate(), Err(error));
    assert_eq!(error.message(), message);
}

#[test]
fn valid_parameters() {
    assert_eq!(plain().validate(), Ok(()));
    let all = Args {
        u: 40,
        s: 24,
        t: 3,
        tradeoff: Some(63),
        decimate: Some(4),
        checkpoints: true,
        pass: Some((1 << 63) - 1),
        ..plain()
    };
    assert_eq!(all.validate(), Ok(()));
    assert_eq!(all.tradeoff_bits(), 63);
    assert_eq!(all.decimation_bits(), 4);
    assert_eq!(plain().tradeoff_bits(), 0);
    assert_eq!(plain().decimation_bits(), 0);
}

#[test]
fn invalid_parameters() {
    refused(
        Args { t: 0, ..plain() },
        ArgsError::NoDimension,
        "t must be at least 1",
    );
    refused(
        Args { u: 0, ..plain() },
        ArgsError::NoBits,
        "u must be at least 1",
    );
    refused(
        Args { s: 64, ..plain() },
        ArgsError::ShiftTooLarge { s: 64 },
        "shift (64) must be less than 64",
    );
    refused(
        Args { s: 33, ..plain() },
        ArgsError::TooManyBits { u: 32, limit: 31 },
        "u (32) can be at most 64 - shift (31)",
    );
    refused(
        Args {
            m: None,
            decimate: Some(1),
            ..plain()
        },
        ArgsError::DecimateWithoutMemory,
        "--decimate requires explicit -m",
    );
    refused(
        Args {
            decimate: Some(0),
            ..plain()
        },
        ArgsError::DecimateZero,
        "--decimate d must be at least 1",
    );
    refused(
        Args {
            decimate: Some(32),
            ..plain()
        },
        ArgsError::DecimateTooLarge { d: 32, u: 32 },
        "--decimate d (32) must be less than u (32)",
    );
    refused(
        Args {
            tradeoff: Some(0),
            ..plain()
        },
        ArgsError::TradeoffZero,
        "--tradeoff b must be at least 1",
    );
    refused(
        Args {
            tradeoff: Some(61),
            decimate: Some(2),
            ..plain()
        },
        ArgsError::TradeoffAboveIndex { b: 61, limit: 60 },
        "--tradeoff b (61) must be at most t·(u - d) (60)",
    );
    refused(
        Args {
            tradeoff: Some(64),
            ..plain()
        },
        ArgsError::TradeoffTooLarge { b: 64 },
        "--tradeoff b (64) must be less than 64",
    );
    refused(
        Args {
            checkpoints: true,
            birthday_spacings: true,
            ..plain()
        },
        ArgsError::CheckpointsWithBirthday,
        "--checkpoints is incompatible with --birthday-spacings",
    );
    refused(
        Args {
            pass: Some(0),
            ..plain()
        },
        ArgsError::PassWithoutTradeoff,
        "--pass requires -b (--tradeoff)",
    );
    refused(
        Args {
            tradeoff: Some(3),
            pass: Some(8),
            ..plain()
        },
        ArgsError::PassTooLarge { k: 8, passes: 8 },
        "--pass K (8) must be less than 2ᵇ (8)",
    );
}

#[test]
fn the_first_broken_rule_is_reported() {
    let args = Args {
        t: 0,
        u: 0,
        s: 100,
        pass: Some(1),
        ..plain()
    };
    assert_eq!(args.validate(), Err(ArgsError::NoDimension));
}

#[test]
fn cpus_of_a_run() {
    assert_eq!(plain().parallel_cpus(12), None);
    let all = Args {
        parallel: Some(0),
        ..plain()
    };
    assert_eq!(all.parallel_cpus(12), Some(12));
    let some = Args {
        parallel: Some(5),
        ..plain()
    };
    assert_eq!(some.parallel_cpus(12), Some(5));
}

#[test]
fn cells_of_a_run() {
    let last = |args: Args| args.cells().map(|c| c.last);
    assert_eq!(last(plain()), Some((1 << 64) - 1));
    let decimated = Args {
        decimate: Some(30),
        ..plain()
    };
    assert_eq!(last(decimated), Some(15));
    assert_eq!(last(Args { u: 64, ..plain() }), Some(u128::MAX));
    assert_eq!(last(Args { t: 5, ..plain() }), None);
    assert_eq!(last(Args { t: usize::MAX, u: 1, ..plain() }), None);
    assert_eq!(passes_of(0), 1);
    assert_eq!(passes_of(63), 1 << 63);
}

#[test]
fn integers_in_several_radices() {
    assert_eq!(parse_u64("0"), Ok(0));
    assert_eq!(parse_u64(" 12_345\n"), Ok(12_345));
    assert_eq!(parse_u64("+7"), Ok(7));
    assert_eq!(parse_u64("0xDEAD_BEEF"), Ok(0xdead_beef));
    assert_eq!(parse_u64("0Xff"), Ok(255));
    assert_eq!(parse_u64("0o17"), Ok(15));
    assert_eq!(parse_u64("0O1_0"), Ok(8));
    assert_eq!(parse_u64("0b101"), Ok(5));
    assert_eq!(parse_u64("0B_1"), Ok(1));
    assert_eq!(parse_u64("18446744073709551615"), Ok(u64::MAX));
    assert_eq!(parse_u64("0xffffffffffffffff"), Ok(u64::MAX));
}

#[test]
fn texts_that_are_no_integers() {
    assert_eq!(parse_u64(""), Err(ParseError::Empty));
    assert_eq!(parse_u64("  "), Err(ParseError::Empty));
    assert_eq!(parse_u64("0x"), Err(ParseError::Empty));
    assert_eq!(parse_u64("___"), Err(ParseError::Empty));
    assert_eq!(parse_u64("12a"), Err(ParseError::InvalidDigit));
    assert_eq!(parse_u64("0b2"), Err(ParseError::InvalidDigit));
    assert_eq!(parse_u64("-1"), Err(ParseError::InvalidDigit));
    assert_eq!(parse_u64("+"), Err(ParseError::InvalidDigit));
    assert_eq!(parse_u64("1 2"), Err(ParseError::InvalidDigit));
    assert_eq!(parse_u64("18446744073709551616"), Err(ParseError::TooLarge));
    assert_eq!(parse_u64("0x1_0000_0000_0000_0000"), Err(ParseError::TooLarge));
    assert_eq!(parse_u64("99999999999999999999x"), Err(ParseError::TooLarge));
}

#[test]
fn points_of_a_collision_test() {
    let cells = plain().cells().unwrap();
    assert_eq!(compute_points(&plain(), &cells, 0), Ok(100_000));
    let traded = Args {
        tradeoff: Some(4),
        ..plain()
    };
    assert_eq!(compute_points(&traded, &cells, 0), Ok(1_600_000));
    let small = Args {
        u: 8,
        m: None,
        ..plain()
    };
    let few = small.cells().unwrap();
    assert_eq!(compute_points(&small, &few, 0), Ok(65_536));
    let huge = Args { m: None, ..plain() };
    assert_eq!(
        compute_points(&huge, &cells, 0),
        Ok(usize::MAX)
    );
    let wide = Args {
        u: 64,
        m: None,
        tradeoff: Some(1),
        ..plain()
    };
    assert_eq!(
        compute_points(&wide, &wide.cells().unwrap(), 0),
        Err(PointsError::Overflow)
    );
}

#[test]
fn impossible_numbers_of_points() {
    let args = Args {
        u: 8,
        m: Some(65_537),
        ..plain()
    };
    let cells = args.cells().unwrap();
    assert_eq!(
        compute_points(&args, &cells, 0),
        Err(PointsError::MoreThanCells { points: 65_537 })
    );
    let few = Args {
        m: Some(MIN_POINTS - 1),
        ..args
    };
    assert_eq!(
        compute_points(&few, &cells, 0),
        Err(PointsError::TooFew { points: 9_999 })
    );
    let overflowing = Args {
        m: Some(1 << 40),
        tradeoff: Some(40),
        ..plain()
    };
    assert_eq!(
        compute_points(&overflowing, &plain().cells().unwrap(), 0),
        Err(PointsError::Overflow)
    );
}

#[test]
fn points_of_a_birthday_test() {
    let args = Args {
        birthday_spacings: true,
        ..plain()
    };
    let cells = args.cells().unwrap();
    assert_eq!(compute_points(&args, &cells, 100_000), Ok(100_000));
    assert_eq!(
        compute_points(&args, &cells, 99_999),
        Err(PointsError::OutOfRange)
    );
    let by_default = Args {
        m: None,
        tradeoff: Some(3),
        ..args
    };
    assert_eq!(compute_points(&by_default, &cells, 100_007), Ok(100_000));
    assert_eq!(
        compute_points(&by_default, &cells, 9_999),
        Err(PointsError::TooFew { points: 9_992 })
    );
}

#[test]
fn the_narrowest_cell_type_is_picked() {
    let width = |n: u128| dispatch(&CellCount::from_u128(n), || 32, || 64, || 128);
    assert_eq!(width(1), 32);
    assert_eq!(width(1 << 32), 32);
    assert_eq!(width((1 << 32) + 1), 64);
    assert_eq!(width(1 << 64), 64);
    assert_eq!(width((1 << 64) + 1), 128);
    assert_eq!(
        dispatch(&CellCount::power_of_two(128), || 32, || 64, || 128),
        128
    );
}

#[test]
fn numbers_as_text() {
    assert_eq!(decimal(0), "0");
    assert_eq!(decimal(1_234_567_890), "1234567890");
    assert_eq!(decimal(u128::MAX), u128::MAX.to_string());
    assert_eq!(superscript(0), "⁰");
    assert_eq!(superscript(1_234_567_890), "¹²³⁴⁵⁶⁷⁸⁹⁰");
}

#[test]
fn descriptions_of_a_run() {
    assert_eq!(bits_read_desc(0), "full 64-bit output");
    assert_eq!(bits_read_desc(12), "lowest 52 bits");
    assert_eq!(
        decimation_desc(3, 4),
        "decimating 3 bits per dimension (~2¹² candidate samples per kept sample)"
    );
    assert_eq!(effective_cells_suffix(0, 32, 2), "");
    assert_eq!(
        effective_cells_suffix(2, 32, 2),
        " (effective cells after decimation: 2⁶⁰)"
    );
    assert_eq!(join_mode_parts(&[]), "");
    assert_eq!(join_mode_parts(&["a".to_string()]), ", a");
    assert_eq!(
        join_mode_parts(&["a".to_string(), "b".to_string()]),
        ", a, b"
    );
}

#[test]
fn spellings_are_parsed_back() {
    for n in [0u64, 1, 7, 8, 9, 10, 255, 0xdead_beef, 1 << 63, u64::MAX] {
        for s in [
            format!("{n}"),
            format!("{n:#x}"),
            format!("{n:#o}"),
            format!("{n:#b}"),
        ] {
            assert_eq!(parse_u64(&s), Ok(n));
            assert_eq!(parse_u64(&s.to_uppercase()), Ok(n));
        }
        assert_eq!(parse_u64(&decimal(n as u128)), Ok(n));
        let hex: String = format!("{n:x}").chars().flat_map(|c| [c, '_']).collect();
        assert_eq!(parse_u64(&format!("0x{hex}")), Ok(n));
    }
}

#[test]
fn numbers_beyond_128_bits() {
    assert_eq!(decimal_after(0), "1");
    assert_eq!(decimal_after(8), "9");
    assert_eq!(decimal_after(9), "10");
    assert_eq!(decimal_after(99), "100");
    assert_eq!(decimal_after(1_234), "1235");
    assert_eq!(
        CellCount::power_of_two(128).decimal(),
        "340282366920938463463374607431768211456"
    );
    assert_eq!(CellCount::power_of_two(16).decimal(), "65536");
}

#[test]
fn messages_on_points() {
    let cells = CellCount::power_of_two(16);
    assert_eq!(
        PointsError::Overflow.message(&cells, false),
        "m · 2ᵇ overflows usize"
    );
    assert_eq!(
        PointsError::OutOfRange.message(&cells, false),
        "the given combination of memory, repetitions and cells is out of range (omit -m to use the maximum)"
    );
    let more = PointsError::MoreThanCells { points: 70_000 };
    assert_eq!(
        more.message(&cells, false),
        "more points (70000) than cells (65536)"
    );
    assert_eq!(
        more.message(&cells, true),
        "more points (70000) than effective cells (65536)"
    );
    assert_eq!(
        PointsError::TooFew { points: 12 }.message(&cells, false),
        "the number of points (12) is smaller than 10000"
    );
}

#[test]
fn messages_on_integers() {
    assert_eq!(
        ParseError::Empty.message("\"\""),
        "invalid integer: \"\""
    );
    assert_eq!(
        ParseError::InvalidDigit.message("\"x\""),
        "invalid integer \"x\": invalid digit found in string"
    );
    assert_eq!(
        ParseError::TooLarge.message("\"9\""),
        "invalid integer \"9\": number too large to fit in target type"
    );
}

#[test]
fn descriptions_of_a_tradeoff() {
    assert_eq!(
        tradeoff_desc(4),
        "tradeoff on 4 top bits over 16 passes"
    );
    assert_eq!(
        birthday_tradeoff_desc(6),
        "tradeoff on 6 top bits over 64 value intervals x 64 spacing classes"
    );
}

#[test]
fn loads_of_the_buffers() {
    let load = |samples: usize, bits: usize| Load { samples, bits };
    let collision = Args {
        tradeoff: Some(4),
        decimate: Some(3),
        ..plain()
    };
    assert_eq!(partition_bits(&plain()), 0);
    assert_eq!(partition_bits(&collision), 10);
    assert_eq!(scan_load(&collision, 6_400), load(6_400, 10));
    assert_eq!(buffer_load(&collision, 100, 6_400), load(6_400, 10));
    let birthday = Args {
        birthday_spacings: true,
        ..collision
    };
    assert_eq!(class_load(&birthday, 100, 6_400), load(100, 4));
    assert_eq!(buffer_load(&birthday, 100, 6_400), load(100, 4));
    let untraded = Args {
        tradeoff: None,
        ..birthday
    };
    assert_eq!(class_load(&untraded, 100, 6_400), load(6_400, 6));
    assert_eq!(buffer_load(&untraded, 100, 6_400), load(6_400, 6));
    // There are 2 stages for 3 bits of decimation.
    let staged = Args {
        decimate: Some(3),
        checkpoints: true,
        ..plain()
    };
    assert_eq!(stage_samples(&plain(), 101), 0);
    assert_eq!(stage_samples(&staged, 101), 51);
    assert_eq!(stage_load(&staged, 101), load(51, 6));
    assert_eq!(stage_share_load(&staged, 101, 4), load(14, 6));
    assert_eq!(stage_share_load(&staged, 100, 5), load(11, 6));
}
