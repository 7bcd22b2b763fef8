use kinglang::decimal::single_to_text;
use kinglang::ieee::{
    single_add, single_divide, single_equal, single_less, single_less_equal, single_multiply,
    single_negate, single_of_double, single_of_int, single_subtract,
};
use kinglang::scanner::LiteralValue::FValue;
use kinglang::scanner::Scanner;

fn next(state: &mut u64) -> u64 {
    *state = state
        .wrapping_mul(6364136223846793005)
        .wrapping_add(1442695040888963407);
    *state >> 16
}

fn same(ours: u32, theirs: f32) -> bool {
    if theirs.is_nan() {
        f32::from_bits(ours).is_nan()
    } else {
        ours == theirs.to_bits()
    }
}

fn interesting() -> Vec<u32> {
    let mut v = vec![
        0x0000_0000,
        0x8000_0000,
        0x0000_0001,
        0x0000_0002,
        0x007f_ffff,
        0x0080_0000,
        0x0080_0001,
        0x00ff_ffff,
        0x0100_0000,
        0x3f80_0000,
        0x3f80_0001,
        0x3fff_ffff,
        0x4000_0000,
        0x4b7f_ffff,
        0x4b80_0000,
        0x7f7f_ffff,
        0x7f80_0000,
        0xff80_0000,
        0x7fc0_0000,
        0xffc0_0001,
        f32::to_bits(1.0),
        f32::to_bits(-1.0),
        f32::to_bits(0.1),
        f32::to_bits(0.5),
        f32::to_bits(1.5),
        f32::to_bits(3.0),
        f32::to_bits(1e-40),
        f32::to_bits(1e38),
        f32::to_bits(-2.5e-7),
        f32::to_bits(16777216.0),
        f32::to_bits(16777217.0),
        f32::to_bits(45.67),
    ];
    let mut state: u64 = 7;
    for _ in 0..12 {
        v.push(next(&mut state) as u32);
    }
    v
}

#[test]
fn arithmetic_agrees_with_the_machine() {
    let values = interesting();
    for &x in &values {
        for &y in &values {
            let a = f32::from_bits(x);
            let b = f32::from_bits(y);
            assert!(same(single_add(x, y), a + b), "{} + {}", a, b);
            assert!(same(single_subtract(x, y), a - b), "{} - {}", a, b);
            assert!(same(single_multiply(x, y), a * b), "{} * {}", a, b);
            assert!(same(single_divide(x, y), a / b), "{} / {}", a, b);
            assert_eq!(single_equal(x, y), a == b);
            assert_eq!(single_less(x, y), a < b);
            assert_eq!(single_less_equal(x, y), a <= b);
        }
        assert_eq!(single_negate(x), (-f32::from_bits(x)).to_bits());
    }
}

#[test]
fn arithmetic_agrees_with_the_machine_on_many_pairs() {
    let mut state: u64 = 99;
    for round in 0..1500 {
        let mut x = next(&mut state) as u32;
        let mut y = next(&mut state) as u32;
        if round % 3 == 0 {
            // Exponents that are near each other, where sums cancel and round.
            y = (x & 0xff80_0000) ^ (y & 0x807f_ffff);
            if round % 6 == 0 {
                y = y.wrapping_add(0x0080_0000 * (round % 5));
            }
        }
        if round % 7 == 0 {
            // Small numbers, where results are subnormal.
            x &= 0x81ff_ffff;
        }
        let a = f32::from_bits(x);
        let b = f32::from_bits(y);
        assert!(same(single_add(x, y), a + b), "{:#x} + {:#x}", x, y);
        assert!(same(single_subtract(x, y), a - b), "{:#x} - {:#x}", x, y);
        assert!(same(single_multiply(x, y), a * b), "{:#x} * {:#x}", x, y);
        assert!(same(single_divide(x, y), a / b), "{:#x} / {:#x}", x, y);
        assert_eq!(single_equal(x, y), a == b);
        assert_eq!(single_less(x, y), a < b);
        assert_eq!(single_less_equal(x, y), a <= b);
    }
}

#[test]
fn text_agrees_with_the_machine() {
    let values = interesting();
    for &x in &values {
        assert_eq!(single_to_text(x), f32::from_bits(x).to_string(), "{:#x}", x);
    }
}

#[test]
fn text_agrees_with_the_machine_on_many_numbers() {
    let mut state: u64 = 5;
    for round in 0..400u32 {
        let mut x = next(&mut state) as u32;
        if round % 4 == 0 {
            // Powers of two, whose neighbours below are nearer than those above.
            x &= 0xff80_0000;
        }
        if round % 5 == 0 {
            // Whole numbers and short fractions.
            x = f32::to_bits((next(&mut state) % 100000) as f32 / 8.0);
        }
        assert_eq!(single_to_text(x), f32::from_bits(x).to_string(), "{:#x}", x);
    }
}

#[test]
fn narrowing_agrees_with_the_machine_on_many_numbers() {
    let mut state: u64 = 17;
    for round in 0..1500u32 {
        let mut d = next(&mut state) << 16 ^ next(&mut state);
        if round % 2 == 0 {
            // Within and near the range of the narrower format.
            let exponent = 1023 - 160 + (next(&mut state) % 300);
            d = (d & 0x800f_ffff_ffff_ffff) | (exponent << 52);
        }
        if round % 8 == 0 {
            // Half way between two neighbours, and just beside it.
            d = (d & 0xffff_ffff_e000_0000) | 0x1000_0000;
            d = d.wrapping_add((round as u64 % 3).wrapping_sub(1));
        }
        assert!(same(single_of_double(d), f64::from_bits(d) as f32), "{:#x}", d);
    }
}

#[test]
fn literals_agree_with_the_machine_on_many_texts() {
    let mut state: u64 = 23;
    for round in 0..150u32 {
        let whole_digits = 1 + next(&mut state) % 25;
        let fraction_digits = next(&mut state) % 30;
        let mut source = String::new();
        for _ in 0..whole_digits {
            source.push(char::from(b'0' + (next(&mut state) % 10) as u8));
        }
        if fraction_digits > 0 {
            source.push('.');
            for _ in 0..fraction_digits {
                source.push(char::from(b'0' + (next(&mut state) % 10) as u8));
            }
        }
        if round % 10 == 0 {
            source = format!("0.{}{}", "0".repeat((round * 2) as usize), source.replace('.', ""));
        }
        let mut scanner = Scanner::new(&source);
        let tokens = scanner.scan_tokens().unwrap();
        assert_eq!(tokens.len(), 2, "{}", source);
        match tokens[0].literal {
            Some(FValue(bits)) => {
                assert_eq!(bits, source.parse::<f64>().unwrap().to_bits(), "{}", source)
            }
            _ => panic!("no number"),
        }
    }
}

#[test]
fn conversions_agree_with_the_machine() {
    let mut state: u64 = 11;
    let mut doubles: Vec<u64> = vec![
        0,
        1,
        0x8000_0000_0000_0000,
        0x7ff0_0000_0000_0000,
        0xfff0_0000_0000_0000,
        0x7ff8_0000_0000_0000,
        f64::to_bits(1.0),
        f64::to_bits(123.123),
        f64::to_bits(1e300),
        f64::to_bits(1e-300),
        f64::to_bits(3.4028235677973366e38),
        f64::to_bits(3.4028235e38),
        f64::to_bits(1.401298464324817e-45),
        f64::to_bits(7.006492321624085e-46),
        f64::to_bits(16777217.0),
    ];
    for _ in 0..6 {
        doubles.push(next(&mut state) << 16 | 0x1234);
    }
    for &d in &doubles {
        assert!(same(single_of_double(d), f64::from_bits(d) as f32), "{:#x}", d);
    }
    let ints: Vec<i64> = vec![0, 1, -1, 16777216, 16777217, 16777219, i64::MAX, i64::MIN, -123456789012];
    for &i in &ints {
        assert_eq!(single_of_int(i), (i as f32).to_bits(), "{}", i);
    }
}

#[test]
fn literals_agree_with_the_machine() {
    let sources = [
        "0",
        "1",
        "5",
        "123.123",
        "0.1",
        "3.14159265358979323846264338327950288",
        "179769313486231570000000000000000000000000000000000000000000000000000000000000000000000000000000000000000000000000000000000000000000000000000000000000000000000000000000000000000000000000000000000000000000000000000000000000000000000000000000000000000000000000000000000000000000000000000000000000000000000000000",
        "0.000000000000000000000000000000000000000000000000000000000000000000000000000000000000000000000000000000000000000000000000000000000000000000000000000000000000000000000000000000000000000000000000000000000000000000000000000000000000000000000000000000000000000000000000000000000000000000000000000000000000000000000000000000000000494065645841246544",
        "9007199254740993",
        "2.2250738585072014",
        "4.35",
    ];
    for source in sources {
        let mut scanner = Scanner::new(source);
        let tokens = scanner.scan_tokens().unwrap();
        match tokens[0].literal {
            Some(FValue(bits)) => {
                assert_eq!(bits, source.parse::<f64>().unwrap().to_bits(), "{}", source)
            }
            _ => panic!("no number"),
        }
    }
}

#[test]
fn the_text_of_a_number_is_read_back_as_the_number() {
    let mut values: Vec<u32> = vec![
        f32::to_bits(0.0),
        f32::to_bits(1.0),
        f32::to_bits(123.0),
        f32::to_bits(45.67),
        f32::to_bits(0.1),
        f32::to_bits(1e20),
        f32::to_bits(1e-7),
        f32::to_bits(16777216.0),
        f32::to_bits(f32::MAX),
        f32::to_bits(f32::MIN_POSITIVE),
        1,
        0x007f_ffff,
    ];
    let mut state: u64 = 3;
    while values.len() < 60 {
        let bits = (next(&mut state) as u32) & 0x7fff_ffff;
        if bits < 0x7f80_0000 {
            values.push(bits);
        }
    }
    for &bits in &values {
        let text = single_to_text(bits);
        let mut scanner = Scanner::new(&text);
        let tokens = scanner.scan_tokens().unwrap();
        assert_eq!(tokens.len(), 2, "{}", text);
        assert_eq!(tokens[0].lexeme, text);
        match tokens[0].literal {
            Some(FValue(double)) => assert_eq!(single_of_double(double), bits, "{}", text),
            _ => panic!("no number"),
        }
        match kinglang::interpreter::run(&text) {
            Ok(kinglang::expr::LiteralValue::Number(back)) => assert_eq!(back, bits, "{}", text),
            other => panic!("unexpected {:?}", other),
        }
    }
}

#[test]
fn text_agrees_with_the_machine_beside_short_decimals() {
    let mut state: u64 = 31;
    for round in 0..700u32 {
        let digits = 1 + next(&mut state) % 8;
        let mut mantissa = next(&mut state) % 10u64.pow(digits as u32);
        if round % 3 == 0 {
            mantissa = 10u64.pow((digits - 1) as u32) * (1 + next(&mut state) % 9);
        }
        let exponent = (next(&mut state) % 80) as i32 - 45;
        let text = format!("{}e{}", mantissa, exponent);
        let near: f32 = text.parse().unwrap();
        let bits = near.to_bits();
        for candidate in [bits.wrapping_sub(1), bits, bits.wrapping_add(1)] {
            assert_eq!(
                single_to_text(candidate),
                f32::from_bits(candidate).to_string(),
                "{:#x} beside {}",
                candidate,
                text
            );
        }
    }
}

#[test]
fn literals_half_way_between_two_doubles() {
    let mut state: u64 = 41;
    for round in 0..120u32 {
        let shift = 1 + next(&mut state) % 10;
        let top = (1u64 << 52) | (next(&mut state) & ((1u64 << 52) - 1));
        let lower = top << shift;
        let half = 1u64 << (shift - 1);
        let sources = [
            format!("{}", lower + half),
            format!("{}.000", lower + half),
            format!("{}.0000000000000000000000001", lower + half),
            format!("{}", lower + half - 1),
            format!("{}.9999999999999999999999999", lower + half - 1),
            format!("{}", lower + half + 1),
            format!("{}", lower),
            format!("{}.5", lower >> shift << 1 >> 1),
        ];
        for source in &sources {
            let mut scanner = Scanner::new(source);
            let tokens = scanner.scan_tokens().unwrap();
            match tokens[0].literal {
                Some(FValue(bits)) => assert_eq!(
                    bits,
                    source.parse::<f64>().unwrap().to_bits(),
                    "{} in round {}",
                    source,
                    round
                ),
                _ => panic!("no number"),
            }
        }
    }
}

#[test]
fn literals_at_the_ends_of_the_range() {
    let smallest = format!("0.{}49406564584124654417656879286822137236505980261432476442558568250067550727020875186529983636163599237979656469544571773092665671035593979639877479601078187812630071319031140452784581716784898210368871863605699873072305000638740915356498438731247339727316961514003171538539807412623856559117102665855668676818703956031062493194527159149245532930545654440112748012970999954193198940908041656332452475714786901472678015935523861155013480352649347201937902681071074917033322268447533357208324319360923829", "0".repeat(323));
    let sources = [
        smallest.clone(),
        format!("{}1", smallest),
        format!("0.{}2", "0".repeat(323)),
        format!("0.{}3", "0".repeat(323)),
        format!("0.{}49", "0".repeat(322)),
        format!("0.{}5", "0".repeat(330)),
        format!("0.{}22250738585072011", "0".repeat(307)),
        format!("0.{}22250738585072014", "0".repeat(307)),
        format!("17976931348623157{}", "0".repeat(292)),
        format!("17976931348623158{}", "0".repeat(292)),
        format!("179769313486231580793728971405303415079934132710037826936173778980444968292764750946649017977587207096330286416692887910946555547851940402630657488671505820681908902000708383676273854845817711531764475730270069855571366959622842914819860834936475292719074168444365510704342711559699508093042880177904174497791{}", ""),
        format!("179769313486231580793728971405303415079934132710037826936173778980444968292764750946649017977587207096330286416692887910946555547851940402630657488671505820681908902000708383676273854845817711531764475730270069855571366959622842914819860834936475292719074168444365510704342711559699508093042880177904174497792{}", ""),
        format!("1{}", "0".repeat(400)),
    ];
    for source in &sources {
        let mut scanner = Scanner::new(source);
        let tokens = scanner.scan_tokens().unwrap();
        match tokens[0].literal {
            Some(FValue(bits)) => assert_eq!(
                bits,
                source.parse::<f64>().unwrap().to_bits(),
                "{}",
                source
            ),
            _ => panic!("no number"),
        }
    }
}
