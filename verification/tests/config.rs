use psi_ask::config::{history_len, millis, secs, trigger_text, Config, Span};
use psi_ask::number::ParseIntError;

fn config() -> Config {
    Config {
        kind: "some".to_string(),
        stall: millis("500").unwrap(),
        window: secs("2").unwrap(),
        cooldown: secs("30").unwrap(),
        top: 10,
        answer_timeout: secs("60").unwrap(),
        pause: true,
        overlay: true,
        cgroups: vec![],
        chart_mins: 3,
    }
}

#[test]
fn spans_are_read_in_their_unit() {
    assert_eq!(millis("500"), Ok(Span { micros: 500_000 }));
    assert_eq!(secs("2"), Ok(Span { micros: 2_000_000 }));
    assert_eq!(millis("1500").unwrap().as_secs(), 1);
    assert_eq!(millis("1500").unwrap().as_millis(), 1500);
    assert_eq!(secs("60").unwrap().as_secs(), 60);
    assert_eq!(secs("18446744073709551615").unwrap().as_secs(), u64::MAX as u128);
    assert_eq!(millis(""), Err(ParseIntError::Empty));
    assert_eq!(millis("-1"), Err(ParseIntError::InvalidDigit));
    assert_eq!(secs("0.5"), Err(ParseIntError::InvalidDigit));
    assert_eq!(secs("18446744073709551616"), Err(ParseIntError::PosOverflow));
}

#[test]
fn trigger_is_what_the_kernel_wants() {
    let mut cfg = config();
    assert_eq!(trigger_text(&cfg), "some 500000 2000000\0");
    cfg.kind = "full".to_string();
    cfg.stall = millis("150").unwrap();
    cfg.window = secs("1").unwrap();
    assert_eq!(trigger_text(&cfg), "full 150000 1000000\0");
}

#[test]
fn history_holds_two_samples_at_least() {
    let mut cfg = config();
    assert_eq!(history_len(&cfg), 90);
    cfg.chart_mins = 1;
    assert_eq!(history_len(&cfg), 30);
    cfg.chart_mins = 0;
    assert_eq!(history_len(&cfg), 2);
    cfg.chart_mins = 10;
    assert_eq!(history_len(&cfg), 300);
}
