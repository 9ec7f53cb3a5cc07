//! Small texts and values around the program's start, its chart and its log.

use vstd::prelude::*;

use crate::config::Config;
use crate::number::{decimal, push_decimal, push_signed, signed_decimal};
use crate::psi::PSI_MEMORY;
use crate::text::opt_str_text;

verus! {

// ----------------------------------------------------------------- start
/// The debug setting for the toolkit: what is set already, and portals
/// switched off.
pub open spec fn debug_setting(current: Option<Seq<char>>) -> Seq<char> {
    match current {
        Some(v) => if v.len() > 0 {
            v + ":no-portals"@
        } else {
            "no-portals"@
        },
        None => "no-portals"@,
    }
}

/// The debug setting for the toolkit.
pub fn gdk_debug(current: Option<&str>) -> (r: String)
    ensures
        r@ == debug_setting(opt_str_text(current)),
{
    let mut out: String = String::new();
    if let Some(v) = current {
        if !v.is_empty() {
            out.append(v);
            out.append(":");
        }
    }
    proof {
        reveal_strlit(":no-portals");
        reveal_strlit(":");
        reveal_strlit("no-portals");
    }
    out.append("no-portals");
    assert(out@ =~= debug_setting(opt_str_text(current)));
    out
}

/// The line that the program begins with.
pub open spec fn banner_of(cfg: Config) -> Seq<char> {
    "psi-ask watching "@ + PSI_MEMORY@ + " ("@ + cfg.kind@ + " "@ + decimal(
        (cfg.stall.micros / 1000) as nat,
    ) + "ms/"@ + decimal((cfg.window.micros / 1_000_000) as nat) + "s window, cooldown "@ + decimal(
        (cfg.cooldown.micros / 1_000_000) as nat,
    ) + "s). Ctrl-C to quit."@
}

/// The line that the program begins with.
pub fn banner(cfg: &Config) -> (r: String)
    ensures
        r@ == banner_of(*cfg),
{
    let mut out: String = String::new();
    out.append("psi-ask watching ");
    out.append(PSI_MEMORY);
    out.append(" (");
    out.append(cfg.kind.as_str());
    out.append(" ");
    push_decimal(&mut out, cfg.stall.as_millis());
    out.append("ms/");
    push_decimal(&mut out, cfg.window.as_secs());
    out.append("s window, cooldown ");
    push_decimal(&mut out, cfg.cooldown.as_secs());
    out.append("s). Ctrl-C to quit.");
    assert(out@ =~= banner_of(*cfg));
    out
}

// ----------------------------------------------------------------- clock
/// A number with two digits at least.
pub open spec fn two_digits(n: i32) -> Seq<char> {
    if 0 <= n < 10 {
        "0"@ + signed_decimal(n as int)
    } else {
        signed_decimal(n as int)
    }
}

/// Appends a number with two digits at least.
fn push_two_digits(out: &mut String, n: i32)
    ensures
        final(out)@ == old(out)@ + two_digits(n),
{
    if 0 <= n && n < 10 {
        out.append("0");
    }
    push_signed(out, n);
    assert(out@ =~= old(out)@ + two_digits(n));
}

/// A time of day as hours, minutes and seconds.
pub open spec fn clock_of(hours: i32, minutes: i32, seconds: i32) -> Seq<char> {
    two_digits(hours) + ":"@ + two_digits(minutes) + ":"@ + two_digits(seconds)
}

/// A time of day as hours, minutes and seconds.
pub fn clock_text(hours: i32, minutes: i32, seconds: i32) -> (r: String)
    ensures
        r@ == clock_of(hours, minutes, seconds),
{
    let mut out: String = String::new();
    push_two_digits(&mut out, hours);
    out.append(":");
    push_two_digits(&mut out, minutes);
    out.append(":");
    push_two_digits(&mut out, seconds);
    assert(out@ =~= two_digits(hours) + ":"@ + two_digits(minutes) + ":"@ + two_digits(seconds));
    out
}

// ----------------------------------------------------------------- chart
/// A colour: red, green and blue.
#[derive(Clone, Copy, Debug, PartialEq, Eq, Structural)]
pub struct Colour {
    pub red: u8,
    pub green: u8,
    pub blue: u8,
}

/// The colour of the pressure line, which stands out against a dark or a
/// light background.
pub fn pressure_colour(is_dark: bool) -> (r: Colour)
    ensures
        r == if is_dark {
            (Colour { red: 0x39, green: 0x87, blue: 0xe5 })
        } else {
            (Colour { red: 0x2a, green: 0x78, blue: 0xd6 })
        },
{
    if is_dark {
        Colour { red: 0x39, green: 0x87, blue: 0xe5 }
    } else {
        Colour { red: 0x2a, green: 0x78, blue: 0xd6 }
    }
}

/// The colour of the memory line, which stands out against a dark or a light
/// background.
pub fn memory_colour(is_dark: bool) -> (r: Colour)
    ensures
        r == if is_dark {
            (Colour { red: 0xd9, green: 0x59, blue: 0x26 })
        } else {
            (Colour { red: 0xeb, green: 0x68, blue: 0x34 })
        },
{
    if is_dark {
        Colour { red: 0xd9, green: 0x59, blue: 0x26 }
    } else {
        Colour { red: 0xeb, green: 0x68, blue: 0x34 }
    }
}

/// The hexadecimal digit for a number below sixteen.
pub open spec fn hex_digit(n: nat) -> char {
    if n < 10 {
        ('0' as int + n) as char
    } else {
        ('a' as int + n - 10) as char
    }
}

/// A byte as two hexadecimal digits.
pub open spec fn hex_byte(n: u8) -> Seq<char> {
    seq![hex_digit((n / 16) as nat), hex_digit((n % 16) as nat)]
}

/// Appends a byte as two hexadecimal digits.
fn push_hex(out: &mut String, n: u8)
    ensures
        final(out)@ == old(out)@ + hex_byte(n),
{
    let high: u8 = n / 16;
    let low: u8 = n % 16;
    out.push(
        (if high < 10 {
            48u8 + high
        } else {
            87u8 + high
        }) as char,
    );
    out.push(
        (if low < 10 {
            48u8 + low
        } else {
            87u8 + low
        }) as char,
    );
    assert(out@ =~= old(out)@ + hex_byte(n));
}

/// An entry of the chart's legend: a dot in the colour, and a text.
pub fn legend_markup(colour: Colour, text: &str) -> (r: String)
    ensures
        r@ == "<span foreground=\"#"@ + hex_byte(colour.red) + hex_byte(colour.green) + hex_byte(
            colour.blue,
        ) + "\">●</span> "@ + text@,
{
    let mut out: String = String::new();
    out.append("<span foreground=\"#");
    push_hex(&mut out, colour.red);
    push_hex(&mut out, colour.green);
    push_hex(&mut out, colour.blue);
    out.append("\">●</span> ");
    out.append(text);
    assert(out@ =~= "<span foreground=\"#"@ + hex_byte(colour.red) + hex_byte(colour.green)
        + hex_byte(colour.blue) + "\">●</span> "@ + text@);
    out
}

/// What stands at the chart's left edge.
pub fn past_label(chart_mins: u64) -> (r: String)
    ensures
        r@ == decimal(chart_mins as nat) + " min ago"@,
{
    let mut out: String = String::new();
    push_decimal(&mut out, chart_mins as u128);
    out.append(" min ago");
    assert(out@ =~= decimal(chart_mins as nat) + " min ago"@);
    out
}

// ------------------------------------------------------------------ laws
/// Portals are switched off in any case, and what is set already stays in
/// front.
pub proof fn law_portals_are_off(current: Seq<char>)
    ensures
        debug_setting(None) == "no-portals"@,
        current.len() == 0 ==> debug_setting(Some(current)) == "no-portals"@,
        current.len() > 0 ==> debug_setting(Some(current)) == current + ":no-portals"@,
{
}

/// Numbers of a clock have two digits: a zero stands before a single one, and
/// nothing is added to any other.
pub proof fn law_two_digits(n: i32)
    ensures
        0 <= n < 10 ==> two_digits(n) == "0"@ + signed_decimal(n as int) && two_digits(n).len()
            == 2,
        n < 0 || n >= 10 ==> two_digits(n) == signed_decimal(n as int),
{
    reveal_strlit("0");
    if 0 <= n < 10 {
        crate::number::law_no_leading_zero(n as nat);
    }
}

/// A byte is written with its two hexadecimal digits.
pub proof fn law_hex_digits(n: u8)
    ensures
        hex_byte(n).len() == 2,
        forall|k: int|
            0 <= k < 2 ==> {
                let d = if k == 0 {
                    n / 16
                } else {
                    n % 16
                };
                &&& d < 10 ==> #[trigger] hex_byte(n)[k] as int == '0' as int + d
                &&& d >= 10 ==> hex_byte(n)[k] as int == 'a' as int + d - 10
            },
{
}

/// A time of day is shown as hours, minutes and seconds, with colons between
/// them and a zero in front of what has one digit.
pub proof fn law_clock(hours: i32, minutes: i32, seconds: i32)
    requires
        hours >= 0,
        minutes >= 0,
        seconds >= 0,
    ensures
        clock_of(hours, minutes, seconds) == (if hours < 10 {
            "0"@
        } else {
            ""@
        }) + signed_decimal(hours as int) + ":"@ + (if minutes < 10 {
            "0"@
        } else {
            ""@
        }) + signed_decimal(minutes as int) + ":"@ + (if seconds < 10 {
            "0"@
        } else {
            ""@
        }) + signed_decimal(seconds as int),
{
    reveal_strlit("");
    let h = signed_decimal(hours as int);
    let m = signed_decimal(minutes as int);
    let s = signed_decimal(seconds as int);
    assert(""@ =~= Seq::<char>::empty());
    assert(two_digits(hours) =~= (if hours < 10 {
        "0"@
    } else {
        ""@
    }) + h);
    assert(two_digits(minutes) =~= (if minutes < 10 {
        "0"@
    } else {
        ""@
    }) + m);
    assert(two_digits(seconds) =~= (if seconds < 10 {
        "0"@
    } else {
        ""@
    }) + s);
    assert(clock_of(hours, minutes, seconds) =~= (if hours < 10 {
        "0"@
    } else {
        ""@
    }) + h + ":"@ + (if minutes < 10 {
        "0"@
    } else {
        ""@
    }) + m + ":"@ + (if seconds < 10 {
        "0"@
    } else {
        ""@
    }) + s);
}

/// The line that the program begins with says what is watched, and the kind,
/// the stall, the window and the quiet period of the configuration.
pub proof fn law_banner(cfg: Config)
    ensures
        banner_of(cfg) == "psi-ask watching "@ + "/proc/pressure/memory"@ + " ("@ + cfg.kind@ + " "@
            + decimal((cfg.stall.micros / 1000) as nat) + "ms/"@ + decimal(
            (cfg.window.micros / 1_000_000) as nat,
        ) + "s window, cooldown "@ + decimal((cfg.cooldown.micros / 1_000_000) as nat)
            + "s). Ctrl-C to quit."@,
{
}

} // verus!
