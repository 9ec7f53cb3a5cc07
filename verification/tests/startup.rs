use psi_ask::config::{Config, Span};
use psi_ask::startup::{
    banner, clock_text, gdk_debug, legend_markup, memory_colour, past_label, pressure_colour,
};

#[test]
fn portals_are_switched_off() {
    assert_eq!(gdk_debug(None), "no-portals");
    assert_eq!(gdk_debug(Some("")), "no-portals");
    assert_eq!(gdk_debug(Some("misc")), "misc:no-portals");
}

#[test]
fn banner_says_what_is_watched() {
    let cfg = Config {
        kind: "full".to_string(),
        stall: Span { micros: 150_000 },
        window: Span { micros: 4_000_000 },
        cooldown: Span { micros: 30_000_000 },
        top: 10,
        answer_timeout: Span { micros: 60_000_000 },
        pause: true,
        overlay: true,
        cgroups: vec![],
        chart_mins: 3,
    };
    assert_eq!(
        banner(&cfg),
        "psi-ask watching /proc/pressure/memory (full 150ms/4s window, cooldown 30s). Ctrl-C to quit."
    );
}

#[test]
fn times_of_day() {
    assert_eq!(clock_text(0, 5, 59), "00:05:59");
    assert_eq!(clock_text(23, 10, 0), "23:10:00");
    assert_eq!(clock_text(-1, 100, 9), format!("{:02}:{:02}:{:02}", -1, 100, 9));
}

#[test]
fn legend_of_the_chart() {
    assert_eq!(
        legend_markup(pressure_colour(true), "pressure"),
        "<span foreground=\"#3987e5\">●</span> pressure"
    );
    assert_eq!(
        legend_markup(pressure_colour(false), "pressure"),
        "<span foreground=\"#2a78d6\">●</span> pressure"
    );
    assert_eq!(
        legend_markup(memory_colour(true), "memory"),
        "<span foreground=\"#d95926\">●</span> memory"
    );
    assert_eq!(
        legend_markup(memory_colour(false), "memory"),
        "<span foreground=\"#eb6834\">●</span> memory"
    );
    assert_eq!(past_label(3), "3 min ago");
}
