use psi_ask::config::{Config, Span};
use psi_ask::psi::{
    avg10_text, meminfo_text, plan_sources, psi_line, setup_sources, to_source, total_us_of,
    PSI_MEMORY,
};

const TEXT: &str = "some avg10=1.23 avg60=0.50 avg300=0.10 total=123456\n\
                    full avg10=0.42 avg60=0.05 avg300=0.01 total=654\n";

fn config(cgroups: &[&str]) -> Config {
    Config {
        kind: "some".to_string(),
        stall: Span { micros: 500_000 },
        window: Span { micros: 2_000_000 },
        cooldown: Span { micros: 30_000_000 },
        top: 10,
        answer_timeout: Span { micros: 60_000_000 },
        pause: true,
        overlay: true,
        cgroups: cgroups.iter().map(|c| c.to_string()).collect(),
        chart_mins: 3,
    }
}

#[test]
fn pressure_lines_are_read() {
    assert_eq!(total_us_of("some", TEXT), 123456);
    assert_eq!(total_us_of("full", TEXT), 654);
    assert_eq!(total_us_of("cpu", TEXT), 0);
    assert_eq!(total_us_of("some", ""), 0);
    assert_eq!(total_us_of("some", "some total=x total=5"), 0);
    assert_eq!(total_us_of("some", "some avg10=0.00"), 0);
    assert_eq!(avg10_text("some", TEXT), Some("1.23".to_string()));
    assert_eq!(avg10_text("full", TEXT), Some("0.42".to_string()));
    assert_eq!(avg10_text("some", "some total=5"), None);
    assert_eq!(avg10_text("full", "some avg10=1.00"), None);
}

#[test]
fn shown_line_is_that_of_the_kind() {
    assert_eq!(
        psi_line("full", Some(TEXT)),
        "full avg10=0.42 avg60=0.05 avg300=0.01 total=654"
    );
    assert_eq!(psi_line("cpu", Some(TEXT)), "");
    assert_eq!(psi_line("some", None), "");
}

#[test]
fn memory_numbers_are_read() {
    let text = "MemTotal:       16304256 kB\nMemFree:          812345 kB\nMemAvailable:    8000000 kB\n";
    assert_eq!(meminfo_text("MemTotal:", text), Some("16304256".to_string()));
    assert_eq!(meminfo_text("MemAvailable:", text), Some("8000000".to_string()));
    assert_eq!(meminfo_text("SwapTotal:", text), None);
    assert_eq!(meminfo_text("MemTotal:", "MemTotal:\n"), None);
}

#[test]
fn sources_are_planned() {
    let plans = plan_sources(&config(&["user.slice/app.slice", "/sys/fs/cgroup/x", "a/"]));
    let got: Vec<(&str, &str, Option<&str>)> = plans
        .iter()
        .map(|p| (p.label.as_str(), p.pressure_path.as_str(), p.cgroup_dir.as_deref()))
        .collect();
    assert_eq!(
        got,
        vec![
            ("system", PSI_MEMORY, None),
            (
                "app.slice",
                "/sys/fs/cgroup/user.slice/app.slice/memory.pressure",
                Some("/sys/fs/cgroup/user.slice/app.slice"),
            ),
            ("x", "/sys/fs/cgroup/x/memory.pressure", Some("/sys/fs/cgroup/x")),
            ("a", "/sys/fs/cgroup/a//memory.pressure", Some("/sys/fs/cgroup/a/")),
        ]
    );
}

#[test]
fn cgroups_without_a_trigger_are_skipped() {
    let plans = plan_sources(&config(&["a", "b"]));
    let sources = setup_sources(plans, vec![None, None, Some(7)]);
    assert_eq!(sources.len(), 2);
    assert_eq!(sources[0].label, "system");
    assert_eq!(sources[0].trigger, None);
    assert_eq!(sources[1].label, "b");
    assert_eq!(sources[1].trigger, Some(7));

    let mut plans = plan_sources(&config(&["a"]));
    let cgroup = plans.remove(1);
    assert!(to_source::<u32>(cgroup, None).is_none());
    let system = plans.remove(0);
    let source = to_source(system, Some(3)).unwrap();
    assert_eq!((source.pressure_path.as_str(), source.trigger), (PSI_MEMORY, Some(3)));
}

#[test]
fn cgroups_are_shown_by_their_names() {
    for (cgroup, name) in [
        ("user.slice", "user.slice"),
        ("user.slice/", "user.slice"),
        ("user.slice///", "user.slice"),
        ("user.slice/app.slice/", "app.slice"),
        ("/sys/fs/cgroup/x//y//", "y"),
        ("/x", "x"),
        ("/", ""),
    ] {
        let plans = plan_sources(&config(&[cgroup]));
        let triggers = plans.iter().map(|_| Some(1)).collect();
        let sources = setup_sources(plans, triggers);
        assert_eq!(sources.len(), 2);
        assert_eq!(sources[1].label, name, "{}", cgroup);
    }
}
