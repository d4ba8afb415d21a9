use focus_internals::maintenance::{
    enable_steps, job_opts_for, program_arguments, time_periods_to_schedule, CalendarInterval,
    LaunchdPlist, Launchctl, ScheduledJobOpts, TimePeriod,
};

fn plist_opts_fix() -> ScheduledJobOpts {
    ScheduledJobOpts {
        focus_path: "/path/to/focus".into(),
        git_binary_path: "/usr/local/bin/git".into(),
        time_period: TimePeriod::Hourly,
        config_key: "maintenance.repo".into(),
        config_path: Some("/path/to/config".to_string()),
        schedule_defaults: Some(CalendarInterval {
            hour: Some(4),
            minute: Some(12),
            ..Default::default()
        }),
        all_repos: true,
    }
}

#[test]
fn test_serialize_plist_value() {
    let plist = LaunchdPlist::from_opts(&plist_opts_fix()).unwrap();
    assert!(!plist.disabled);
    assert_eq!(plist.label, "com.twitter.git-maintenance.hourly");
    assert_eq!(
        plist.program_args,
        vec![
            "/path/to/focus",
            "maintenance",
            "--git-config-key=maintenance.repo",
            "run",
            "--git-binary-path=/usr/local/bin/git",
            "--time-period=hourly",
            "--config-path=/path/to/config",
            "--tracked",
        ]
    );
    assert_eq!(plist.start_calendar_interval.len(), 24);
    for (hour, interval) in plist.start_calendar_interval.iter().enumerate() {
        assert_eq!(interval.hour, Some(hour as u32));
        assert_eq!(interval.minute, Some(12));
        assert_eq!(interval.weekday, None);
        assert_eq!(interval.day, None);
    }
}

#[test]
fn daily_and_weekly_intervals() {
    let daily = CalendarInterval::for_time_period_with(TimePeriod::Daily, CalendarInterval::default(), 7);
    assert_eq!(daily.len(), 7);
    for (weekday, interval) in daily.iter().enumerate() {
        assert_eq!(interval.weekday, Some(weekday as u32));
        assert_eq!(interval.hour, Some(4));
        assert_eq!(interval.minute, Some(7));
    }
    let weekly = CalendarInterval::for_time_period_with(
        TimePeriod::Weekly,
        CalendarInterval { hour: Some(9), ..Default::default() },
        30,
    );
    assert_eq!(
        weekly,
        vec![CalendarInterval { day: None, hour: Some(9), minute: Some(30), weekday: Some(1) }]
    );
}

#[test]
fn random_minutes_stay_within_the_hour() {
    for _ in 0..20 {
        let hourly = CalendarInterval::for_time_period(TimePeriod::Hourly, CalendarInterval::default()).unwrap();
        assert_eq!(hourly.len(), 24);
        let minute = hourly[0].minute.unwrap();
        assert!(minute < 60);
        assert!(hourly.iter().all(|i| i.minute == Some(minute)));
    }
}

#[test]
fn program_arguments_without_options() {
    let mut opts = job_opts_for("/bin/focus", "/usr/bin/git", "key", false, TimePeriod::Weekly);
    assert_eq!(
        program_arguments(&opts),
        vec![
            "/bin/focus",
            "maintenance",
            "--git-config-key=key",
            "run",
            "--git-binary-path=/usr/bin/git",
            "--time-period=weekly",
        ]
    );
    opts.time_period = TimePeriod::Daily;
    assert_eq!(opts.label(), "com.twitter.git-maintenance.daily");
}

#[test]
fn launchctl_paths_and_commands() {
    let launchctl = Launchctl::for_home("/Users/alice");
    assert_eq!(launchctl.launchctl_bin, "/bin/launchctl");
    assert_eq!(launchctl.launch_agents_path, "/Users/alice/Library/LaunchAgents");
    assert_eq!(
        launchctl.plist_path("com.twitter.git-maintenance.hourly"),
        "/Users/alice/Library/LaunchAgents/com.twitter.git-maintenance.hourly.plist"
    );
    assert_eq!(Launchctl::gui_domain_id(501), "gui/501");
    assert_eq!(Launchctl::gui_service_id(0, "x"), "gui/0/x");
    assert_eq!(Launchctl::enable_arguments(501, "l"), vec!["enable", "gui/501/l"]);
    assert_eq!(Launchctl::bootout_arguments(501, "l"), vec!["bootout", "gui/501/l"]);
    assert_eq!(Launchctl::print_arguments(42, "l"), vec!["print", "gui/42/l"]);
    assert_eq!(
        launchctl.bootstrap_arguments(501, "l"),
        vec!["bootstrap", "gui/501", "/Users/alice/Library/LaunchAgents/l.plist"]
    );
}

#[test]
fn enabling_decisions() {
    let s = enable_steps(true, true);
    assert!(!s.bootout && !s.enable_and_bootstrap);
    let s = enable_steps(true, false);
    assert!(s.bootout && s.enable_and_bootstrap);
    let s = enable_steps(false, true);
    assert!(!s.bootout && s.enable_and_bootstrap);
    assert_eq!(time_periods_to_schedule(None), TimePeriod::all());
    assert_eq!(time_periods_to_schedule(Some(TimePeriod::Daily)), vec![TimePeriod::Daily]);
}
