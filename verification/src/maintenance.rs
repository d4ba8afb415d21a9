//! Scheduling background maintenance with launchd: when each job runs, the
//! command line it runs, the property list that describes it and the
//! `launchctl` commands that load and unload it.

use vstd::prelude::*;
use crate::text::{decimal_string, decimal_text, views};

verus! {

/// How often a maintenance job runs.
#[derive(Debug, Clone, Copy, PartialEq, Eq, Structural)]
pub enum TimePeriod {
    Hourly,
    Daily,
    Weekly,
}

/// The name of a time period, as it stands in labels and arguments.
pub open spec fn period_text(tp: TimePeriod) -> Seq<char> {
    match tp {
        TimePeriod::Hourly => "hourly"@,
        TimePeriod::Daily => "daily"@,
        TimePeriod::Weekly => "weekly"@,
    }
}

impl TimePeriod {
    /// The name of the time period.
    pub fn name(&self) -> (res: String)
        ensures
            res@ == period_text(*self),
    {
        match self {
            TimePeriod::Hourly => String::from_str("hourly"),
            TimePeriod::Daily => String::from_str("daily"),
            TimePeriod::Weekly => String::from_str("weekly"),
        }
    }

    /// Every time period, shortest first.
    pub fn all() -> (res: Vec<TimePeriod>)
        ensures
            res@ == seq![TimePeriod::Hourly, TimePeriod::Daily, TimePeriod::Weekly],
    {
        let res = vec![TimePeriod::Hourly, TimePeriod::Daily, TimePeriod::Weekly];
        assert(res@ =~= seq![TimePeriod::Hourly, TimePeriod::Daily, TimePeriod::Weekly]);
        res
    }
}

/// A point in the week at which launchd starts a job; a missing field
/// matches every value.
#[derive(Debug, Clone, Copy, Default, PartialEq, Eq, Structural)]
pub struct CalendarInterval {
    pub day: Option<u32>,
    pub hour: Option<u32>,
    pub minute: Option<u32>,
    pub weekday: Option<u32>,
}

/// The hour at which daily and weekly jobs run unless told otherwise.
pub const DEFAULT_DAILY_HOUR: u32 = 4;

/// The weekday on which weekly jobs run unless told otherwise.
pub const DEFAULT_WEEKLY_WEEKDAY: u32 = 1;

/// One interval per weekday, at the given hour and minute.
pub open spec fn daily_spec(minute: u32, hour: u32) -> Seq<CalendarInterval> {
    Seq::new(
        7,
        |i: int|
            CalendarInterval {
                day: None,
                hour: Some(hour),
                minute: Some(minute),
                weekday: Some(i as u32),
            },
    )
}

/// One interval per hour, at the given minute.
pub open spec fn hourly_spec(minute: u32) -> Seq<CalendarInterval> {
    Seq::new(
        24,
        |i: int| CalendarInterval { day: None, hour: Some(i as u32), minute: Some(minute), weekday: None },
    )
}

/// One interval in the week.
pub open spec fn weekly_spec(minute: u32, hour: u32, weekday: u32) -> Seq<CalendarInterval> {
    seq![CalendarInterval { day: None, hour: Some(hour), minute: Some(minute), weekday: Some(weekday) }]
}

/// The intervals of a job of period `tp`, from the given defaults, with
/// `fallback_minute` where the defaults name no minute.
pub open spec fn intervals_spec(tp: TimePeriod, defaults: CalendarInterval, fallback_minute: u32) -> Seq<
    CalendarInterval,
> {
    let minute = match defaults.minute {
        Some(m) => m,
        None => fallback_minute,
    };
    let hour = match defaults.hour {
        Some(h) => h,
        None => DEFAULT_DAILY_HOUR,
    };
    match tp {
        TimePeriod::Hourly => hourly_spec(minute),
        TimePeriod::Daily => daily_spec(minute, hour),
        TimePeriod::Weekly => weekly_spec(
            minute,
            hour,
            match defaults.weekday {
                Some(w) => w,
                None => DEFAULT_WEEKLY_WEEKDAY,
            },
        ),
    }
}

/// The times of a job: an hourly job runs every hour of the day, a daily
/// job every weekday, a weekly job once; each at the minute the defaults
/// name (else `fallback_minute`), daily and weekly jobs at the hour they
/// name (else `DEFAULT_DAILY_HOUR`), and a weekly job on the weekday they
/// name (else `DEFAULT_WEEKLY_WEEKDAY`); no interval names a day of the
/// month.
pub proof fn lemma_job_times(tp: TimePeriod, defaults: CalendarInterval, fallback_minute: u32)
    ensures
        ({
            let v = intervals_spec(tp, defaults, fallback_minute);
            let minute = if defaults.minute is Some {
                defaults.minute
            } else {
                Some(fallback_minute)
            };
            let hour = if defaults.hour is Some {
                defaults.hour
            } else {
                Some(DEFAULT_DAILY_HOUR)
            };
            &&& forall|i: int| 0 <= i < v.len() ==> (#[trigger] v[i]).day is None && v[i].minute == minute
            &&& tp is Hourly ==> v.len() == 24 && forall|i: int|
                0 <= i < 24 ==> (#[trigger] v[i]).hour == Some(i as u32) && v[i].weekday is None
            &&& tp is Daily ==> v.len() == 7 && forall|i: int|
                0 <= i < 7 ==> (#[trigger] v[i]).hour == hour && v[i].weekday == Some(i as u32)
            &&& tp is Weekly ==> v.len() == 1 && v[0].hour == hour && v[0].weekday == (
            if defaults.weekday is Some {
                defaults.weekday
            } else {
                Some(DEFAULT_WEEKLY_WEEKDAY)
            })
        }),
{
}

/// A random number from the operating system, through the `try_fill_bytes`
/// of `rand::rngs::OsRng` on four bytes, read as a little-endian `u32`:
/// `None` where the operating system gives no random bytes. Nothing is
/// promised of the number, nor of when the operating system fails.
#[verifier::external_body]
fn random_u32() -> (res: Option<u32>) {
    let mut bytes = [0u8; 4];
    match rand::RngCore::try_fill_bytes(&mut rand::rngs::OsRng, &mut bytes) {
        Ok(()) => Some(u32::from_le_bytes(bytes)),
        Err(_) => None,
    }
}

/// A random minute of the hour: `None` exactly where no random number could
/// be had.
fn random_minute() -> (res: Option<u32>)
    ensures
        res matches Some(m) ==> m < 60,
{
    match random_u32() {
        Some(r) => Some(r % 60),
        None => None,
    }
}

impl CalendarInterval {
    /// Every day of the week at `hour`:`minute`.
    pub fn daily(minute: u32, hour: u32) -> (res: Vec<CalendarInterval>)
        ensures
            res@ == daily_spec(minute, hour),
    {
        let mut res: Vec<CalendarInterval> = Vec::new();
        let mut weekday: u32 = 0;
        while weekday < 7
            invariant
                weekday <= 7,
                res@ == daily_spec(minute, hour).subrange(0, weekday as int),
            decreases 7 - weekday,
        {
            res.push(
                CalendarInterval {
                    day: None,
                    hour: Some(hour),
                    minute: Some(minute),
                    weekday: Some(weekday),
                },
            );
            assert(res@ =~= daily_spec(minute, hour).subrange(0, weekday + 1));
            weekday = weekday + 1;
        }
        assert(res@ =~= daily_spec(minute, hour));
        res
    }

    /// Every hour at `minute`.
    pub fn hourly(minute: u32) -> (res: Vec<CalendarInterval>)
        ensures
            res@ == hourly_spec(minute),
    {
        let mut res: Vec<CalendarInterval> = Vec::new();
        let mut hour: u32 = 0;
        while hour < 24
            invariant
                hour <= 24,
                res@ == hourly_spec(minute).subrange(0, hour as int),
            decreases 24 - hour,
        {
            res.push(CalendarInterval { day: None, hour: Some(hour), minute: Some(minute), weekday: None });
            assert(res@ =~= hourly_spec(minute).subrange(0, hour + 1));
            hour = hour + 1;
        }
        assert(res@ =~= hourly_spec(minute));
        res
    }

    /// Once a week, on `weekday` at `hour`:`minute`.
    pub fn weekly(minute: u32, hour: u32, weekday: u32) -> (res: Vec<CalendarInterval>)
        ensures
            res@ == weekly_spec(minute, hour, weekday),
    {
        let res = vec![
            CalendarInterval {
                day: None,
                hour: Some(hour),
                minute: Some(minute),
                weekday: Some(weekday),
            },
        ];
        assert(res@ =~= weekly_spec(minute, hour, weekday));
        res
    }

    /// The intervals of a job of period `tp`, from `defaults`, with
    /// `fallback_minute` where `defaults` names no minute.
    pub fn for_time_period_with(tp: TimePeriod, defaults: CalendarInterval, fallback_minute: u32) -> (res:
        Vec<CalendarInterval>)
        ensures
            res@ == intervals_spec(tp, defaults, fallback_minute),
    {
        let minute = match defaults.minute {
            Some(m) => m,
            None => fallback_minute,
        };
        let hour = match defaults.hour {
            Some(h) => h,
            None => DEFAULT_DAILY_HOUR,
        };
        match tp {
            TimePeriod::Hourly => Self::hourly(minute),
            TimePeriod::Daily => Self::daily(minute, hour),
            TimePeriod::Weekly => {
                let weekday = match defaults.weekday {
                    Some(w) => w,
                    None => DEFAULT_WEEKLY_WEEKDAY,
                };
                Self::weekly(minute, hour, weekday)
            },
        }
    }

    /// The intervals of a job of period `tp`, from `defaults`, at a random
    /// minute where `defaults` names none; `None` where a random minute is
    /// needed and the operating system gives no random number.
    pub fn for_time_period(tp: TimePeriod, defaults: CalendarInterval) -> (res: Option<
        Vec<CalendarInterval>,
    >)
        ensures
            res matches Some(v) ==> exists|m: u32| m < 60 && v@ == intervals_spec(tp, defaults, m),
            defaults.minute is Some ==> (res matches Some(v) && v@ == intervals_spec(tp, defaults, 0)),
    {
        let fallback = match defaults.minute {
            Some(_) => 0,
            None => match random_minute() {
                Some(m) => m,
                None => {
                    return None;
                },
            },
        };
        Some(Self::for_time_period_with(tp, defaults, fallback))
    }
}

/// The prefix of the labels of maintenance jobs.
pub open spec fn label_prefix() -> Seq<char> {
    "com.twitter.git-maintenance."@
}

/// What a scheduled maintenance job runs, and when.
#[derive(Debug, Clone)]
pub struct ScheduledJobOpts {
    pub focus_path: String,
    pub git_binary_path: String,
    pub time_period: TimePeriod,
    pub config_key: String,
    pub config_path: Option<String>,
    pub schedule_defaults: Option<CalendarInterval>,
    /// Run maintenance on every repository that focus keeps track of.
    pub all_repos: bool,
}

impl ScheduledJobOpts {
    /// The launchd label of the job.
    pub fn label(&self) -> (res: String)
        ensures
            res@ == label_prefix() + period_text(self.time_period),
    {
        let name = self.time_period.name();
        String::from_str("com.twitter.git-maintenance.").concat(name.as_str())
    }
}

/// The flag that asks for every repository that focus keeps track of.
pub open spec fn all_repos_flag() -> Seq<char> {
    "--track"@ + "ed"@
}

/// The command line of a maintenance job.
pub open spec fn program_arguments_spec(
    focus_path: Seq<char>,
    git_binary_path: Seq<char>,
    time_period: TimePeriod,
    config_key: Seq<char>,
    config_path: Option<Seq<char>>,
    all_repos: bool,
) -> Seq<Seq<char>> {
    let base = seq![
        focus_path,
        "maintenance"@,
        "--git-config-key="@ + config_key,
        "run"@,
        "--git-binary-path="@ + git_binary_path,
        "--time-period="@ + period_text(time_period),
    ];
    let with_config = match config_path {
        Some(p) => base.push("--config-path="@ + p),
        None => base,
    };
    if all_repos {
        with_config.push(all_repos_flag())
    } else {
        with_config
    }
}

/// The command line that the job of `opts` runs.
pub fn program_arguments(opts: &ScheduledJobOpts) -> (res: Vec<String>)
    requires
        opts.git_binary_path@.len() > 0,
    ensures
        views(res@) == program_arguments_spec(
            opts.focus_path@,
            opts.git_binary_path@,
            opts.time_period,
            opts.config_key@,
            crate::text::optional_view(opts.config_path),
            opts.all_repos,
        ),
{
    let config_key = String::from_str("--git-config-key=").concat(opts.config_key.as_str());
    let git_binary_path = String::from_str("--git-binary-path=").concat(
        opts.git_binary_path.as_str(),
    );
    let period = opts.time_period.name();
    let time_period = String::from_str("--time-period=").concat(period.as_str());
    let mut args: Vec<String> = vec![
        opts.focus_path.clone(),
        String::from_str("maintenance"),
        config_key,
        String::from_str("run"),
        git_binary_path,
        time_period,
    ];
    let ghost base = views(args@);
    match &opts.config_path {
        Some(p) => {
            let a = String::from_str("--config-path=").concat(p.as_str());
            args.push(a);
            assert(views(args@) =~= base.push(a@));
        },
        None => {},
    }
    let ghost with_config = views(args@);
    if opts.all_repos {
        let t = String::from_str("--track").concat("ed");
        args.push(t);
        assert(views(args@) =~= with_config.push(t@));
    }
    args
}

/// The schedule defaults, or an interval that names nothing.
pub open spec fn defaults_or_none(d: Option<CalendarInterval>) -> CalendarInterval {
    match d {
        Some(d) => d,
        None => CalendarInterval { day: None, hour: None, minute: None, weekday: None },
    }
}

/// The description of a job that launchd is given.
#[derive(Debug, Clone)]
pub struct LaunchdPlist {
    pub disabled: bool,
    pub label: String,
    pub program_args: Vec<String>,
    pub start_calendar_interval: Vec<CalendarInterval>,
}

impl LaunchdPlist {
    /// The description of the job of `opts`, at a random minute where its
    /// schedule names none; `None` where a random minute is needed and the
    /// operating system gives no random number.
    pub fn from_opts(opts: &ScheduledJobOpts) -> (res: Option<LaunchdPlist>)
        requires
            opts.git_binary_path@.len() > 0,
        ensures
            res is None ==> defaults_or_none(opts.schedule_defaults).minute is None,
            res matches Some(p) ==> {
                &&& !p.disabled
                &&& p.label@ == label_prefix() + period_text(opts.time_period)
                &&& views(p.program_args@) == program_arguments_spec(
                    opts.focus_path@,
                    opts.git_binary_path@,
                    opts.time_period,
                    opts.config_key@,
                    crate::text::optional_view(opts.config_path),
                    opts.all_repos,
                )
                &&& exists|m: u32|
                    m < 60 && p.start_calendar_interval@ == #[trigger] intervals_spec(
                        opts.time_period,
                        defaults_or_none(opts.schedule_defaults),
                        m,
                    )
            },
    {
        let defaults = match opts.schedule_defaults {
            Some(d) => d,
            None => CalendarInterval { day: None, hour: None, minute: None, weekday: None },
        };
        match CalendarInterval::for_time_period(opts.time_period, defaults) {
            Some(intervals) => Some(
                LaunchdPlist {
                    disabled: false,
                    label: opts.label(),
                    program_args: program_arguments(opts),
                    start_calendar_interval: intervals,
                },
            ),
            None => None,
        }
    }
}

/// `name` put below the directory `base`, as a path: a rooted `name`
/// stands alone, and no separator is doubled.
pub open spec fn joined_path(base: Seq<char>, name: Seq<char>) -> Seq<char> {
    if name.len() > 0 && name[0] == '/' {
        name
    } else if base.len() == 0 {
        name
    } else if base[base.len() - 1] == '/' {
        base + name
    } else {
        base + "/"@ + name
    }
}

pub fn join_path(base: &str, name: &str) -> (res: String)
    ensures
        res@ == joined_path(base@, name@),
{
    let name_len = name.unicode_len();
    let base_len = base.unicode_len();
    if name_len > 0 && name.get_char(0) == '/' {
        return String::from_str(name);
    }
    if base_len == 0 {
        return String::from_str(name);
    }
    if base.get_char(base_len - 1) == '/' {
        String::from_str(base).concat(name)
    } else {
        String::from_str(base).concat("/").concat(name)
    }
}

/// Where `launchctl` is and where the job descriptions go.
#[derive(Debug, Clone)]
pub struct Launchctl {
    pub launchctl_bin: String,
    pub launch_agents_path: String,
}

/// The launchd domain of the graphical session of the user `uid`.
pub open spec fn gui_domain_text(uid: u32) -> Seq<char> {
    "gui/"@ + decimal_text(uid as nat)
}

impl Launchctl {
    /// The programs and directory of a user whose home is `home`.
    pub fn for_home(home: &str) -> (res: Launchctl)
        ensures
            res.launchctl_bin@ == "/bin/launchctl"@,
            res.launch_agents_path@ == joined_path(home@, "Library/LaunchAgents"@),
    {
        Launchctl {
            launchctl_bin: String::from_str("/bin/launchctl"),
            launch_agents_path: join_path(home, "Library/LaunchAgents"),
        }
    }

    /// The launchd domain of the graphical session of the user `uid`.
    pub fn gui_domain_id(uid: u32) -> (res: String)
        ensures
            res@ == gui_domain_text(uid),
    {
        let n = decimal_string(uid as usize);
        String::from_str("gui/").concat(n.as_str())
    }

    /// The service of the job `label` in that domain.
    pub fn gui_service_id(uid: u32, label: &str) -> (res: String)
        ensures
            res@ == gui_domain_text(uid) + "/"@ + label@,
    {
        Self::gui_domain_id(uid).concat("/").concat(label)
    }

    /// The file that describes the job `label`.
    pub fn plist_path(&self, label: &str) -> (res: String)
        ensures
            res@ == joined_path(self.launch_agents_path@, label@ + ".plist"@),
    {
        let file = String::from_str(label).concat(".plist");
        join_path(self.launch_agents_path.as_str(), file.as_str())
    }

    /// The arguments of `launchctl` that tell whether the job is loaded.
    pub fn print_arguments(uid: u32, label: &str) -> (res: Vec<String>)
        ensures
            views(res@) == seq!["print"@, gui_domain_text(uid) + "/"@ + label@],
    {
        let res = vec![String::from_str("print"), Self::gui_service_id(uid, label)];
        assert(views(res@) =~= seq!["print"@, gui_domain_text(uid) + "/"@ + label@]);
        res
    }

    /// The arguments of `launchctl` that enable the job.
    pub fn enable_arguments(uid: u32, label: &str) -> (res: Vec<String>)
        ensures
            views(res@) == seq!["enable"@, gui_domain_text(uid) + "/"@ + label@],
    {
        let res = vec![String::from_str("enable"), Self::gui_service_id(uid, label)];
        assert(views(res@) =~= seq!["enable"@, gui_domain_text(uid) + "/"@ + label@]);
        res
    }

    /// The arguments of `launchctl` that load the job.
    pub fn bootstrap_arguments(&self, uid: u32, label: &str) -> (res: Vec<String>)
        ensures
            views(res@) == seq![
                "bootstrap"@,
                gui_domain_text(uid),
                joined_path(self.launch_agents_path@, label@ + ".plist"@),
            ],
    {
        let res = vec![String::from_str("bootstrap"), Self::gui_domain_id(uid), self.plist_path(label)];
        assert(views(res@) =~= seq![
            "bootstrap"@,
            gui_domain_text(uid),
            joined_path(self.launch_agents_path@, label@ + ".plist"@),
        ]);
        res
    }

    /// The arguments of `launchctl` that unload the job.
    pub fn bootout_arguments(uid: u32, label: &str) -> (res: Vec<String>)
        ensures
            views(res@) == seq!["bootout"@, gui_domain_text(uid) + "/"@ + label@],
    {
        let res = vec![String::from_str("bootout"), Self::gui_service_id(uid, label)];
        assert(views(res@) =~= seq!["bootout"@, gui_domain_text(uid) + "/"@ + label@]);
        res
    }
}

/// What to do with a job once its description is written.
#[derive(Debug, Clone, Copy, PartialEq, Eq, Structural)]
pub struct EnableSteps {
    /// Unload the job first.
    pub bootout: bool,
    /// Enable and load the job.
    pub enable_and_bootstrap: bool,
}

/// A loaded job is left alone where asked, and otherwise reloaded; a job
/// that is not loaded is loaded.
pub fn enable_steps(loaded: bool, skip_if_already_scheduled: bool) -> (res: EnableSteps)
    ensures
        res.bootout == (loaded && !skip_if_already_scheduled),
        res.enable_and_bootstrap == !(loaded && skip_if_already_scheduled),
{
    if loaded {
        if skip_if_already_scheduled {
            EnableSteps { bootout: false, enable_and_bootstrap: false }
        } else {
            EnableSteps { bootout: true, enable_and_bootstrap: true }
        }
    } else {
        EnableSteps { bootout: false, enable_and_bootstrap: true }
    }
}

/// The time periods to schedule: the one given, or all of them.
pub fn time_periods_to_schedule(time_period: Option<TimePeriod>) -> (res: Vec<TimePeriod>)
    ensures
        res@ == match time_period {
            Some(tp) => seq![tp],
            None => seq![TimePeriod::Hourly, TimePeriod::Daily, TimePeriod::Weekly],
        },
{
    match time_period {
        Some(tp) => {
            let res = vec![tp];
            assert(res@ =~= seq![tp]);
            res
        },
        None => TimePeriod::all(),
    }
}

/// The job options of one time period of a schedule.
pub fn job_opts_for(
    focus_path: &str,
    git_path: &str,
    config_key: &str,
    all_repos: bool,
    time_period: TimePeriod,
) -> (res: ScheduledJobOpts)
    ensures
        res.focus_path@ == focus_path@,
        res.git_binary_path@ == git_path@,
        res.config_key@ == config_key@,
        res.config_path is None,
        res.schedule_defaults is None,
        res.all_repos == all_repos,
        res.time_period == time_period,
{
    ScheduledJobOpts {
        focus_path: String::from_str(focus_path),
        git_binary_path: String::from_str(git_path),
        time_period,
        config_key: String::from_str(config_key),
        config_path: None,
        schedule_defaults: None,
        all_repos,
    }
}

} // verus!
