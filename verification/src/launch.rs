//! How the app starts, and when its windows show.
use vstd::prelude::*;

use crate::config::{opt_str, pause_of, AppConfig};
use crate::installs::Platform;
use crate::paths::{join_of, join_path, PathStyle};
use crate::schedule::{due, is_due, CalendarDay, TimeOfDay};
use crate::seqs::{contains, first_at, lemma_first_at, position};
use crate::text::{same_text, texts};

verus! {

// ---------------------------------------------------------------------------
// The command line
// ---------------------------------------------------------------------------

/// What the app is started for.
#[derive(Debug, PartialEq)]
pub enum RunMode {
    /// The app with its windows.
    App,
    /// One sync without windows.
    SyncOnce,
    /// Sends every stream back to the start.
    ResetCursors,
    /// Reads a saved file and says what is in it.
    ParseOnly { file: String, global: String },
}

/// The argument at `i`, or `default`.
pub open spec fn arg_or(args: Seq<Seq<char>>, i: int, default: Seq<char>) -> Seq<char> {
    if 0 <= i < args.len() {
        args[i]
    } else {
        default
    }
}

/// What the app is started for with the arguments `args`.
pub fn run_mode(args: &Vec<String>) -> (mode: RunMode)
    ensures
        ({
            let said = texts(args@);
            let p = first_at(said, "parse-only"@);
            match mode {
                RunMode::SyncOnce => said.contains("sync-once"@),
                RunMode::ResetCursors => !said.contains("sync-once"@) && said.contains(
                    "reset-cursors"@,
                ),
                RunMode::ParseOnly { file, global } => {
                    &&& !said.contains("sync-once"@) && !said.contains("reset-cursors"@)
                    &&& said.contains("parse-only"@)
                    &&& file@ == arg_or(said, p + 1, ""@)
                    &&& global@ == arg_or(said, p + 2, "SBFData"@)
                },
                RunMode::App => !said.contains("sync-once"@) && !said.contains("reset-cursors"@)
                    && !said.contains("parse-only"@),
            }
        }),
{
    if contains(args, "sync-once") {
        return RunMode::SyncOnce;
    }
    if contains(args, "reset-cursors") {
        return RunMode::ResetCursors;
    }
    let p: usize = position(args, "parse-only");
    let ghost said = texts(args@);
    proof {
        lemma_first_at(said, "parse-only"@);
        reveal_strlit("");
    }
    if p < args.len() {
        proof {
            assert(said[p as int] == "parse-only"@);
        }
        let file: String = if args.len() - p > 1 {
            args[p + 1].clone()
        } else {
            String::new()
        };
        let global: String = if args.len() - p > 2 {
            args[p + 2].clone()
        } else {
            "SBFData".to_string()
        };
        proof {
            assert(file@ =~= arg_or(said, p + 1, ""@));
        }
        return RunMode::ParseOnly { file, global };
    }
    RunMode::App
}

/// The folder that the configuration is kept in on a platform: below `XDG_CONFIG_HOME` or
/// the home directory on Linux, below the home directory on macOS, below `APPDATA` on
/// Windows, and the current folder where the variable is not set.
pub open spec fn config_dir_of(
    platform: Platform,
    xdg: Option<Seq<char>>,
    home: Option<Seq<char>>,
    appdata: Option<Seq<char>>,
) -> Seq<char> {
    let id = "com.goblinengineering.uplink"@;
    match platform {
        Platform::MacOs => match home {
            Some(h) => join_of(
                PathStyle::Unix,
                join_of(PathStyle::Unix, h, "Library/Application Support"@),
                id,
            ),
            None => "."@,
        },
        Platform::Windows => match appdata {
            Some(a) => join_of(PathStyle::Windows, a, id),
            None => "."@,
        },
        Platform::Linux => match xdg {
            Some(x) => join_of(PathStyle::Unix, x, id),
            None => match home {
                Some(h) => join_of(PathStyle::Unix, join_of(PathStyle::Unix, h, ".config"@), id),
                None => "."@,
            },
        },
    }
}

/// The folder that the configuration is kept in.
pub fn app_config_dir(
    platform: Platform,
    xdg: Option<&str>,
    home: Option<&str>,
    appdata: Option<&str>,
) -> (dir: String)
    ensures
        dir@ == config_dir_of(platform, opt_str(xdg), opt_str(home), opt_str(appdata)),
{
    let id = "com.goblinengineering.uplink";
    match platform {
        Platform::MacOs => {
            if let Some(h) = home {
                let support = join_path(PathStyle::Unix, h, "Library/Application Support");
                return join_path(PathStyle::Unix, support.as_str(), id);
            }
        },
        Platform::Windows => {
            if let Some(a) = appdata {
                return join_path(PathStyle::Windows, a, id);
            }
        },
        Platform::Linux => {
            if let Some(x) = xdg {
                return join_path(PathStyle::Unix, x, id);
            }
            if let Some(h) = home {
                let config = join_path(PathStyle::Unix, h, ".config");
                return join_path(PathStyle::Unix, config.as_str(), id);
            }
        },
    }
    ".".to_string()
}

// ---------------------------------------------------------------------------
// Windows
// ---------------------------------------------------------------------------

/// Whether the main window shows at the start: always before the user was welcomed, else
/// unless the app starts in the tray or was started with `--hidden`.
pub open spec fn starts_visible(onboarded: bool, start_in_tray: bool, hidden: bool) -> bool {
    !onboarded || !start_in_tray && !hidden
}

/// Whether the main window shows at the start, with the arguments `args`.
pub fn shows_window(cfg: &AppConfig, args: &Vec<String>) -> (show: bool)
    ensures
        show == starts_visible(
            cfg.onboarded,
            cfg.start_in_tray,
            texts(args@).contains("--hidden"@),
        ),
{
    !cfg.onboarded || (!cfg.start_in_tray && !contains(args, "--hidden"))
}

/// A user who was not welcomed yet sees the window whatever else is set; after that, a
/// hidden start stays hidden.
pub proof fn law_first_run_is_visible(start_in_tray: bool, hidden: bool)
    ensures
        starts_visible(false, start_in_tray, hidden),
        !starts_visible(true, start_in_tray, true),
{
}

/// What a click on the tray icon does to the panel.
#[derive(Debug, Clone, Copy, PartialEq, Eq, Structural)]
pub enum TrayAction {
    Hide,
    Show,
    Nothing,
}

/// What a click on the tray icon does, `since` milliseconds after the panel lost the focus.
pub open spec fn tray_action(visible: bool, since: int) -> TrayAction {
    if visible {
        TrayAction::Hide
    } else if since < 250 {
        TrayAction::Nothing
    } else {
        TrayAction::Show
    }
}

/// A click hides the panel exactly where it shows, and shows it exactly where it does not
/// and a quarter of a second has gone by since it lost the focus.
pub proof fn law_click_toggles_the_panel(visible: bool, since: int)
    ensures
        tray_action(visible, since) == TrayAction::Hide <==> visible,
        tray_action(visible, since) == TrayAction::Show <==> !visible && since >= 250,
{
}

/// What a click on the tray icon does at `now` (in milliseconds), when the panel last lost
/// the focus at `blurred`: a panel that shows is hidden; one that the same click has just
/// hidden by taking its focus stays hidden.
pub fn tray_click(visible: bool, now: i64, blurred: i64) -> (action: TrayAction)
    requires
        i64::MIN <= now - blurred <= i64::MAX,
    ensures
        action == tray_action(visible, now - blurred),
{
    if visible {
        TrayAction::Hide
    } else if now - blurred < 250 {
        TrayAction::Nothing
    } else {
        TrayAction::Show
    }
}

/// Whether closing the window `label` hides it in place of ending it.
pub fn hides_on_close(label: &str) -> (yes: bool)
    ensures
        yes == (label@ == "main"@ || label@ == "tray"@),
{
    same_text(label, "main") || same_text(label, "tray")
}

/// Whether the window `label` hides when it loses the focus.
pub fn hides_on_blur(label: &str) -> (yes: bool)
    ensures
        yes == (label@ == "tray"@),
{
    same_text(label, "tray")
}

// ---------------------------------------------------------------------------
// Background work
// ---------------------------------------------------------------------------

/// How long the background sync waits between two passes, in seconds: as configured, and
/// never below half a minute.
pub fn sync_pause(cfg: &AppConfig) -> (secs: u64)
    ensures
        secs == pause_of(cfg.sync_interval_secs),
{
    if cfg.sync_interval_secs < 30 {
        30
    } else {
        cfg.sync_interval_secs
    }
}

/// The day that counts as that of the last pass after the pass at the start: today if it
/// was switched on then, so that a pass that was switched on later runs the same day.
pub fn first_pass_day(enabled_at_start: bool, today: CalendarDay) -> (last_run: Option<CalendarDay>)
    ensures
        last_run == day_of_first_pass(enabled_at_start, today),
{
    if enabled_at_start {
        Some(today)
    } else {
        None
    }
}

/// Whether the daily update pass runs now: it is switched on, and due.
pub fn pass_runs(
    cfg: &AppConfig,
    now: TimeOfDay,
    today: CalendarDay,
    last_run: Option<CalendarDay>,
) -> (yes: bool)
    ensures
        yes == passes(cfg.auto_update_enabled, now, today, cfg.auto_update_time@, last_run),
{
    cfg.auto_update_enabled && due(now, today, cfg.auto_update_time.as_str(), last_run)
}

/// The window shows at the start exactly where the user was never welcomed, or where neither
/// the setting nor the way the app was started hides it.
pub proof fn law_window_shows_unless_hidden(onboarded: bool, start_in_tray: bool, hidden: bool)
    ensures
        starts_visible(onboarded, start_in_tray, hidden) <==> (onboarded ==> !start_in_tray
            && !hidden),
{
}

/// An argument that was given is taken, and the default stands in for one that was not.
pub proof fn law_given_argument_is_taken(args: Seq<Seq<char>>, i: int, default: Seq<char>)
    ensures
        0 <= i < args.len() ==> arg_or(args, i, default) == args[i],
        i >= args.len() ==> arg_or(args, i, default) == default,
{
}

/// The configuration is kept in a folder of its own below the folder that the platform keeps
/// configurations in: on Linux the one that is set for them comes before the home directory.
/// Where no folder is known, it is the current one.
pub proof fn law_configuration_has_its_own_folder(
    xdg: Seq<char>,
    home: Seq<char>,
    appdata: Option<Seq<char>>,
    any: Option<Seq<char>>,
)
    ensures
        ({
            let id = "com.goblinengineering.uplink"@;
            let unix = PathStyle::Unix;
            let below = |dir: Seq<char>, sub: Seq<char>| join_of(unix, join_of(unix, dir, sub), id);
            &&& config_dir_of(Platform::Linux, Some(xdg), any, appdata) == join_of(unix, xdg, id)
            &&& config_dir_of(Platform::Linux, None, Some(home), appdata) == below(home, ".config"@)
            &&& config_dir_of(Platform::Linux, None, None, appdata) == "."@
            &&& config_dir_of(Platform::MacOs, any, Some(home), appdata) == below(
                home,
                "Library/Application Support"@,
            )
            &&& config_dir_of(Platform::MacOs, any, None, appdata) == "."@
            &&& config_dir_of(Platform::Windows, any, any, Some(home)) == join_of(
                PathStyle::Windows,
                home,
                id,
            )
            &&& config_dir_of(Platform::Windows, any, any, None) == "."@
        }),
{
}

/// Whether the daily pass runs: it is switched on, and due.
pub open spec fn passes(
    enabled: bool,
    now: TimeOfDay,
    today: CalendarDay,
    target: Seq<char>,
    last_run: Option<CalendarDay>,
) -> bool {
    enabled && is_due(now, today, target, last_run)
}

/// The day on which the daily pass counts as run when the app has started: that day where the
/// start has made a pass of its own.
pub open spec fn day_of_first_pass(enabled_at_start: bool, today: CalendarDay) -> Option<CalendarDay> {
    if enabled_at_start {
        Some(today)
    } else {
        None
    }
}

/// The daily pass runs exactly where it is switched on and due; after a start that has made
/// one, not again on that day, and on any other day as usual. After a start that has not, it
/// may run on the same day.
pub proof fn law_pass_runs_when_it_is_on_and_due(
    now: TimeOfDay,
    today: CalendarDay,
    other: CalendarDay,
    target: Seq<char>,
    last_run: Option<CalendarDay>,
)
    requires
        other != today,
    ensures
        !passes(false, now, today, target, last_run),
        passes(true, now, today, target, last_run) <==> is_due(now, today, target, last_run),
        !passes(true, now, today, target, day_of_first_pass(true, today)),
        passes(true, now, other, target, day_of_first_pass(true, today)) <==> is_due(
            now,
            other,
            target,
            None,
        ),
        passes(true, now, today, target, day_of_first_pass(false, today)) <==> is_due(
            now,
            today,
            target,
            None,
        ),
{
}

} // verus!
