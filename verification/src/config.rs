//! Configuration, log levels and command line.

use vstd::prelude::*;
use crate::double::Double;
use crate::double::{HUNDRED, ONE, THOUSAND, ZERO};
use crate::text::{join, same_text};

verus! {

// ---------------------------------------------------------------------------
// Log levels
// ---------------------------------------------------------------------------

/// How much the daemon reports, from nothing to every sensor event.
#[derive(Debug, Clone, Copy, PartialEq, Eq, PartialOrd, Ord, Structural)]
pub enum LogLevel {
    Off,
    Info,
    Debug,
    Trace,
}

/// What `str::to_lowercase` returns.
pub uninterp spec fn lowercase(s: Seq<char>) -> Seq<char>;

/// An ASCII text in lower case.
pub open spec fn ascii_lowercase(s: Seq<char>) -> Seq<char> {
    Seq::new(s.len(), |i: int| if 'A' <= s[i] <= 'Z' { (s[i] as u32 + 32) as char } else { s[i] })
}

/// Calls `str::to_lowercase`: the Unicode lower case of the text. Of an ASCII text that is the text
/// with `A` to `Z` replaced by `a` to `z`.
#[verifier::external_body]
fn to_lowercase(s: &str) -> (r: String)
    ensures
        r@ == lowercase(s@),
        s.is_ascii() ==> r@ == ascii_lowercase(s@),
{
    s.to_lowercase()
}

/// The level that a name in lower case stands for.
pub open spec fn level_named(name: Seq<char>) -> LogLevel {
    if name == "info"@ {
        LogLevel::Info
    } else if name == "debug"@ {
        LogLevel::Debug
    } else if name == "trace"@ {
        LogLevel::Trace
    } else {
        LogLevel::Off
    }
}

impl LogLevel {
    /// The level with the given name in any case, or `Off`.
    pub fn from_str(s: &str) -> (r: Self)
        ensures
            r == level_named(lowercase(s@)),
            s.is_ascii() ==> r == level_named(ascii_lowercase(s@)),
    {
        let name: String = to_lowercase(s);
        LogLevel::from_lowercase(name.as_str())
    }

    /// The level with the given name in lower case, or `Off`.
    pub fn from_lowercase(name: &str) -> (r: Self)
        ensures
            r == level_named(name@),
    {
        if same_text(name, "info") {
            LogLevel::Info
        } else if same_text(name, "debug") {
            LogLevel::Debug
        } else if same_text(name, "trace") {
            LogLevel::Trace
        } else {
            LogLevel::Off
        }
    }
}

// ---------------------------------------------------------------------------
// Configuration
// ---------------------------------------------------------------------------

/// 0.15
pub const DEFAULT_HYSTERESIS_RATIO: u64 = 0x3fc3_3333_3333_3333;

/// 5.0
pub const DEFAULT_HYSTERESIS_ABS: u64 = 0x4014_0000_0000_0000;

/// 0.05
pub const DEFAULT_SHUTTER: u64 = 0x3fa9_9999_9999_999a;

/// 2.0
pub const DEFAULT_MIN_PERCENT: u64 = 0x4000_0000_0000_0000;

/// 0.01
pub const LEAST_RATIO: u64 = 0x3f84_7ae1_47ae_147b;

/// 0.001
pub const LEAST_SHUTTER: u64 = 0x3f50_624d_d2f1_a9fc;

/// The settings of the daemon.
#[derive(Debug)]
pub struct DaemonConfig {
    /// Reference points along the ambient light curve in lux.
    pub lux_points: Vec<Double>,
    /// Maximum lux on the calibration curve; the last of `lux_points` where it is missing.
    pub max_lux: Option<Double>,
    /// Relative hysteresis threshold: the change of the light, as a fraction, that starts an
    /// adjustment.
    pub lux_hysteresis_ratio: Double,
    /// Absolute hysteresis threshold in lux.
    pub lux_hysteresis_abs: Double,
    /// How long, in milliseconds, the light stays beyond the hysteresis band before an adjustment.
    pub auto_adjust_delay_ms: u64,
    /// The longest duration of a transition in milliseconds.
    pub transition_duration_ms: u64,
    /// The shortest duration of an adaptive transition in milliseconds.
    pub min_transition_duration_ms: u64,
    /// Whether the duration of a transition grows with the size of the step.
    pub adaptive_transition: bool,
    /// The least deviation from the curve that teaches it.
    pub shutter_threshold: Double,
    /// Whether learning is on at the start.
    pub default_learning: bool,
    /// Whether automatic adjustment is on at the start.
    pub default_adjust_enabled: bool,
    /// The lowest brightness in percent.
    pub min_brightness_percent: Double,
    /// The highest brightness in percent.
    pub max_brightness_percent: Double,
    /// The backlight controller to use; the best one found where it is missing.
    pub backlight_device: Option<String>,
    /// The interval of sensor polling in milliseconds; -1 for none.
    pub poll_interval_ms: i64,
}

/// 0, 15, 35, 70, 100, 300, 600 and 1000 lux.
pub open spec fn default_points() -> Seq<Double> {
    seq![
        Double::from_bits(0x0000_0000_0000_0000),
        Double::from_bits(0x402e_0000_0000_0000),
        Double::from_bits(0x4041_8000_0000_0000),
        Double::from_bits(0x4051_8000_0000_0000),
        Double::from_bits(0x4059_0000_0000_0000),
        Double::from_bits(0x4072_c000_0000_0000),
        Double::from_bits(0x4082_c000_0000_0000),
        Double::from_bits(0x408f_4000_0000_0000),
    ]
}

/// 0, 15, 35, 70, 100, 300, 600 and 1000 lux.
pub fn default_lux_points() -> (r: Vec<Double>)
    ensures
        r@ == default_points(),
{
    vec![
        Double::from_bits(0x0000_0000_0000_0000),
        Double::from_bits(0x402e_0000_0000_0000),
        Double::from_bits(0x4041_8000_0000_0000),
        Double::from_bits(0x4051_8000_0000_0000),
        Double::from_bits(0x4059_0000_0000_0000),
        Double::from_bits(0x4072_c000_0000_0000),
        Double::from_bits(0x4082_c000_0000_0000),
        Double::from_bits(0x408f_4000_0000_0000),
    ]
}

pub fn default_lux_hysteresis_ratio() -> (r: Double)
    ensures
        r == Double::from_bits(DEFAULT_HYSTERESIS_RATIO),
{
    Double::from_bits(DEFAULT_HYSTERESIS_RATIO)
}

pub fn default_lux_hysteresis_abs() -> (r: Double)
    ensures
        r == Double::from_bits(DEFAULT_HYSTERESIS_ABS),
{
    Double::from_bits(DEFAULT_HYSTERESIS_ABS)
}

pub fn default_auto_adjust_delay_ms() -> (r: u64)
    ensures
        r == 1000,
{
    1000
}

pub fn default_transition_duration_ms() -> (r: u64)
    ensures
        r == 1500,
{
    1500
}

pub fn default_min_transition_duration_ms() -> (r: u64)
    ensures
        r == 200,
{
    200
}

pub fn default_shutter_threshold() -> (r: Double)
    ensures
        r == Double::from_bits(DEFAULT_SHUTTER),
{
    Double::from_bits(DEFAULT_SHUTTER)
}

pub fn default_true() -> (r: bool)
    ensures
        r == true,
{
    true
}

pub fn default_min_brightness() -> (r: Double)
    ensures
        r == Double::from_bits(DEFAULT_MIN_PERCENT),
{
    Double::from_bits(DEFAULT_MIN_PERCENT)
}

pub fn default_max_brightness() -> (r: Double)
    ensures
        r == Double::from_bits(HUNDRED),
{
    Double::from_bits(HUNDRED)
}

pub fn default_poll_interval_ms() -> (r: i64)
    ensures
        r == 1000,
{
    1000
}

/// `x` put into ascending numbers, unless it is there already.
pub open spec fn put(points: Seq<Double>, x: Double) -> Seq<Double>
    decreases points.len(),
{
    if points.len() == 0 || points.last().less(x) {
        points.push(x)
    } else if points.last().same(x) {
        points
    } else {
        put(points.drop_last(), x).push(points.last())
    }
}

/// The distinct numbers among `points` that are not negative, in ascending order. Of equal numbers
/// the first one is kept.
pub open spec fn distinct(points: Seq<Double>) -> Seq<Double>
    decreases points.len(),
{
    if points.len() == 0 {
        points
    } else {
        let before = distinct(points.drop_last());
        if Double::from_bits(ZERO).at_most(points.last()) {
            put(before, points.last())
        } else {
            before
        }
    }
}

/// The reference points that a configuration with `points` is run with.
pub open spec fn usable_points(points: Seq<Double>) -> Seq<Double> {
    if distinct(points).len() < 2 {
        default_points()
    } else {
        distinct(points)
    }
}

/// The greater of two integers.
pub open spec fn at_least(n: u64, least: u64) -> u64 {
    if n < least {
        least
    } else {
        n
    }
}

/// `n` moved into a range.
pub open spec fn within(n: u64, low: u64, high: u64) -> u64 {
    if n < low {
        low
    } else if n > high {
        high
    } else {
        n
    }
}

impl DaemonConfig {
    /// What validation makes of a configuration.
    pub open spec fn validated_from(&self, c: &DaemonConfig) -> bool {
        let zero = Double::from_bits(ZERO);
        let one = Double::from_bits(ONE);
        let hundred = Double::from_bits(HUNDRED);
        &&& self.lux_points@ == usable_points(c.lux_points@)
        &&& self.max_lux == (match c.max_lux {
            Some(m) => if m.is_nan() || m.at_most(zero) { None } else { Some(m) },
            None => None,
        })
        &&& self.lux_hysteresis_ratio == c.lux_hysteresis_ratio.clamp(Double::from_bits(LEAST_RATIO), one)
        &&& self.lux_hysteresis_abs == c.lux_hysteresis_abs.greater_of(zero)
        &&& self.auto_adjust_delay_ms == at_least(c.auto_adjust_delay_ms, 50)
        &&& self.transition_duration_ms == at_least(c.transition_duration_ms, 50)
        &&& self.min_transition_duration_ms == within(
            c.min_transition_duration_ms,
            20,
            self.transition_duration_ms,
        )
        &&& self.adaptive_transition == c.adaptive_transition
        &&& self.shutter_threshold == c.shutter_threshold.clamp(Double::from_bits(LEAST_SHUTTER), one)
        &&& self.default_learning == c.default_learning
        &&& self.default_adjust_enabled == c.default_adjust_enabled
        &&& self.min_brightness_percent == c.min_brightness_percent.clamp(zero, hundred)
        &&& self.max_brightness_percent == c.max_brightness_percent.clamp(
            self.min_brightness_percent,
            hundred,
        )
        &&& self.backlight_device == c.backlight_device
        &&& self.poll_interval_ms == c.poll_interval_ms
    }

    /// The settings that a missing configuration stands for.
    pub open spec fn is_default(&self) -> bool {
        &&& self.lux_points@ == default_points()
        &&& self.max_lux == None::<Double>
        &&& self.lux_hysteresis_ratio == Double::from_bits(DEFAULT_HYSTERESIS_RATIO)
        &&& self.lux_hysteresis_abs == Double::from_bits(DEFAULT_HYSTERESIS_ABS)
        &&& self.auto_adjust_delay_ms == 1000
        &&& self.transition_duration_ms == 1500
        &&& self.min_transition_duration_ms == 200
        &&& self.adaptive_transition
        &&& self.shutter_threshold == Double::from_bits(DEFAULT_SHUTTER)
        &&& self.default_learning
        &&& self.default_adjust_enabled
        &&& self.min_brightness_percent == Double::from_bits(DEFAULT_MIN_PERCENT)
        &&& self.max_brightness_percent == Double::from_bits(HUNDRED)
        &&& self.backlight_device == None::<String>
        &&& self.poll_interval_ms == 1000
    }

    /// The maximum lux of the curve: the configured one, or the last reference point, or 1000.
    pub open spec fn furthest_light(&self) -> Double {
        match self.max_lux {
            Some(m) => m,
            None => if self.lux_points@.len() > 0 {
                self.lux_points@.last()
            } else {
                Double::from_bits(THOUSAND)
            },
        }
    }

    /// The maximum lux of the curve: the configured one, or the last reference point, or 1000.
    pub fn effective_max_lux(&self) -> (r: Double)
        ensures
            r == (match self.max_lux {
                Some(m) => m,
                None => if self.lux_points@.len() > 0 {
                    self.lux_points@.last()
                } else {
                    Double::from_bits(THOUSAND)
                },
            }),
            r == self.furthest_light(),
    {
        match self.max_lux {
            Some(m) => m,
            None => {
                let n: usize = self.lux_points.len();
                if n > 0 {
                    self.lux_points[n - 1]
                } else {
                    Double::from_bits(THOUSAND)
                }
            },
        }
    }

    /// Moves every setting into its range.
    pub fn validate(&mut self)
        requires
            !old(self).min_brightness_percent.is_nan(),
        ensures
            final(self).validated_from(old(self)),
    {
        let zero: Double = Double::from_bits(ZERO);
        let one: Double = Double::from_bits(ONE);
        let hundred: Double = Double::from_bits(HUNDRED);
        let points: Vec<Double> = keep_distinct(&self.lux_points);
        if points.len() < 2 {
            self.lux_points = default_lux_points();
        } else {
            self.lux_points = points;
        }
        if let Some(m) = self.max_lux {
            if m.is_nan() || m.at_most(zero) {
                self.max_lux = None;
            }
        }
        self.lux_hysteresis_ratio = self.lux_hysteresis_ratio.clamp(Double::from_bits(LEAST_RATIO), one);
        self.lux_hysteresis_abs = self.lux_hysteresis_abs.greater_of(zero);
        if self.auto_adjust_delay_ms < 50 {
            self.auto_adjust_delay_ms = 50;
        }
        if self.transition_duration_ms < 50 {
            self.transition_duration_ms = 50;
        }
        if self.min_transition_duration_ms < 20 {
            self.min_transition_duration_ms = 20;
        } else if self.min_transition_duration_ms > self.transition_duration_ms {
            self.min_transition_duration_ms = self.transition_duration_ms;
        }
        self.shutter_threshold = self.shutter_threshold.clamp(Double::from_bits(LEAST_SHUTTER), one);
        self.min_brightness_percent = self.min_brightness_percent.clamp(zero, hundred);
        self.max_brightness_percent = self.max_brightness_percent.clamp(self.min_brightness_percent, hundred);
    }

    /// The configuration to run with, given the one that was read, where one could be read; and
    /// whether the template is to be written in its place.
    pub fn load_or_create(read: Option<DaemonConfig>) -> (r: (DaemonConfig, bool))
        requires
            read matches Some(c) ==> !c.min_brightness_percent.is_nan(),
        ensures
            match read {
                Some(c) => r.0.validated_from(&c) && !r.1,
                None => r.0.is_default() && r.1,
            },
    {
        match read {
            Some(c) => {
                let mut cfg: DaemonConfig = c;
                cfg.validate();
                (cfg, false)
            },
            None => {
                let mut cfg: DaemonConfig = DaemonConfig::default();
                proof {
                    lemma_default_points_distinct();
                }
                cfg.validate();
                (cfg, true)
            },
        }
    }
}

impl Default for DaemonConfig {
    fn default() -> (r: Self)
        ensures
            r.is_default(),
    {
        DaemonConfig {
            lux_points: default_lux_points(),
            max_lux: None,
            lux_hysteresis_ratio: default_lux_hysteresis_ratio(),
            lux_hysteresis_abs: default_lux_hysteresis_abs(),
            auto_adjust_delay_ms: default_auto_adjust_delay_ms(),
            transition_duration_ms: default_transition_duration_ms(),
            min_transition_duration_ms: default_min_transition_duration_ms(),
            adaptive_transition: true,
            shutter_threshold: default_shutter_threshold(),
            default_learning: true,
            default_adjust_enabled: true,
            min_brightness_percent: default_min_brightness(),
            max_brightness_percent: default_max_brightness(),
            backlight_device: None,
            poll_interval_ms: default_poll_interval_ms(),
        }
    }
}

/// The distinct numbers among `points` that are not negative, in ascending order.
fn keep_distinct(points: &Vec<Double>) -> (r: Vec<Double>)
    ensures
        r@ == distinct(points@),
{
    let mut r: Vec<Double> = Vec::new();
    let mut i: usize = 0;
    while i < points.len()
        invariant
            i <= points@.len(),
            r@ == distinct(points@.take(i as int)),
        decreases points@.len() - i,
    {
        let x: Double = points[i];
        proof {
            assert(points@.take(i + 1).drop_last() =~= points@.take(i as int));
            assert(points@.take(i + 1).last() == x);
        }
        if Double::from_bits(ZERO).at_most(x) {
            let mut j: usize = r.len();
            while j > 0 && !r[j - 1].less(x) && !r[j - 1].same(x)
                invariant
                    j <= r@.len(),
                    forall|k: int| j <= k < r@.len() ==> !(#[trigger] r@[k]).less(x) && !r@[k].same(x),
                decreases j,
            {
                j = j - 1;
            }
            proof {
                lemma_put_is(r@, x, j as int);
            }
            if j == 0 || r[j - 1].less(x) {
                r.insert(j, x);
            }
        }
        i = i + 1;
    }
    assert(points@.take(i as int) =~= points@);
    r
}

proof fn lemma_put_is(points: Seq<Double>, x: Double, j: int)
    requires
        0 <= j <= points.len(),
        forall|k: int| j <= k < points.len() ==> !(#[trigger] points[k]).less(x) && !points[k].same(x),
        j == 0 || points[j - 1].less(x) || points[j - 1].same(x),
    ensures
        put(points, x) == if j == 0 || points[j - 1].less(x) { points.insert(j, x) } else { points },
    decreases points.len(),
{
    if j == points.len() {
        assert(points.insert(j, x) =~= points.push(x));
    } else {
        let shorter = points.drop_last();
        lemma_put_is(shorter, x, j);
        assert(points.last() == points[points.len() - 1]);
        if j == 0 || points[j - 1].less(x) {
            assert(points.insert(j, x) =~= shorter.insert(j, x).push(points.last()));
        } else {
            assert(points =~= shorter.push(points.last()));
        }
    }
}

proof fn lemma_default_points_distinct()
    ensures
        distinct(default_points()) == default_points(),
{
    lemma_distinct_of_ascending(default_points());
}

/// Ascending numbers from zero up are kept as they are.
pub proof fn lemma_distinct_of_ascending(points: Seq<Double>)
    requires
        forall|i: int| 0 <= i < points.len() ==> Double::from_bits(ZERO).at_most(#[trigger] points[i]),
        forall|i: int, j: int|
            #![trigger points[i], points[j]]
            0 <= i < j < points.len() ==> points[i].less(points[j]),
    ensures
        distinct(points) == points,
    decreases points.len(),
{
    if points.len() > 0 {
        let shorter = points.drop_last();
        assert forall|i: int| 0 <= i < shorter.len() implies Double::from_bits(ZERO).at_most(#[trigger] shorter[i]) by {
            assert(shorter[i] == points[i]);
        }
        assert forall|i: int, j: int|
            #![trigger shorter[i], shorter[j]]
            0 <= i < j < shorter.len() implies shorter[i].less(shorter[j]) by {
            assert(points[i].less(points[j]));
        }
        lemma_distinct_of_ascending(shorter);
        let n = points.len();
        assert(points[n - 1] == points.last());
        if n > 1 {
            assert(points[n - 2].less(points[n - 1]));
        }
        assert(shorter.push(points.last()) =~= points);
    }
}

// ---------------------------------------------------------------------------
// Command line
// ---------------------------------------------------------------------------

/// The path of the configuration file: below `xdg_config_home`, or below `.config` in `home`.
pub open spec fn config_path(xdg_config_home: Option<Seq<char>>, home: Option<Seq<char>>) -> Seq<char> {
    let dir = match xdg_config_home {
        Some(dir) => dir,
        None => crate::text::joined(
            match home {
                Some(home) => home,
                None => "."@,
            },
            ".config"@,
        ),
    };
    crate::text::joined(dir, "kirialsd/config.toml"@)
}

/// The content of an optional text.
pub open spec fn content(s: Option<&str>) -> Option<Seq<char>> {
    match s {
        Some(s) => Some(s@),
        None => None,
    }
}

/// The path of the configuration file, given the variables `XDG_CONFIG_HOME` and `HOME`.
pub fn get_default_config_path(xdg_config_home: Option<&str>, home: Option<&str>) -> (r: String)
    ensures
        r@ == config_path(content(xdg_config_home), content(home)),
{
    let dir: String = match xdg_config_home {
        Some(dir) => dir.to_owned(),
        None => match home {
            Some(home) => join(home, ".config"),
            None => join(".", ".config"),
        },
    };
    join(dir.as_str(), "kirialsd/config.toml")
}

/// What the command line asks for.
#[derive(Debug)]
pub struct CliArgs {
    pub config_path: String,
    pub log_level: LogLevel,
    pub dry_run: bool,
    pub status_mode: bool,
    pub show_help: bool,
    pub show_version: bool,
}

/// The content of `CliArgs`.
pub ghost struct Wishes {
    pub config_path: Seq<char>,
    pub log_level: LogLevel,
    pub dry_run: bool,
    pub status_mode: bool,
    pub show_help: bool,
    pub show_version: bool,
}

impl View for CliArgs {
    type V = Wishes;

    open spec fn view(&self) -> Wishes {
        Wishes {
            config_path: self.config_path@,
            log_level: self.log_level,
            dry_run: self.dry_run,
            status_mode: self.status_mode,
            show_help: self.show_help,
            show_version: self.show_version,
        }
    }
}

/// The option that is followed by a path.
pub open spec fn takes_path(arg: Seq<char>) -> bool {
    arg == "-c"@ || arg == "--config"@
}

/// What one argument, other than one that is followed by a path, adds. The last word on the log
/// level counts; a name of a level counts as one.
pub open spec fn wish(w: Wishes, arg: Seq<char>) -> Wishes {
    if arg == "-h"@ || arg == "--help"@ {
        Wishes { show_help: true, ..w }
    } else if arg == "-V"@ || arg == "--version"@ {
        Wishes { show_version: true, ..w }
    } else if arg == "--dry-run"@ {
        Wishes { dry_run: true, ..w }
    } else if arg == "-s"@ || arg == "--status"@ || arg == "--get-lux"@ {
        Wishes { status_mode: true, ..w }
    } else if arg == "-v"@ {
        Wishes { log_level: LogLevel::Debug, ..w }
    } else if arg == "-vv"@ || arg == "-vvv"@ || arg == "--trace"@ {
        Wishes { log_level: LogLevel::Trace, ..w }
    } else if arg == "-q"@ || arg == "--quiet"@ {
        Wishes { log_level: LogLevel::Off, ..w }
    } else if level_named(lowercase(arg)) != LogLevel::Off {
        Wishes { log_level: level_named(lowercase(arg)), ..w }
    } else {
        w
    }
}

/// What the arguments from `i` on add.
pub open spec fn wishes(w: Wishes, args: Seq<String>, i: int) -> Wishes
    decreases args.len() - i,
{
    if i < 0 || i >= args.len() {
        w
    } else if takes_path(args[i]@) {
        if i + 1 < args.len() {
            wishes(Wishes { config_path: args[i + 1]@, ..w }, args, i + 2)
        } else {
            w
        }
    } else {
        wishes(wish(w, args[i]@), args, i + 1)
    }
}

impl CliArgs {
    fn take(&mut self, arg: &str)
        requires
            !takes_path(arg@),
        ensures
            final(self)@ == wish(old(self)@, arg@),
    {
        if same_text(arg, "-h") || same_text(arg, "--help") {
            self.show_help = true;
        } else if same_text(arg, "-V") || same_text(arg, "--version") {
            self.show_version = true;
        } else if same_text(arg, "--dry-run") {
            self.dry_run = true;
        } else if same_text(arg, "-s") || same_text(arg, "--status") || same_text(arg, "--get-lux") {
            self.status_mode = true;
        } else if same_text(arg, "-v") {
            self.log_level = LogLevel::Debug;
        } else if same_text(arg, "-vv") || same_text(arg, "-vvv") || same_text(arg, "--trace") {
            self.log_level = LogLevel::Trace;
        } else if same_text(arg, "-q") || same_text(arg, "--quiet") {
            self.log_level = LogLevel::Off;
        } else {
            let level: LogLevel = LogLevel::from_str(arg);
            if level != LogLevel::Off {
                self.log_level = level;
            }
        }
    }

    /// Reads the arguments behind the name of the program. `default_path` is the path of the
    /// configuration file where the command line gives none.
    pub fn parse(args: &Vec<String>, default_path: String) -> (r: Self)
        ensures
            r@ == wishes(
                Wishes {
                    config_path: default_path@,
                    log_level: LogLevel::Info,
                    dry_run: false,
                    status_mode: false,
                    show_help: false,
                    show_version: false,
                },
                args@,
                0,
            ),
    {
        let mut r: CliArgs = CliArgs {
            config_path: default_path,
            log_level: LogLevel::Info,
            dry_run: false,
            status_mode: false,
            show_help: false,
            show_version: false,
        };
        let ghost goal = wishes(r@, args@, 0);
        let n: usize = args.len();
        let mut i: usize = 0;
        while i < n
            invariant
                i <= n == args@.len(),
                goal == wishes(r@, args@, i as int),
            decreases n - i,
        {
            let arg: &str = args[i].as_str();
            if same_text(arg, "-c") || same_text(arg, "--config") {
                i = i + 1;
                if i < n {
                    r.config_path = args[i].clone();
                    i = i + 1;
                }
            } else {
                r.take(arg);
                i = i + 1;
            }
        }
        r
    }
}

/// The configuration file that is written where none could be read.
pub const DEFAULT_CONFIG_TEMPLATE: &'static str = r#"# ==============================================================================
# kirialsd configuration file
# Ambient Light Sensor Backlight Daemon
# Default location: ~/.config/kirialsd/config.toml
# ==============================================================================

# Reference ambient light points (in lux) used to construct the interpolation curve.
# Default values cover dark rooms (0-15 lx) up to bright daylight (1000 lx).
lux_points = [0.0, 15.0, 35.0, 70.0, 100.0, 300.0, 600.0, 1000.0]

# Maximum lux on the calibration curve.
# Optional: if omitted or commented out, automatically uses the last element of lux_points.
# max_lux = 1000.0

# Relative hysteresis threshold (0.15 = 15%).
# Change in lux relative to current target must exceed this ratio to initiate readjustment.
lux_hysteresis_ratio = 0.15

# Absolute hysteresis threshold (in lux).
# Prevents small sensor noise fluctuations from triggering brightness shifts in low-light.
lux_hysteresis_abs = 5.0

# Hold delay in milliseconds.
# Ambient light must stay past the hysteresis band continuously for this duration
# before the daemon starts adjusting the display (filters out transient shadows).
auto_adjust_delay_ms = 1000

# Total duration of the smoothstep transition animation in milliseconds.
# Represents the base/maximum transition duration for full brightness sweeps.
transition_duration_ms = 1500

# Minimum transition duration in milliseconds when adaptive scaling is enabled.
# Prevents micro-steps (e.g. 1-2 brightness levels) from taking the full transition time.
min_transition_duration_ms = 200

# Whether transition animation duration scales adaptively with the step size.
# True: small brightness adjustments finish swiftly, large adjustments transition smoothly over full duration.
adaptive_transition = true

# Minimum allowed screen brightness percentage (0.0 - 100.0).
# Prevents the screen from going completely pitch-black in dark environments.
min_brightness_percent = 2.0

# Maximum allowed screen brightness percentage (0.0 - 100.0).
max_brightness_percent = 100.0

# Shutter threshold (0.05 = 5%).
# Minimum difference between expected curve brightness and manual user brightness
# required to register a user calibration point.
shutter_threshold = 0.05

# Enable curve learning on daemon startup.
# Can be toggled at runtime by sending SIGUSR1 signal.
default_learning = true

# Enable automatic brightness adjustment on daemon startup.
# Can be toggled at runtime by sending SIGUSR2 signal.
default_adjust_enabled = true

# Specific backlight controller name in /sys/class/backlight (e.g. "intel_backlight", "amdgpu_bl0").
# Optional: if omitted or commented out, auto-detects the best GPU controller.
# backlight_device = "intel_backlight"

# Periodic sensor polling interval in milliseconds (e.g. 1000).
# Set to -1 to disable active periodic polling and rely solely on D-Bus PropertiesChanged signals.
poll_interval_ms = 1000
"#;

} // verus!
