//! Tracker configuration: the tunable sizes, their defaults and the rules that
//! a set of values has to meet before a tracker can be built from it.

use vstd::prelude::*;

use vstd::arithmetic::power::pow;
use vstd::arithmetic::power2::is_pow2;
use vstd::arithmetic::power2::is_pow2_equiv;
use vstd::arithmetic::power2::lemma2_to64_rest;
use vstd::arithmetic::power2::lemma_pow2;
use vstd::arithmetic::power2::lemma_pow2_strictly_increases;
use vstd::bits::lemma_u64_low_bits_mask_is_mod;

verus! {

pub const DEFAULT_WINDOW: u64 = 10;

pub const DEFAULT_STRIPES: usize = 64;

pub const DEFAULT_FLUSH_EVERY: u32 = 512;

pub const DEFAULT_LINEAR_MAX_MS: u64 = 5000;

pub const DEFAULT_LINEAR_STEP: u64 = 10;

/// Flush threshold of [`Config::compact`].
pub const COMPACT_FLUSH_EVERY: u32 = 64;

/// How latencies are divided into histogram bins.
#[derive(Debug, Clone, Copy, PartialEq, Eq, Structural)]
pub enum Layout {
    /// Bins of `step` milliseconds up to `max_ms`, and one last bin for
    /// everything from `max_ms` on.
    Linear { max_ms: u64, step: u64 },
    /// Ten-millisecond bins up to one second, seventeen logarithmic bins per
    /// octave above it, and one last bin from five seconds on.
    LinearLog,
}

impl Layout {
    /// The layout can be turned into a histogram.
    pub open spec fn wf(self) -> bool {
        match self {
            Layout::Linear { max_ms, step } => {
                &&& 0 < step <= max_ms
                &&& max_ms % step == 0
                &&& max_ms / step < usize::MAX
            },
            Layout::LinearLog => true,
        }
    }
}

/// The sizes a tracker is built with. They stay fixed for its whole life.
#[derive(Debug, Clone, Copy, PartialEq, Eq, Structural)]
pub struct Config {
    /// Length of the rolling window in seconds.
    pub window: u64,
    /// Number of stripes that recording threads are spread over.
    pub stripes: usize,
    /// Number of observations a thread holds back before it flushes them.
    pub flush_every: u32,
    /// Shape of the histogram.
    pub layout: Layout,
}

impl Config {
    /// A tracker can be built from these sizes.
    pub open spec fn wf(self) -> bool {
        &&& 0 < self.window < usize::MAX
        &&& is_pow2(self.stripes as int)
        &&& 0 < self.flush_every
        &&& self.layout.wf()
    }

    /// Buckets per stripe: one for each second of the window and one for the
    /// current second.
    pub open spec fn spec_buckets(self) -> nat {
        (self.window + 1) as nat
    }

    pub fn buckets(&self) -> (n: usize)
        requires
            self.wf(),
        ensures
            n == self.spec_buckets(),
    {
        self.window as usize + 1
    }

    /// The default sizes: a linear histogram of ten-millisecond bins up to five
    /// seconds.
    pub open spec fn spec_default() -> Config {
        Config {
            window: DEFAULT_WINDOW,
            stripes: DEFAULT_STRIPES,
            flush_every: DEFAULT_FLUSH_EVERY,
            layout: Layout::Linear { max_ms: DEFAULT_LINEAR_MAX_MS, step: DEFAULT_LINEAR_STEP },
        }
    }

    /// The sizes with the smaller histogram that turns logarithmic above one
    /// second, flushed in smaller batches.
    pub fn compact() -> (c: Config)
        ensures
            c == (Config { flush_every: COMPACT_FLUSH_EVERY, layout: Layout::LinearLog, ..Config::spec_default() }),
            c.wf(),
    {
        proof {
            lemma_sixty_four_is_pow2();
        }
        Config {
            window: DEFAULT_WINDOW,
            stripes: DEFAULT_STRIPES,
            flush_every: COMPACT_FLUSH_EVERY,
            layout: Layout::LinearLog,
        }
    }
}

impl Default for Config {
    fn default() -> (c: Config)
        ensures
            c == Config::spec_default(),
            c.wf(),
    {
        proof {
            lemma_sixty_four_is_pow2();
        }
        Config {
            window: DEFAULT_WINDOW,
            stripes: DEFAULT_STRIPES,
            flush_every: DEFAULT_FLUSH_EVERY,
            layout: Layout::Linear { max_ms: DEFAULT_LINEAR_MAX_MS, step: DEFAULT_LINEAR_STEP },
        }
    }
}

proof fn lemma_sixty_four_is_pow2()
    ensures
        is_pow2(64),
{
    reveal_with_fuel(is_pow2, 7);
}

/// A setting that can be given from outside.
#[derive(Debug, Clone, Copy, PartialEq, Eq, Structural)]
pub enum Setting {
    Window,
    Stripes,
    FlushEvery,
    LinearMaxMs,
    LinearStep,
}

impl Setting {
    /// The name under which the setting is looked up.
    pub open spec fn spec_name(self) -> Seq<char> {
        match self {
            Setting::Window => "LATENCY_TRACKER_WINDOW"@,
            Setting::Stripes => "LATENCY_TRACKER_STRIPES"@,
            Setting::FlushEvery => "LATENCY_TRACKER_FLUSH_EVERY"@,
            Setting::LinearMaxMs => "LATENCY_TRACKER_LINEAR_MAX_MS"@,
            Setting::LinearStep => "LATENCY_TRACKER_LINEAR_STEP"@,
        }
    }

    pub fn name(&self) -> (s: &'static str)
        ensures
            s@ == self.spec_name(),
    {
        match self {
            Setting::Window => "LATENCY_TRACKER_WINDOW",
            Setting::Stripes => "LATENCY_TRACKER_STRIPES",
            Setting::FlushEvery => "LATENCY_TRACKER_FLUSH_EVERY",
            Setting::LinearMaxMs => "LATENCY_TRACKER_LINEAR_MAX_MS",
            Setting::LinearStep => "LATENCY_TRACKER_LINEAR_STEP",
        }
    }
}

/// Why a set of values is not a configuration.
#[derive(Debug, Clone, Copy, PartialEq, Eq, Structural)]
pub enum ConfigError {
    /// The setting's text is not a decimal number that fits its type.
    NotAnInteger(Setting),
    WindowZero,
    StripesZero,
    StripesNotPowerOfTwo,
    FlushEveryZero,
    LinearMaxZero,
    LinearStepZero,
    LinearMaxBelowStep,
    LinearMaxNotMultiple,
    /// One bucket more than the window does not fit the address space.
    WindowTooLarge,
    /// One bin more than the linear range does not fit the address space.
    HistogramTooLarge,
}

impl ConfigError {
    /// The rule that was broken. For a text that is not a number, what is said of
    /// its setting.
    pub open spec fn spec_message(self) -> Seq<char> {
        match self {
            ConfigError::NotAnInteger(_) => "must be a positive integer"@,
            ConfigError::WindowZero => "LATENCY_TRACKER_WINDOW must be greater than 0"@,
            ConfigError::StripesZero => "LATENCY_TRACKER_STRIPES must be greater than 0"@,
            ConfigError::StripesNotPowerOfTwo => "LATENCY_TRACKER_STRIPES must be a power of two because stripe selection uses a bit mask"@,
            ConfigError::FlushEveryZero => "LATENCY_TRACKER_FLUSH_EVERY must be greater than 0"@,
            ConfigError::LinearMaxZero => "LATENCY_TRACKER_LINEAR_MAX_MS must be greater than 0"@,
            ConfigError::LinearStepZero => "LATENCY_TRACKER_LINEAR_STEP must be greater than 0"@,
            ConfigError::LinearMaxBelowStep => "LATENCY_TRACKER_LINEAR_MAX_MS must be greater than or equal to LATENCY_TRACKER_LINEAR_STEP"@,
            ConfigError::LinearMaxNotMultiple => "LATENCY_TRACKER_LINEAR_MAX_MS must be divisible by LATENCY_TRACKER_LINEAR_STEP"@,
            ConfigError::WindowTooLarge => "LATENCY_TRACKER_WINDOW is too large"@,
            ConfigError::HistogramTooLarge => "LATENCY_TRACKER_LINEAR_MAX_MS is too large"@,
        }
    }

    pub fn message(&self) -> (s: &'static str)
        ensures
            s@ == self.spec_message(),
    {
        match self {
            ConfigError::NotAnInteger(_) => "must be a positive integer",
            ConfigError::WindowZero => "LATENCY_TRACKER_WINDOW must be greater than 0",
            ConfigError::StripesZero => "LATENCY_TRACKER_STRIPES must be greater than 0",
            ConfigError::StripesNotPowerOfTwo => "LATENCY_TRACKER_STRIPES must be a power of two because stripe selection uses a bit mask",
            ConfigError::FlushEveryZero => "LATENCY_TRACKER_FLUSH_EVERY must be greater than 0",
            ConfigError::LinearMaxZero => "LATENCY_TRACKER_LINEAR_MAX_MS must be greater than 0",
            ConfigError::LinearStepZero => "LATENCY_TRACKER_LINEAR_STEP must be greater than 0",
            ConfigError::LinearMaxBelowStep => "LATENCY_TRACKER_LINEAR_MAX_MS must be greater than or equal to LATENCY_TRACKER_LINEAR_STEP",
            ConfigError::LinearMaxNotMultiple => "LATENCY_TRACKER_LINEAR_MAX_MS must be divisible by LATENCY_TRACKER_LINEAR_STEP",
            ConfigError::WindowTooLarge => "LATENCY_TRACKER_WINDOW is too large",
            ConfigError::HistogramTooLarge => "LATENCY_TRACKER_LINEAR_MAX_MS is too large",
        }
    }
}

/// The texts of the settings, `None` for one that was not given.
#[derive(Debug)]
pub struct Settings {
    pub window: Option<String>,
    pub stripes: Option<String>,
    pub flush_every: Option<String>,
    pub linear_max_ms: Option<String>,
    pub linear_step: Option<String>,
}

/// `c` is a decimal digit.
pub open spec fn is_digit(c: char) -> bool {
    '0' <= c <= '9'
}

/// The number that a string of decimal digits denotes.
pub open spec fn digits_value(s: Seq<char>) -> nat
    decreases s.len(),
{
    if s.len() == 0 {
        0
    } else {
        digits_value(s.drop_last()) * 10 + (s.last() as nat - '0' as nat) as nat
    }
}

/// The digits of a number: the text without one leading plus sign.
pub open spec fn unsigned_part(s: Seq<char>) -> Seq<char> {
    if s.len() > 0 && s[0] == '+' {
        s.skip(1)
    } else {
        s
    }
}

/// What the text denotes as an unsigned number of at most `max`: an optional
/// plus sign and at least one digit, nothing else.
pub open spec fn parsed_decimal(s: Seq<char>, max: nat) -> Option<nat> {
    let digits = unsigned_part(s);
    if digits.len() > 0 && (forall|i: int| 0 <= i < digits.len() ==> is_digit(#[trigger] digits[i]))
        && digits_value(digits) <= max {
        Some(digits_value(digits))
    } else {
        None
    }
}

proof fn lemma_digits_value_prefix(s: Seq<char>, n: int)
    requires
        0 <= n <= s.len(),
        forall|i: int| 0 <= i < s.len() ==> is_digit(#[trigger] s[i]),
    ensures
        digits_value(s.take(n)) <= digits_value(s),
    decreases s.len(),
{
    if n < s.len() {
        assert(s.take(n) =~= s.drop_last().take(n));
        lemma_digits_value_prefix(s.drop_last(), n);
    } else {
        assert(s.take(n) =~= s);
    }
}

/// Reads an unsigned decimal number of at most `max`.
pub fn parse_decimal(s: &str, max: u64) -> (r: Option<u64>)
    ensures
        match r {
            Some(v) => parsed_decimal(s@, max as nat) == Some(v as nat),
            None => parsed_decimal(s@, max as nat) is None,
        },
{
    let n: usize = s.unicode_len();
    let mut i: usize = 0;
    if n > 0 && s.get_char(0) == '+' {
        i = 1;
    }
    let ghost digits = unsigned_part(s@);
    let first: usize = i;
    if first == n {
        return None;
    }
    let mut value: u64 = 0;
    while i < n
        invariant
            first <= i <= n,
            first <= 1,
            n == s@.len(),
            digits == s@.skip(first as int),
            digits == unsigned_part(s@),
            forall|j: int| 0 <= j < i - first ==> is_digit(#[trigger] digits[j]),
            value == digits_value(digits.take(i - first)),
            value <= max,
        decreases n - i,
    {
        let c = s.get_char(i);
        let ghost k = i - first;
        assert(digits[k] == c);
        if !(c >= '0' && c <= '9') {
            return None;
        }
        let d: u64 = c as u64 - '0' as u64;
        proof {
            assert(digits.take(k + 1).drop_last() =~= digits.take(k));
            assert(digits_value(digits.take(k + 1)) == value * 10 + d);
        }
        if value > u64::MAX / 10 || value * 10 > u64::MAX - d || value * 10 + d > max {
            proof {
                if forall|j: int| 0 <= j < digits.len() ==> is_digit(#[trigger] digits[j]) {
                    lemma_digits_value_prefix(digits, k + 1);
                }
            }
            return None;
        }
        value = value * 10 + d;
        i = i + 1;
    }
    proof {
        assert(digits.take(n - first) =~= digits);
    }
    Some(value)
}

/// `x` is a power of two.
pub fn is_power_of_two(x: usize) -> (r: bool)
    ensures
        r == is_pow2(x as int),
{
    let mut n: usize = x;
    proof {
        reveal(is_pow2);
    }
    while n > 1 && n % 2 == 0
        invariant
            is_pow2(n as int) == is_pow2(x as int),
        decreases n,
    {
        proof {
            reveal(is_pow2);
        }
        n = n / 2;
    }
    n == 1
}

/// The number that a setting has: the one that its text denotes, or `default`.
pub open spec fn setting_value(text: Option<String>, default: nat, max: nat) -> Option<nat> {
    match text {
        Some(s) => parsed_decimal(s@, max),
        None => Some(default),
    }
}

fn read_setting(text: &Option<String>, default: u64, max: u64) -> (r: Option<u64>)
    ensures
        match r {
            Some(v) => setting_value(*text, default as nat, max as nat) == Some(v as nat),
            None => setting_value(*text, default as nat, max as nat) is None,
        },
        default <= max ==> (r matches Some(v) ==> v <= max),
{
    match text {
        Some(s) => parse_decimal(s.as_str(), max),
        None => Some(default),
    }
}

/// The configuration with a linear histogram of these sizes, or the first rule
/// that they break.
pub open spec fn checked_config(
    window: nat,
    stripes: nat,
    flush_every: nat,
    max_ms: nat,
    step: nat,
) -> Result<Config, ConfigError> {
    if window == 0 {
        Err(ConfigError::WindowZero)
    } else if stripes == 0 {
        Err(ConfigError::StripesZero)
    } else if !is_pow2(stripes as int) {
        Err(ConfigError::StripesNotPowerOfTwo)
    } else if flush_every == 0 {
        Err(ConfigError::FlushEveryZero)
    } else if max_ms == 0 {
        Err(ConfigError::LinearMaxZero)
    } else if step == 0 {
        Err(ConfigError::LinearStepZero)
    } else if max_ms < step {
        Err(ConfigError::LinearMaxBelowStep)
    } else if max_ms % step != 0 {
        Err(ConfigError::LinearMaxNotMultiple)
    } else if window >= usize::MAX {
        Err(ConfigError::WindowTooLarge)
    } else if max_ms / step >= usize::MAX {
        Err(ConfigError::HistogramTooLarge)
    } else {
        Ok(
            Config {
                window: window as u64,
                stripes: stripes as usize,
                flush_every: flush_every as u32,
                layout: Layout::Linear { max_ms: max_ms as u64, step: step as u64 },
            },
        )
    }
}

/// The configuration that a set of texts describes: every text is read first,
/// then the numbers are checked.
pub open spec fn settings_config(s: Settings) -> Result<Config, ConfigError> {
    let window = setting_value(s.window, DEFAULT_WINDOW as nat, u64::MAX as nat);
    let stripes = setting_value(s.stripes, DEFAULT_STRIPES as nat, usize::MAX as nat);
    let flush_every = setting_value(s.flush_every, DEFAULT_FLUSH_EVERY as nat, u32::MAX as nat);
    let max_ms = setting_value(s.linear_max_ms, DEFAULT_LINEAR_MAX_MS as nat, u64::MAX as nat);
    let step = setting_value(s.linear_step, DEFAULT_LINEAR_STEP as nat, u64::MAX as nat);
    if window is None {
        Err(ConfigError::NotAnInteger(Setting::Window))
    } else if stripes is None {
        Err(ConfigError::NotAnInteger(Setting::Stripes))
    } else if flush_every is None {
        Err(ConfigError::NotAnInteger(Setting::FlushEvery))
    } else if max_ms is None {
        Err(ConfigError::NotAnInteger(Setting::LinearMaxMs))
    } else if step is None {
        Err(ConfigError::NotAnInteger(Setting::LinearStep))
    } else {
        checked_config(
            window->Some_0,
            stripes->Some_0,
            flush_every->Some_0,
            max_ms->Some_0,
            step->Some_0,
        )
    }
}

impl Config {
    /// Checks the sizes of a configuration with a linear histogram.
    pub fn checked(window: u64, stripes: usize, flush_every: u32, max_ms: u64, step: u64) -> (r: Result<
        Config,
        ConfigError,
    >)
        ensures
            r == checked_config(
                window as nat,
                stripes as nat,
                flush_every as nat,
                max_ms as nat,
                step as nat,
            ),
            r matches Ok(c) ==> c.wf(),
    {
        if window == 0 {
            return Err(ConfigError::WindowZero);
        }
        if stripes == 0 {
            return Err(ConfigError::StripesZero);
        }
        if !is_power_of_two(stripes) {
            return Err(ConfigError::StripesNotPowerOfTwo);
        }
        if flush_every == 0 {
            return Err(ConfigError::FlushEveryZero);
        }
        if max_ms == 0 {
            return Err(ConfigError::LinearMaxZero);
        }
        if step == 0 {
            return Err(ConfigError::LinearStepZero);
        }
        if max_ms < step {
            return Err(ConfigError::LinearMaxBelowStep);
        }
        if max_ms % step != 0 {
            return Err(ConfigError::LinearMaxNotMultiple);
        }
        if window >= usize::MAX as u64 {
            return Err(ConfigError::WindowTooLarge);
        }
        if max_ms / step >= usize::MAX as u64 {
            return Err(ConfigError::HistogramTooLarge);
        }
        Ok(Config { window, stripes, flush_every, layout: Layout::Linear { max_ms, step } })
    }

    /// Reads a configuration from the texts of its settings.
    pub fn from_settings(s: &Settings) -> (r: Result<Config, ConfigError>)
        ensures
            r == settings_config(*s),
            r matches Ok(c) ==> c.wf(),
    {
        let window = match read_setting(&s.window, DEFAULT_WINDOW, u64::MAX) {
            Some(v) => v,
            None => return Err(ConfigError::NotAnInteger(Setting::Window)),
        };
        let stripes = match read_setting(&s.stripes, DEFAULT_STRIPES as u64, usize::MAX as u64) {
            Some(v) => v,
            None => return Err(ConfigError::NotAnInteger(Setting::Stripes)),
        };
        let flush_every = match read_setting(
            &s.flush_every,
            DEFAULT_FLUSH_EVERY as u64,
            u32::MAX as u64,
        ) {
            Some(v) => v,
            None => return Err(ConfigError::NotAnInteger(Setting::FlushEvery)),
        };
        let max_ms = match read_setting(&s.linear_max_ms, DEFAULT_LINEAR_MAX_MS, u64::MAX) {
            Some(v) => v,
            None => return Err(ConfigError::NotAnInteger(Setting::LinearMaxMs)),
        };
        let step = match read_setting(&s.linear_step, DEFAULT_LINEAR_STEP, u64::MAX) {
            Some(v) => v,
            None => return Err(ConfigError::NotAnInteger(Setting::LinearStep)),
        };
        Config::checked(window, stripes as usize, flush_every as u32, max_ms, step)
    }

    /// The stripe of the thread with this hash.
    pub open spec fn spec_stripe_of_hash(self, hash: u64) -> int {
        hash as int % self.stripes as int
    }

    /// Picks a stripe for a thread by masking the hash of its identity.
    pub fn stripe_of_hash(&self, hash: u64) -> (s: usize)
        requires
            self.wf(),
        ensures
            s == self.spec_stripe_of_hash(hash),
            s < self.stripes,
    {
        proof {
            lemma_mask_is_mod(hash, self.stripes as u64);
        }
        let mask: u64 = self.stripes as u64 - 1;
        (hash & mask) as usize
    }
}

/// Without any setting the default configuration is used.
pub proof fn law_no_settings_is_default(s: Settings)
    requires
        s.window is None,
        s.stripes is None,
        s.flush_every is None,
        s.linear_max_ms is None,
        s.linear_step is None,
    ensures
        settings_config(s) == Ok::<Config, ConfigError>(Config::spec_default()),
{
    lemma_sixty_four_is_pow2();
}

/// The checks accept exactly the well-formed configurations with a linear
/// histogram, and leave them as they are.
pub proof fn law_checks_accept_the_well_formed(c: Config, max_ms: u64, step: u64)
    requires
        c.layout == (Layout::Linear { max_ms, step }),
    ensures
        c.wf() <==> checked_config(
            c.window as nat,
            c.stripes as nat,
            c.flush_every as nat,
            max_ms as nat,
            step as nat,
        ) == Ok::<Config, ConfigError>(c),
{
    reveal(is_pow2);
}

proof fn lemma_mask_is_mod(x: u64, m: u64)
    requires
        is_pow2(m as int),
    ensures
        m > 0,
        x & (m - 1) as u64 == x % m,
{
    reveal(is_pow2);
    is_pow2_equiv(m as int);
    let n = choose|n: nat| pow(2, n) == m;
    lemma_pow2(n);
    assert(n < 64) by {
        if n >= 64 {
            if n > 64 {
                lemma_pow2_strictly_increases(64, n);
            }
            lemma2_to64_rest();
        }
    }
    lemma_u64_low_bits_mask_is_mod(x, n);
}

} // verus!
