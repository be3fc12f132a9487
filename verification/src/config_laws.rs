//! Laws of the configuration: what the texts of settings mean, which sizes are
//! accepted, and what a configuration makes of them.

use vstd::prelude::*;

use vstd::arithmetic::power::pow;
use vstd::arithmetic::power2::is_pow2;

use crate::batch::{BatchView, FlushView};
use crate::config::{
    checked_config, digits_value, parsed_decimal, settings_config, unsigned_part, Config,
    ConfigError, Layout, Setting, Settings,
};
use crate::hist::{counts, sum};

verus! {

/// The number that digits denote by their places: each counts ten times what it would
/// count one place to the right.
pub open spec fn place_value(digits: Seq<char>) -> int
    decreases digits.len(),
{
    if digits.len() == 0 {
        0
    } else {
        (digits[0] as int - 48) * pow(10, (digits.len() - 1) as nat) + place_value(
            digits.drop_first(),
        )
    }
}

/// `text` is `digits`, maybe after a plus sign.
pub open spec fn is_text_of(text: Seq<char>, digits: Seq<char>) -> bool {
    &&& text == digits || text == seq!['+'] + digits
    &&& digits.len() > 0
    &&& forall|i: int| 0 <= i < digits.len() ==> '0' <= #[trigger] digits[i] <= '9'
}

/// The text denotes the number `n` in decimal notation.
pub open spec fn denotes(text: Seq<char>, n: int) -> bool {
    exists|digits: Seq<char>| #[trigger] is_text_of(text, digits) && place_value(digits) == n
}

proof fn lemma_place_value_push(digits: Seq<char>, last: char)
    ensures
        place_value(digits.push(last)) == place_value(digits) * 10 + (last as int - 48),
    decreases digits.len(),
{
    let all = digits.push(last);
    if digits.len() == 0 {
        assert(all.drop_first() =~= digits);
        vstd::arithmetic::power::lemma_pow0(10);
    } else {
        let rest = digits.drop_first();
        let d = digits[0] as int - 48;
        let e = (digits.len() - 1) as nat;
        assert(all.drop_first() =~= rest.push(last));
        lemma_place_value_push(rest, last);
        reveal(pow);
        assert(d * pow(10, e + 1) == (d * pow(10, e)) * 10) by (nonlinear_arith)
            requires
                pow(10, e + 1) == 10 * pow(10, e),
        ;
    }
}

proof fn lemma_digits_value(digits: Seq<char>)
    requires
        forall|i: int| 0 <= i < digits.len() ==> '0' <= #[trigger] digits[i] <= '9',
    ensures
        digits_value(digits) == place_value(digits),
    decreases digits.len(),
{
    if digits.len() > 0 {
        let init = digits.drop_last();
        assert forall|i: int| 0 <= i < init.len() implies '0' <= #[trigger] init[i] <= '9' by {
            assert(init[i] == digits[i]);
        }
        lemma_digits_value(init);
        lemma_place_value_push(init, digits.last());
        assert(init.push(digits.last()) =~= digits);
        assert('0' <= digits[digits.len() - 1] <= '9');
    }
}

proof fn lemma_text_digits(text: Seq<char>, digits: Seq<char>)
    requires
        is_text_of(text, digits),
    ensures
        unsigned_part(text) == digits,
{
    assert('0' <= digits[0] <= '9');
    if text != digits {
        assert(text[0] == '+');
        assert(text.skip(1) =~= digits);
    }
}

/// Texts are read as decimal numbers: a text is read as `n` exactly if it denotes `n`
/// and `n` is not above the maximum. Every other text is refused.
pub proof fn law_decimal_texts(text: Seq<char>, max: nat, n: nat)
    ensures
        parsed_decimal(text, max) == Some(n) <==> denotes(text, n as int) && n <= max,
        parsed_decimal(text, max) is None <==> !exists|m: int| #[trigger]
            denotes(text, m) && 0 <= m <= max,
{
    let part = unsigned_part(text);
    let found = parsed_decimal(text, max);
    if found is Some {
        let v = found->Some_0 as int;
        assert forall|i: int| 0 <= i < part.len() implies '0' <= #[trigger] part[i] <= '9' by {
            assert(crate::config::is_digit(part[i]));
        }
        if part != text {
            assert(text =~= seq!['+'] + part);
        }
        assert(is_text_of(text, part));
        lemma_digits_value(part);
        assert(denotes(text, v));
    }
    assert forall|m: int| #[trigger] denotes(text, m) && 0 <= m <= max implies found == Some(
        m as nat,
    ) by {
        let digits = choose|digits: Seq<char>| #[trigger]
            is_text_of(text, digits) && place_value(digits) == m;
        lemma_text_digits(text, digits);
        lemma_digits_value(digits);
        assert forall|i: int| 0 <= i < part.len() implies crate::config::is_digit(
            #[trigger] part[i],
        ) by {
            assert('0' <= digits[i] <= '9');
        }
    }
}

/// The value of a setting: what its own text denotes, within what its type holds, or
/// its default if it has none.
pub open spec fn is_value(text: Option<String>, default: int, max: int, v: int) -> bool {
    match text {
        Some(s) => denotes(s@, v) && 0 <= v <= max,
        None => v == default,
    }
}

/// The text of a setting is no number that its type holds.
pub open spec fn is_no_number(text: Option<String>, max: int) -> bool {
    text matches Some(s) && forall|n: int| 0 <= n <= max ==> !#[trigger] denotes(s@, n)
}

proof fn lemma_setting_value(text: Option<String>, default: nat, max: nat)
    ensures
        match crate::config::setting_value(text, default, max) {
            Some(v) => {
                &&& is_value(text, default as int, max as int, v as int)
                &&& !is_no_number(text, max as int)
                &&& forall|w: int|
                    is_value(text, default as int, max as int, w) ==> w == v
            },
            None => is_no_number(text, max as int),
        },
{
    if let Some(s) = text {
        let found = parsed_decimal(s@, max);
        if found is Some {
            law_decimal_texts(s@, max, found->Some_0);
            assert forall|w: int| is_value(text, default as int, max as int, w) implies w
                == found->Some_0 by {
                law_decimal_texts(s@, max, w as nat);
            }
        } else {
            law_decimal_texts(s@, max, 0);
        }
    }
}

/// Each setting counts on its own: an accepted configuration has, in each field, the
/// number that the text of that setting denotes, or the default of that field where
/// there is no text, whatever the other settings are.
pub proof fn law_settings_are_independent(s: Settings, c: Config)
    requires
        settings_config(s) == Ok::<Config, ConfigError>(c),
    ensures
        is_value(s.window, 10, u64::MAX as int, c.window as int),
        is_value(s.stripes, 64, usize::MAX as int, c.stripes as int),
        is_value(s.flush_every, 512, u32::MAX as int, c.flush_every as int),
        c.layout matches Layout::Linear { max_ms, step } && {
            &&& is_value(s.linear_max_ms, 5000, u64::MAX as int, max_ms as int)
            &&& is_value(s.linear_step, 10, u64::MAX as int, step as int)
        },
{
    lemma_setting_value(s.window, 10, u64::MAX as nat);
    lemma_setting_value(s.stripes, 64, usize::MAX as nat);
    lemma_setting_value(s.flush_every, 512, u32::MAX as nat);
    lemma_setting_value(s.linear_max_ms, 5000, u64::MAX as nat);
    lemma_setting_value(s.linear_step, 10, u64::MAX as nat);
}

/// Texts whose numbers can be used are accepted: settings give a configuration
/// whenever their values fit their types, none is zero, the number of stripes is a
/// power of two, the maximum is a multiple of the step, and buckets and bins can be
/// numbered by `usize`.
pub proof fn law_good_settings_are_accepted(
    s: Settings,
    window: int,
    stripes: int,
    flush_every: int,
    max_ms: int,
    step: int,
)
    requires
        is_value(s.window, 10, u64::MAX as int, window),
        is_value(s.stripes, 64, usize::MAX as int, stripes),
        is_value(s.flush_every, 512, u32::MAX as int, flush_every),
        is_value(s.linear_max_ms, 5000, u64::MAX as int, max_ms),
        is_value(s.linear_step, 10, u64::MAX as int, step),
        window > 0,
        is_pow2(stripes),
        flush_every > 0,
        step > 0,
        max_ms >= step,
        max_ms % step == 0,
        window < usize::MAX,
        max_ms / step < usize::MAX,
    ensures
        settings_config(s) == Ok::<Config, ConfigError>(
            Config {
                window: window as u64,
                stripes: stripes as usize,
                flush_every: flush_every as u32,
                layout: Layout::Linear { max_ms: max_ms as u64, step: step as u64 },
            },
        ),
{
    reveal(is_pow2);
    lemma_setting_value(s.window, 10, u64::MAX as nat);
    lemma_setting_value(s.stripes, 64, usize::MAX as nat);
    lemma_setting_value(s.flush_every, 512, u32::MAX as nat);
    lemma_setting_value(s.linear_max_ms, 5000, u64::MAX as nat);
    lemma_setting_value(s.linear_step, 10, u64::MAX as nat);
}

/// A setting is refused as no number only for a text that denotes none that fits its
/// type, and then always; the first such setting is named.
pub proof fn law_refused_texts_are_no_numbers(s: Settings, setting: Setting)
    ensures
        ({
            let bad = |x: Setting|
                match x {
                    Setting::Window => is_no_number(s.window, u64::MAX as int),
                    Setting::Stripes => is_no_number(s.stripes, usize::MAX as int),
                    Setting::FlushEvery => is_no_number(s.flush_every, u32::MAX as int),
                    Setting::LinearMaxMs => is_no_number(s.linear_max_ms, u64::MAX as int),
                    Setting::LinearStep => is_no_number(s.linear_step, u64::MAX as int),
                };
            let earlier_bad = match setting {
                Setting::Window => false,
                Setting::Stripes => bad(Setting::Window),
                Setting::FlushEvery => bad(Setting::Window) || bad(Setting::Stripes),
                Setting::LinearMaxMs => bad(Setting::Window) || bad(Setting::Stripes) || bad(
                    Setting::FlushEvery,
                ),
                Setting::LinearStep => bad(Setting::Window) || bad(Setting::Stripes) || bad(
                    Setting::FlushEvery,
                ) || bad(Setting::LinearMaxMs),
            };
            settings_config(s) == Err::<Config, ConfigError>(ConfigError::NotAnInteger(setting))
                <==> bad(setting) && !earlier_bad
        }),
{
    lemma_setting_value(s.window, 10, u64::MAX as nat);
    lemma_setting_value(s.stripes, 64, usize::MAX as nat);
    lemma_setting_value(s.flush_every, 512, u32::MAX as nat);
    lemma_setting_value(s.linear_max_ms, 5000, u64::MAX as nat);
    lemma_setting_value(s.linear_step, 10, u64::MAX as nat);
}

/// Texts that are all numbers are checked like the numbers themselves.
pub proof fn law_settings_are_checked_as_numbers(
    s: Settings,
    window: nat,
    stripes: nat,
    flush_every: nat,
    max_ms: nat,
    step: nat,
)
    requires
        is_value(s.window, 10, u64::MAX as int, window as int),
        is_value(s.stripes, 64, usize::MAX as int, stripes as int),
        is_value(s.flush_every, 512, u32::MAX as int, flush_every as int),
        is_value(s.linear_max_ms, 5000, u64::MAX as int, max_ms as int),
        is_value(s.linear_step, 10, u64::MAX as int, step as int),
    ensures
        settings_config(s) == checked_config(window, stripes, flush_every, max_ms, step),
{
    lemma_setting_value(s.window, 10, u64::MAX as nat);
    lemma_setting_value(s.stripes, 64, usize::MAX as nat);
    lemma_setting_value(s.flush_every, 512, u32::MAX as nat);
    lemma_setting_value(s.linear_max_ms, 5000, u64::MAX as nat);
    lemma_setting_value(s.linear_step, 10, u64::MAX as nat);
}

/// Sizes that can be used are accepted as they are, and no others: each field of the
/// configuration is the size that was given.
pub proof fn law_sizes_are_kept(
    window: nat,
    stripes: nat,
    flush_every: nat,
    max_ms: nat,
    step: nat,
)
    requires
        window <= u64::MAX,
        stripes <= usize::MAX,
        flush_every <= u32::MAX,
        max_ms <= u64::MAX,
        step <= u64::MAX,
    ensures
        ({
            let r = checked_config(window, stripes, flush_every, max_ms, step);
            let usable = {
                &&& window > 0
                &&& is_pow2(stripes as int)
                &&& flush_every > 0
                &&& step > 0
                &&& max_ms >= step
                &&& max_ms % step == 0
                &&& window < usize::MAX
                &&& max_ms / step < usize::MAX
            };
            &&& r is Ok <==> usable
            &&& r matches Ok(c) ==> {
                &&& c.window == window
                &&& c.stripes == stripes
                &&& c.flush_every == flush_every
                &&& c.layout matches Layout::Linear { max_ms: m, step: s } && m == max_ms && s
                    == step
            }
        }),
{
    reveal(is_pow2);
}

/// The place of a rule in the order in which they are checked; rules on texts come
/// first.
pub open spec fn rule_order(e: ConfigError) -> int {
    match e {
        ConfigError::NotAnInteger(_) => 0,
        ConfigError::WindowZero => 1,
        ConfigError::StripesZero => 2,
        ConfigError::StripesNotPowerOfTwo => 3,
        ConfigError::FlushEveryZero => 4,
        ConfigError::LinearMaxZero => 5,
        ConfigError::LinearStepZero => 6,
        ConfigError::LinearMaxBelowStep => 7,
        ConfigError::LinearMaxNotMultiple => 8,
        ConfigError::WindowTooLarge => 9,
        ConfigError::HistogramTooLarge => 10,
    }
}

/// Sizes break the rule of an error.
pub open spec fn breaks_rule(
    e: ConfigError,
    window: nat,
    stripes: nat,
    flush_every: nat,
    max_ms: nat,
    step: nat,
) -> bool {
    match e {
        ConfigError::NotAnInteger(_) => false,
        ConfigError::WindowZero => window == 0,
        ConfigError::StripesZero => stripes == 0,
        ConfigError::StripesNotPowerOfTwo => !is_pow2(stripes as int),
        ConfigError::FlushEveryZero => flush_every == 0,
        ConfigError::LinearMaxZero => max_ms == 0,
        ConfigError::LinearStepZero => step == 0,
        ConfigError::LinearMaxBelowStep => max_ms < step,
        ConfigError::LinearMaxNotMultiple => max_ms % step != 0,
        ConfigError::WindowTooLarge => window >= usize::MAX,
        ConfigError::HistogramTooLarge => max_ms / step >= usize::MAX,
    }
}

/// An error names the first rule that is broken: sizes are refused with it exactly if
/// they break its rule and none before it.
pub proof fn law_error_is_the_first_broken_rule(
    e: ConfigError,
    earlier: ConfigError,
    window: nat,
    stripes: nat,
    flush_every: nat,
    max_ms: nat,
    step: nat,
)
    ensures
        ({
            let r = checked_config(window, stripes, flush_every, max_ms, step);
            let refused = Err::<Config, ConfigError>(e);
            let broken = |x: ConfigError|
                breaks_rule(x, window, stripes, flush_every, max_ms, step);
            &&& r == refused ==> broken(e)
            &&& r == refused && rule_order(earlier) < rule_order(e) ==> !broken(earlier)
            &&& broken(e) ==> (r matches Err(first) && rule_order(first) <= rule_order(e))
        }),
{
}

/// A configuration can be used exactly if its window and threshold are positive, the
/// number of stripes is a power of two, its buckets can be numbered by `usize`, and,
/// with a linear histogram, the step is positive, the maximum a positive multiple of
/// it, and the bins can be numbered by `usize`.
pub proof fn law_usable_configurations(c: Config)
    ensures
        c.wf() <==> {
            &&& c.window > 0
            &&& c.window < usize::MAX
            &&& is_pow2(c.stripes as int)
            &&& c.flush_every > 0
            &&& c.layout matches Layout::Linear { max_ms, step } ==> {
                &&& step > 0
                &&& max_ms >= step
                &&& max_ms % step == 0
                &&& max_ms / step < usize::MAX
            }
        },
{
}

/// A tracker has one bucket for each second of its window and one for the current
/// second. Second after second uses the next bucket, and the first one again after the
/// last.
pub proof fn law_buckets_are_used_in_turn(c: Config, sec: u64)
    requires
        c.wf(),
        sec <= usize::MAX,
    ensures
        c.spec_buckets() == c.window + 1,
        c.bucket_of(sec) == sec as int % (c.window + 1),
{
}

/// A thread's stripe is what its hash leaves when it is divided by the number of
/// stripes.
pub proof fn law_stripe_is_the_rest_of_the_hash(c: Config, hash: u64)
    requires
        c.wf(),
    ensures
        0 <= c.spec_stripe_of_hash(hash) < c.stripes,
        c.stripes * (hash as int / c.stripes as int) + c.spec_stripe_of_hash(hash) == hash,
{
    reveal(is_pow2);
    vstd::arithmetic::div_mod::lemma_fundamental_div_mod(hash as int, c.stripes as int);
    vstd::arithmetic::div_mod::lemma_mod_bound(hash as int, c.stripes as int);
}

/// The batches that belong to a tracker: they have one of its stripes and as many bins
/// as it, count what their bins hold, and hold less than a full batch.
pub proof fn law_batches_of_a_tracker(c: Config, t: BatchView)
    ensures
        t.wf(c) <==> {
            &&& t.stripe < c.stripes
            &&& t.hist.len() == c.layout.spec_bins()
            &&& t.count < c.flush_every
            &&& sum(counts(t.hist)) == t.count
        },
{
}

/// The flushes that a tracker takes: into one of its stripes and buckets, with as many
/// bins as it has.
pub proof fn law_flushes_of_a_tracker(c: Config, f: FlushView)
    ensures
        f.wf(c) <==> {
            &&& f.stripe < c.stripes
            &&& f.bucket < c.window + 1
            &&& f.hist.len() == c.layout.spec_bins()
        },
{
}

/// The sizes used when nothing is set.
pub proof fn law_default_sizes()
    ensures
        Config::spec_default().window == 10,
        Config::spec_default().stripes == 64,
        Config::spec_default().flush_every == 512,
        Config::spec_default().layout == (Layout::Linear { max_ms: 5000, step: 10 }),
{
}

/// Every setting is looked up under its own name.
pub proof fn law_setting_names(setting: Setting)
    ensures
        setting.spec_name() == match setting {
            Setting::Window => "LATENCY_TRACKER_WINDOW"@,
            Setting::Stripes => "LATENCY_TRACKER_STRIPES"@,
            Setting::FlushEvery => "LATENCY_TRACKER_FLUSH_EVERY"@,
            Setting::LinearMaxMs => "LATENCY_TRACKER_LINEAR_MAX_MS"@,
            Setting::LinearStep => "LATENCY_TRACKER_LINEAR_STEP"@,
        },
{
}

/// What is said of a zero is the name of its setting and that it must be greater than
/// zero; every other message names the rule that was broken.
pub proof fn law_error_messages(e: ConfigError)
    ensures
        e.spec_message() == match e {
            ConfigError::NotAnInteger(_) => "must be a positive integer"@,
            ConfigError::WindowZero => "LATENCY_TRACKER_WINDOW must be greater than 0"@,
            ConfigError::StripesZero => "LATENCY_TRACKER_STRIPES must be greater than 0"@,
            ConfigError::StripesNotPowerOfTwo => "LATENCY_TRACKER_STRIPES must be a power of two because stripe selection uses a bit mask"@,
            ConfigError::FlushEveryZero => "LATENCY_TRACKER_FLUSH_EVERY must be greater than 0"@,
            ConfigError::LinearMaxZero => "LATENCY_TRACKER_LINEAR_MAX_MS must be greater than 0"@,
            ConfigError::LinearStepZero => "LATENCY_TRACKER_LINEAR_STEP must be greater than 0"@,
            ConfigError::LinearMaxBelowStep => "LATENCY_TRACKER_LINEAR_MAX_MS must be greater than or equal to LATENCY_TRACKER_LINEAR_STEP"@,
            ConfigError::LinearMaxNotMultiple => "LATENCY_TRACKER_LINEAR_MAX_MS must be divisible by LATENCY_TRACKER_LINEAR_STEP"@,
            ConfigError::WindowTooLarge => "LATENCY_TRACKER_WINDOW is too large"@,
            ConfigError::HistogramTooLarge => "LATENCY_TRACKER_LINEAR_MAX_MS is too large"@,
        },
{
}

} // verus!
