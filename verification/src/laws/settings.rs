//! Settings: which assignment a value comes from.
use crate::config;
use crate::config::{Config, Fault, Setting};
use crate::double::Double;
use crate::laws::wording;
use crate::text;
use vstd::prelude::*;

verus! {

/// Each setting is assigned under its own name.
pub proof fn law_every_setting_has_its_name(c: Config, env: Map<Seq<char>, Seq<char>>)
    requires
        c.holds(env),
    ensures
        config::setting::<Double>(env, "SITE_LAT"@) == Some(c.site_lat),
        config::setting::<Double>(env, "SITE_LON"@) == Some(c.site_lon),
        config::setting::<Double>(env, "SITE_ALT_M"@) == Some(c.site_alt_m),
        env.contains_key("ADSB_URL"@) && c.adsb_url@ == env["ADSB_URL"@],
        config::setting::<u32>(env, "ADSB_RADIUS_NM"@) == Some(c.adsb_radius_nm),
        config::setting::<usize>(env, "MAX_BODY_BYTES"@) == Some(c.max_body_bytes),
        config::setting::<u64>(env, "POLL_MS"@) == Some(c.poll_ms),
        config::setting::<u64>(env, "CYCLE_MS"@) == Some(c.cycle_ms),
        config::setting::<u64>(env, "TRACK_TIMEOUT_S"@) == Some(c.track_timeout_s),
        config::setting::<Double>(env, "HORIZON_S"@) == Some(c.horizon_s),
        config::setting::<Double>(env, "MIN_HORIZ_M"@) == Some(c.min_horiz_m),
        config::setting::<Double>(env, "MIN_VERT_M"@) == Some(c.min_vert_m),
        config::setting::<Double>(env, "PROCESS_NOISE"@) == Some(c.process_noise),
        config::setting::<Double>(env, "MEAS_VAR"@) == Some(c.meas_var),
        config::setting::<Double>(env, "GATE_SIGMA"@) == Some(c.gate_sigma),
        config::setting::<usize>(env, "DISPLAY_ROWS"@) == Some(c.display_rows),
{
}

/// A setting can be read.
pub open spec fn readable<T: Setting>(env: Map<Seq<char>, Seq<char>>, key: Seq<char>) -> bool {
    env.contains_key(key) && T::reading(env[key]) is Some
}

/// A configuration can be used exactly if all of its settings can be read.
pub proof fn law_all_settings_are_needed(env: Map<Seq<char>, Seq<char>>)
    ensures
        config::first_fault(env) is None <==> {
            &&& readable::<Double>(env, "SITE_LAT"@)
            &&& readable::<Double>(env, "SITE_LON"@)
            &&& readable::<Double>(env, "SITE_ALT_M"@)
            &&& env.contains_key("ADSB_URL"@)
            &&& readable::<u32>(env, "ADSB_RADIUS_NM"@)
            &&& readable::<usize>(env, "MAX_BODY_BYTES"@)
            &&& readable::<u64>(env, "POLL_MS"@)
            &&& readable::<u64>(env, "CYCLE_MS"@)
            &&& readable::<u64>(env, "TRACK_TIMEOUT_S"@)
            &&& readable::<Double>(env, "HORIZON_S"@)
            &&& readable::<Double>(env, "MIN_HORIZ_M"@)
            &&& readable::<Double>(env, "MIN_VERT_M"@)
            &&& readable::<Double>(env, "PROCESS_NOISE"@)
            &&& readable::<Double>(env, "MEAS_VAR"@)
            &&& readable::<Double>(env, "GATE_SIGMA"@)
            &&& readable::<usize>(env, "DISPLAY_ROWS"@)
        },
{
}

/// What is wrong with each setting, in the order in which they are read.
pub open spec fn faults(env: Map<Seq<char>, Seq<char>>) -> Seq<Option<Fault>> {
    seq![
        config::fault::<Double>(env, "SITE_LAT"@),
        config::fault::<Double>(env, "SITE_LON"@),
        config::fault::<Double>(env, "SITE_ALT_M"@),
        config::url_fault(env),
        config::fault::<u32>(env, "ADSB_RADIUS_NM"@),
        config::fault::<usize>(env, "MAX_BODY_BYTES"@),
        config::fault::<u64>(env, "POLL_MS"@),
        config::fault::<u64>(env, "CYCLE_MS"@),
        config::fault::<u64>(env, "TRACK_TIMEOUT_S"@),
        config::fault::<Double>(env, "HORIZON_S"@),
        config::fault::<Double>(env, "MIN_HORIZ_M"@),
        config::fault::<Double>(env, "MIN_VERT_M"@),
        config::fault::<Double>(env, "PROCESS_NOISE"@),
        config::fault::<Double>(env, "MEAS_VAR"@),
        config::fault::<Double>(env, "GATE_SIGMA"@),
        config::fault::<usize>(env, "DISPLAY_ROWS"@),
    ]
}

/// The fault that is reported is that of the first setting that has one.
pub proof fn law_the_first_fault_is_reported(env: Map<Seq<char>, Seq<char>>, i: int)
    requires
        0 <= i < 16,
        faults(env)[i] is Some,
        forall|j: int| 0 <= j < i ==> (#[trigger] faults(env)[j]) is None,
    ensures
        config::first_fault(env) == faults(env)[i],
{
    let f = faults(env);
    assert(i > 0 ==> f[0] is None);
    assert(i > 1 ==> f[1] is None);
    assert(i > 2 ==> f[2] is None);
    assert(i > 3 ==> f[3] is None);
    assert(i > 4 ==> f[4] is None);
    assert(i > 5 ==> f[5] is None);
    assert(i > 6 ==> f[6] is None);
    assert(i > 7 ==> f[7] is None);
    assert(i > 8 ==> f[8] is None);
    assert(i > 9 ==> f[9] is None);
    assert(i > 10 ==> f[10] is None);
    assert(i > 11 ==> f[11] is None);
    assert(i > 12 ==> f[12] is None);
    assert(i > 13 ==> f[13] is None);
    assert(i > 14 ==> f[14] is None);
}

/// The fault that is reported is one that there is.
pub proof fn law_faults_are_true(env: Map<Seq<char>, Seq<char>>)
    ensures
        match config::first_fault(env) {
            Some(Fault::Missing(key)) => !env.contains_key(key),
            Some(Fault::MissingUrl) => !env.contains_key("ADSB_URL"@),
            Some(Fault::Invalid(key, raw, _)) => env.contains_key(key) && env[key] == raw,
            None => true,
        },
{
}

/// What stands on a line in front of the first equals sign is the key, and what stands behind
/// it the value, both without white space around them; a pair of quotes around the value is
/// no part of it.
pub proof fn law_assignments(line: Seq<char>, n: int)
    requires
        ({
            let s = text::trimmed(line);
            &&& 0 <= n < s.len()
            &&& s[n] == '='
            &&& s[0] != '#'
            &&& forall|i: int| 0 <= i < n ==> #[trigger] s[i] != '='
        }),
    ensures
        ({
            let s = text::trimmed(line);
            let (key, value) = (text::trimmed(s.take(n)), text::trimmed(s.skip(n + 1)));
            &&& config::assignment(line) matches Some(a) && a.0 == key && a.1 == text::stripped(
                text::stripped(value, '"'),
                '\'',
            )
        }),
{
    let s = text::trimmed(line);
    lemma_first_is(s, '=', n);
}

/// Blank lines, remarks and lines without an equals sign assign nothing.
pub proof fn law_no_assignments(line: Seq<char>)
    ensures
        ({
            let s = text::trimmed(line);
            s.len() == 0 || s[0] == '#' || (forall|i: int| 0 <= i < s.len() ==> #[trigger] s[i]
                != '=') ==> config::assignment(line) is None
        }),
{
    let s = text::trimmed(line);
    if forall|i: int| 0 <= i < s.len() ==> #[trigger] s[i] != '=' {
        lemma_first_is(s, '=', s.len() as int);
    }
}

proof fn lemma_first_is(s: Seq<char>, c: char, n: int)
    requires
        0 <= n <= s.len(),
        forall|i: int| 0 <= i < n ==> #[trigger] s[i] != c,
        n < s.len() ==> s[n] == c,
    ensures
        text::first(s, c) == n,
    decreases n,
{
    if n > 0 {
        assert(s[0] != c);
        assert forall|i: int| 0 <= i < n - 1 implies #[trigger] s.skip(1)[i] != c by {
            assert(s[i + 1] != c);
        }
        lemma_first_is(s.skip(1), c, n - 1);
    }
}

/// A line ends where the next begins.
pub proof fn law_lines(a: Seq<char>, b: Seq<char>)
    requires
        forall|i: int| 0 <= i < a.len() ==> #[trigger] a[i] != '\n',
    ensures
        config::lines(a) == seq![a],
        config::lines(a + seq!['\n'] + b) == seq![a] + config::lines(b),
{
    lemma_first_is(a, '\n', a.len() as int);
    let s = a + seq!['\n'] + b;
    assert forall|i: int| 0 <= i < a.len() implies #[trigger] s[i] != '\n' by {
        assert(s[i] == a[i]);
    }
    lemma_first_is(s, '\n', a.len() as int);
    assert(s.take(a.len() as int) =~= a);
    assert(s.skip(a.len() as int + 1) =~= b);
}

/// A line that a text ends with assigns its key, whatever stood before it.
pub proof fn law_the_last_line_assigns(before: Seq<Seq<char>>, line: Seq<char>, other: Seq<char>)
    ensures
        ({
            let (was, is) = (config::assigned(before), config::assigned(before.push(line)));
            match config::assignment(line) {
                Some((key, value)) => {
                    &&& is.contains_key(key) && is[key] == value
                    &&& other != key ==> is.contains_key(other) == was.contains_key(other) && (
                    was.contains_key(other) ==> is[other] == was[other])
                },
                None => is == was,
            }
        }),
{
    assert(before.push(line).drop_last() =~= before);
}

/// Digits write their number, with or without a plus sign; nothing else is a whole number.
pub proof fn law_whole_numbers(s: Seq<char>)
    ensures
        s.len() > 0 && text::all_digits(s) ==> config::whole_number(s) == Some(
            text::digits_value(s),
        ),
        s.len() > 0 && text::all_digits(s) ==> config::whole_number(seq!['+'] + s) == Some(
            text::digits_value(s),
        ),
        config::whole_number(s) is Some ==> s.len() > 0 && (text::all_digits(s) || (s[0] == '+'
            && s.len() > 1 && text::all_digits(s.skip(1)))),
{
    assert((seq!['+'] + s).skip(1) =~= s);
    if s.len() > 0 && text::all_digits(s) {
        assert(text::is_digit(s[0]));
    }
}

/// A number that is written out reads as itself.
pub proof fn law_written_numbers_read_back(n: nat)
    ensures
        config::whole_number(text::decimal(n)) == Some(n),
{
    wording::law_decimal_digits(n);
    assert(text::is_digit(text::decimal(n)[0]));
}

} // verus!
