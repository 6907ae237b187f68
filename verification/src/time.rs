//! Timestamp-based suffix scheme: the rotated file is named after the time
//! of rotation, with a disambiguating counter when two rotations land on the
//! same formatted tick, and retention either by file count or by age.

use crate::strings::{
    dec_digits_of, dec_digits_part, dec_val, lemma_dec_roundtrip, parse_usize, parses_as_usize,
    str_eq_exec, str_lt, str_lt_exec, lemma_str_lt_order, usize_to_string,
};
use crate::suffix::{opt_deref, Representation, SuffixScheme};
use crate::SuffixError;
use core::fmt::Write;
use vstd::prelude::*;
use vstd::string::*;

verus! {

/// Which instant is formatted into the timestamp suffix.
#[derive(Clone, Copy, Debug, PartialEq, Eq, Structural)]
pub enum DateFrom {
    /// Date yesterday, to represent the timestamps within the log file.
    DateYesterday,
    /// Date from an hour ago, useful when rotating hourly.
    DateHourAgo,
    /// Date from now.
    Now,
}

/// How far back of "now" the formatted instant lies, in seconds.
pub open spec fn date_from_seconds(d: DateFrom) -> u64 {
    match d {
        DateFrom::DateYesterday => 86400,
        DateFrom::DateHourAgo => 3600,
        DateFrom::Now => 0,
    }
}

fn date_from_seconds_exec(d: &DateFrom) -> (r: u64)
    ensures
        r == date_from_seconds(*d),
{
    match d {
        DateFrom::DateYesterday => 86400,
        DateFrom::DateHourAgo => 3600,
        DateFrom::Now => 0,
    }
}

/// When rotated files should be deleted, for [`AppendTimestamp`].
#[derive(Clone, Copy, Debug)]
pub enum FileLimit {
    /// Delete the oldest files if the number of rotated files is too high.
    MaxFiles(usize),
    /// Delete files older than this age, in seconds; the age of a file is
    /// determined by its timestamp suffix.
    Age(u64),
    /// Never delete files.
    Unlimited,
}

/// Structured representation of the suffixes of [`AppendTimestamp`].
#[derive(Debug, Clone)]
pub struct TimestampSuffix {
    /// The timestamp, as formatted at rotation time.
    pub timestamp: String,
    /// Optional counter, present when two rotations landed on the same
    /// formatted timestamp.
    pub number: Option<usize>,
}

/// The rendered form: `{timestamp}` or `{timestamp}.{number}`.
pub open spec fn ts_display(v: TimestampSuffix) -> Seq<char> {
    match v.number {
        Option::Some(n) => v.timestamp@ + seq!['.'] + dec_digits_of(n as nat),
        Option::None => v.timestamp@,
    }
}

/// Order on the optional collision counter: none sorts as older than any
/// counter, a larger counter as more recent.
pub open spec fn opt_num_lt(a: Option<usize>, b: Option<usize>) -> bool {
    match b {
        Option::Some(bv) => match a {
            Option::Some(av) => av < bv,
            Option::None => true,
        },
        Option::None => false,
    }
}

fn opt_num_lt_exec(a: &Option<usize>, b: &Option<usize>) -> (r: bool)
    ensures
        r == opt_num_lt(*a, *b),
{
    match b {
        Option::Some(bv) => match a {
            Option::Some(av) => *av < *bv,
            Option::None => true,
        },
        Option::None => false,
    }
}

impl Representation for TimestampSuffix {
    /// Most recent first: a bigger timestamp string sorts as smaller; on a
    /// tie, a bigger counter sorts as smaller, and no counter as oldest.
    open spec fn lt(self, other: TimestampSuffix) -> bool {
        str_lt(other.timestamp@, self.timestamp@) || (other.timestamp@ == self.timestamp@
            && opt_num_lt(other.number, self.number))
    }

    open spec fn eqv(self, other: TimestampSuffix) -> bool {
        self.timestamp@ == other.timestamp@ && self.number == other.number
    }

    open spec fn display_spec(self) -> Seq<char> {
        ts_display(self)
    }

    proof fn lt_laws(a: TimestampSuffix, b: TimestampSuffix, c: TimestampSuffix) {
        lemma_str_lt_order(a.timestamp@, b.timestamp@, c.timestamp@);
        lemma_str_lt_order(b.timestamp@, c.timestamp@, a.timestamp@);
        lemma_str_lt_order(c.timestamp@, a.timestamp@, b.timestamp@);
        lemma_str_lt_order(b.timestamp@, a.timestamp@, c.timestamp@);
        lemma_str_lt_order(a.timestamp@, c.timestamp@, b.timestamp@);
        lemma_str_lt_order(c.timestamp@, b.timestamp@, a.timestamp@);
    }

    fn lt_exec(&self, other: &TimestampSuffix) -> (r: bool) {
        if str_lt_exec(other.timestamp.as_str(), self.timestamp.as_str()) {
            true
        } else if str_eq_exec(other.timestamp.as_str(), self.timestamp.as_str()) {
            opt_num_lt_exec(&other.number, &self.number)
        } else {
            false
        }
    }

    fn eqv_exec(&self, other: &TimestampSuffix) -> (r: bool) {
        if !str_eq_exec(self.timestamp.as_str(), other.timestamp.as_str()) {
            return false;
        }
        match (&self.number, &other.number) {
            (Option::Some(a), Option::Some(b)) => *a == *b,
            (Option::None, Option::None) => true,
            _ => false,
        }
    }

    fn to_display(&self) -> (r: String) {
        match &self.number {
            Option::Some(n) => {
                let mut s = self.timestamp.clone();
                s.append(".");
                let d = usize_to_string(*n);
                s.append(d.as_str());
                proof {
                    reveal_strlit(".");
                    assert("."@ =~= seq!['.']);
                }
                s
            },
            Option::None => self.timestamp.clone(),
        }
    }
}

impl PartialEq for TimestampSuffix {
    fn eq(&self, other: &TimestampSuffix) -> (r: bool) {
        self.eqv_exec(other)
    }
}

impl vstd::std_specs::cmp::PartialEqSpecImpl for TimestampSuffix {
    open spec fn obeys_eq_spec() -> bool {
        true
    }

    open spec fn eq_spec(&self, other: &TimestampSuffix) -> bool {
        (*self).eqv(*other)
    }
}

impl PartialOrd for TimestampSuffix {
    fn partial_cmp(&self, other: &TimestampSuffix) -> (r: Option<core::cmp::Ordering>) {
        if self.lt_exec(other) {
            Option::Some(core::cmp::Ordering::Less)
        } else if other.lt_exec(self) {
            Option::Some(core::cmp::Ordering::Greater)
        } else {
            Option::Some(core::cmp::Ordering::Equal)
        }
    }
}

impl vstd::std_specs::cmp::PartialOrdSpecImpl for TimestampSuffix {
    open spec fn obeys_partial_cmp_spec() -> bool {
        true
    }

    open spec fn partial_cmp_spec(&self, other: &TimestampSuffix) -> Option<core::cmp::Ordering> {
        if (*self).lt(*other) {
            Option::Some(core::cmp::Ordering::Less)
        } else if (*other).lt(*self) {
            Option::Some(core::cmp::Ordering::Greater)
        } else {
            Option::Some(core::cmp::Ordering::Equal)
        }
    }
}

/// Whether `s` matches the strftime format `fmt`, fully or with only
/// trailing fields missing; a function of `s` and `fmt` alone.
pub uninterp spec fn strftime_matches(s: Seq<char>, fmt: Seq<char>) -> bool;

/// Relies on chrono's `NaiveDateTime::parse_from_str`: it deterministically
/// accepts `s` under `fmt` either completely or with the distinguished
/// "not enough fields" outcome, both of which this scheme treats as a match.
#[verifier::external_body]
fn strftime_accepts(s: &str, fmt: &str) -> (r: bool)
    ensures
        r == strftime_matches(s@, fmt@),
{
    match chrono::NaiveDateTime::parse_from_str(s, fmt) {
        Ok(_) => true,
        Err(e) => e.kind() == chrono::format::ParseErrorKind::NotEnough,
    }
}

/// Relies on chrono's `Local::now`, `TimeDelta::try_seconds`,
/// `NaiveDateTime::checked_sub_signed` and strftime formatting: format the
/// local time of `seconds_back` seconds ago; `None` if the format string is
/// invalid or the instant is out of range. The result depends on the clock,
/// so nothing more is promised of it.
#[verifier::external_body]
fn format_local_time_back(fmt: &str, seconds_back: u64) -> (r: Option<String>) {
    let secs = i64::try_from(seconds_back).ok()?;
    let delta = chrono::TimeDelta::try_seconds(secs)?;
    let t = chrono::Local::now().naive_local().checked_sub_signed(delta)?;
    let mut out = String::new();
    match write!(out, "{}", t.format(fmt)) {
        Ok(()) => Some(out),
        Err(_) => None,
    }
}

/// Append the current timestamp as suffix when rotating files.
/// If the timestamp already exists, an additional number is appended.
///
/// Current limitations:
///  - Neither `format` nor the base filename can include the character `"."`.
///  - The `format` should ensure that the lexical and chronological
///    orderings are the same.
pub struct AppendTimestamp {
    /// The strftime format of the timestamp suffix.
    pub format: &'static str,
    /// The file limit: when to delete an old file, by age (given by the
    /// suffix) or by number of files.
    pub file_limit: FileLimit,
    /// Which instant the timestamp is taken from.
    pub date_from: DateFrom,
}

impl AppendTimestamp {
    /// With format `"%Y%m%dT%H%M%S"`, measured from now.
    pub fn default(file_limit: FileLimit) -> (r: AppendTimestamp)
        ensures
            r.format@ == "%Y%m%dT%H%M%S"@,
            r.file_limit == file_limit,
            r.date_from == DateFrom::Now,
    {
        AppendTimestamp { format: "%Y%m%dT%H%M%S", file_limit, date_from: DateFrom::Now }
    }

    /// Create a new timestamp suffix scheme with the given format,
    /// retention policy and instant policy.
    pub fn with_format(format: &'static str, file_limit: FileLimit, date_from: DateFrom) -> (r:
        AppendTimestamp)
        ensures
            r.format@ == format@,
            r.file_limit == file_limit,
            r.date_from == date_from,
    {
        AppendTimestamp { format, file_limit, date_from }
    }
}

/// Index of the first `.` in `s`, or `s.len()` if there is none.
pub open spec fn first_dot(s: Seq<char>) -> int
    decreases s.len(),
{
    if s.len() == 0 {
        0
    } else if s[0] == '.' {
        0
    } else {
        1 + first_dot(s.drop_first())
    }
}

pub proof fn lemma_first_dot(s: Seq<char>)
    ensures
        0 <= first_dot(s) <= s.len(),
        forall|j: int| 0 <= j < first_dot(s) ==> s[j] != '.',
        first_dot(s) < s.len() ==> s[first_dot(s)] == '.',
    decreases s.len(),
{
    if s.len() > 0 && s[0] != '.' {
        lemma_first_dot(s.drop_first());
        assert(forall|j: int| 1 <= j < first_dot(s) ==> s[j] == s.drop_first()[j - 1]);
    }
}

/// If the first `d` characters are not dots, and position `d` is a dot or
/// the end, then `d` is the first dot.
pub proof fn lemma_first_dot_at(s: Seq<char>, d: int)
    requires
        0 <= d <= s.len(),
        forall|j: int| 0 <= j < d ==> s[j] != '.',
        d < s.len() ==> s[d] == '.',
    ensures
        first_dot(s) == d,
    decreases d,
{
    if d == 0 {
        if s.len() > 0 && s[0] != '.' {
            lemma_first_dot(s.drop_first());
        }
    } else {
        assert(s[0] != '.');
        lemma_first_dot_at(s.drop_first(), d - 1);
    }
}

/// The timestamp part of a suffix string: everything before the first dot.
pub open spec fn ts_text(s: Seq<char>) -> Seq<char> {
    if first_dot(s) == s.len() {
        s
    } else {
        s.take(first_dot(s))
    }
}

/// The counter part of a suffix string, as a mathematical value.
pub open spec fn num_val(s: Seq<char>) -> Option<int> {
    if first_dot(s) == s.len() {
        Option::None
    } else {
        Option::Some(dec_val(dec_digits_part(s.skip(first_dot(s) + 1))) as int)
    }
}

/// An optional machine counter as a mathematical value.
pub open spec fn opt_as_int(o: Option<usize>) -> Option<int> {
    match o {
        Option::Some(n) => Option::Some(n as int),
        Option::None => Option::None,
    }
}

/// The collision counter assigned when the live file is rotated while the
/// freshly formatted timestamp is `timestamp`: one more than the most
/// recent suffix's counter if that suffix has the same timestamp string,
/// none otherwise.
pub open spec fn rotation_number(timestamp: Seq<char>, newest: Option<TimestampSuffix>) -> Option<
    int,
> {
    if newest matches Option::Some(t) && t.timestamp@ == timestamp {
        match (newest -> 0).number {
            Option::Some(k) => Option::Some(k + 1),
            Option::None => Option::Some(1),
        }
    } else {
        Option::None
    }
}

/// What [`rotation_suffix`] asks of its caller: the collision counter must
/// not overflow.
pub open spec fn rotation_counter_fits(newest: Option<TimestampSuffix>) -> bool {
    newest matches Option::Some(t) ==> (t.number matches Option::Some(k) ==> k < usize::MAX)
}

/// Build the suffix for a rotation of the live file, given the freshly
/// formatted timestamp and the most recent existing suffix.
pub fn rotation_suffix(timestamp: String, newest: Option<&TimestampSuffix>) -> (r: TimestampSuffix)
    requires
        rotation_counter_fits(opt_deref(newest)),
    ensures
        r.timestamp@ == timestamp@,
        opt_as_int(r.number) == rotation_number(timestamp@, opt_deref(newest)),
{
    let number: Option<usize> = match newest {
        Option::Some(t) => {
            if str_eq_exec(t.timestamp.as_str(), timestamp.as_str()) {
                match &t.number {
                    Option::Some(k) => Option::Some(*k + 1),
                    Option::None => Option::Some(1),
                }
            } else {
                Option::None
            }
        },
        Option::None => Option::None,
    };
    TimestampSuffix { timestamp, number }
}

impl SuffixScheme for AppendTimestamp {
    type Repr = TimestampSuffix;

    open spec fn parses(self, s: Seq<char>) -> bool {
        if first_dot(s) == s.len() {
            strftime_matches(s, self.format@)
        } else {
            parses_as_usize(s.skip(first_dot(s) + 1)) && strftime_matches(ts_text(s), self.format@)
        }
    }

    open spec fn parse_rel(self, s: Seq<char>, v: TimestampSuffix) -> bool {
        self.parses(s) && v.timestamp@ == ts_text(s) && opt_as_int(v.number) == num_val(s)
    }

    open spec fn rotate_pre(
        self,
        newest: Option<TimestampSuffix>,
        suffix: Option<TimestampSuffix>,
    ) -> bool {
        suffix is None ==> rotation_counter_fits(newest)
    }

    open spec fn rotate_post(
        self,
        newest: Option<TimestampSuffix>,
        suffix: Option<TimestampSuffix>,
        r: Result<TimestampSuffix, SuffixError>,
    ) -> bool {
        &&& suffix is Some ==> r == Result::<TimestampSuffix, SuffixError>::Err(
            SuffixError::AlreadyRotated,
        )
        &&& suffix is None ==> match r {
            Result::Ok(v) => opt_as_int(v.number) == rotation_number(v.timestamp@, newest),
            Result::Err(e) => e == SuffixError::BadFormat,
        }
    }

    open spec fn too_old_post(self, suffix: TimestampSuffix, file_number: nat, r: bool) -> bool {
        match self.file_limit {
            FileLimit::MaxFiles(max) => r == (file_number >= max),
            FileLimit::Age(_) => true,
            FileLimit::Unlimited => r == false,
        }
    }

    proof fn parse_rel_props(self, s: Seq<char>, v: TimestampSuffix, w: TimestampSuffix) {
    }

    /// Only the live file may be rotated under this scheme: displacing an
    /// already-rotated timestamp file is a scheme invariant violation and is
    /// reported as an error.
    fn rotate_file(
        &mut self,
        basepath: &str,
        newest_suffix: Option<&TimestampSuffix>,
        suffix: &Option<TimestampSuffix>,
    ) -> (r: Result<TimestampSuffix, SuffixError>) {
        match suffix {
            Option::Some(_) => Result::Err(SuffixError::AlreadyRotated),
            Option::None => {
                let secs = date_from_seconds_exec(&self.date_from);
                match format_local_time_back(self.format, secs) {
                    Option::Some(ts) => Result::Ok(rotation_suffix(ts, newest_suffix)),
                    Option::None => Result::Err(SuffixError::BadFormat),
                }
            },
        }
    }

    fn parse(&self, suffix: &str) -> (r: Option<TimestampSuffix>) {
        let n = suffix.unicode_len();
        let mut d: usize = 0;
        while d < n && suffix.get_char(d) != '.'
            invariant
                0 <= d <= n,
                n == suffix@.len(),
                forall|j: int| 0 <= j < d ==> suffix@[j] != '.',
            decreases n - d,
        {
            d = d + 1;
        }
        proof {
            lemma_first_dot_at(suffix@, d as int);
        }
        if d == n {
            if strftime_accepts(suffix, self.format) {
                Option::Some(
                    TimestampSuffix { timestamp: String::from_str(suffix), number: Option::None },
                )
            } else {
                Option::None
            }
        } else {
            let num_str = suffix.substring_char(d + 1, n);
            proof {
                assert(num_str@ =~= suffix@.skip(d + 1));
            }
            match parse_usize(num_str) {
                Option::Some(k) => {
                    let ts_str = suffix.substring_char(0, d);
                    proof {
                        assert(ts_str@ =~= suffix@.take(d as int));
                    }
                    if strftime_accepts(ts_str, self.format) {
                        Option::Some(
                            TimestampSuffix {
                                timestamp: String::from_str(ts_str),
                                number: Option::Some(k),
                            },
                        )
                    } else {
                        Option::None
                    }
                },
                Option::None => Option::None,
            }
        }
    }

    /// Under a file-count limit, only the recency rank decides; under an
    /// age limit, the suffix's timestamp string is compared to the formatted
    /// cutoff; an unparsable format keeps the file.
    fn too_old(&self, suffix: &TimestampSuffix, file_number: usize) -> (r: bool) {
        match &self.file_limit {
            FileLimit::MaxFiles(max) => file_number >= *max,
            FileLimit::Age(age_secs) => {
                match format_local_time_back(self.format, *age_secs) {
                    Option::Some(cutoff) => too_old_with_cutoff(suffix, cutoff.as_str()),
                    Option::None => false,
                }
            },
            FileLimit::Unlimited => false,
        }
    }
}

/// Whether a suffix is older than the formatted cutoff instant: its
/// timestamp string sorts strictly before the cutoff string. This relies on
/// the configured format making lexical and chronological order agree.
pub fn too_old_with_cutoff(suffix: &TimestampSuffix, cutoff: &str) -> (r: bool)
    ensures
        r == str_lt(suffix.timestamp@, cutoff@),
{
    str_lt_exec(suffix.timestamp.as_str(), cutoff)
}

/// A timestamp suffix rendered and parsed back denotes the same suffix: if
/// the timestamp carries no dot and the scheme's format accepts it, the
/// round trip through the string form is lossless.
pub proof fn lemma_timestamp_suffix_roundtrip(scheme: AppendTimestamp, v: TimestampSuffix)
    requires
        forall|j: int| 0 <= j < v.timestamp@.len() ==> v.timestamp@[j] != '.',
    ensures
        strftime_matches(v.timestamp@, scheme.format@) ==> scheme.parses(ts_display(v)),
        strftime_matches(v.timestamp@, scheme.format@) ==> forall|w: TimestampSuffix|
            scheme.parse_rel(ts_display(v), w) ==> w.timestamp@ == v.timestamp@ && w.number
                == v.number,
{
    let s = ts_display(v);
    match v.number {
        Option::None => {
            lemma_first_dot_at(s, s.len() as int);
            assert(ts_text(s) == v.timestamp@);
        },
        Option::Some(n) => {
            lemma_dec_roundtrip(n as nat);
            let ts = v.timestamp@;
            let digits = dec_digits_of(n as nat);
            assert(s[ts.len() as int] == '.');
            assert(forall|j: int| 0 <= j < ts.len() ==> s[j] == ts[j]);
            lemma_first_dot_at(s, ts.len() as int);
            assert(ts_text(s) =~= ts);
            assert(s.skip(first_dot(s) + 1) =~= digits);
            assert(num_val(s) == Option::Some(n as int));
            assert forall|w: TimestampSuffix| scheme.parse_rel(s, w) implies w.timestamp@
                == v.timestamp@ && w.number == v.number by {
                if w.number is None {
                    assert(opt_as_int(w.number) is None);
                }
            }
        },
    }
}

/// Of two timestamp suffixes produced at different instants under a format
/// that keeps lexical and chronological order aligned, the later one (the
/// bigger timestamp string) sorts first, i.e. as more recent.
pub proof fn lemma_newer_timestamp_sorts_first(a: TimestampSuffix, b: TimestampSuffix)
    requires
        str_lt(a.timestamp@, b.timestamp@),
    ensures
        b.lt(a),
{
}

/// Of two suffixes with the same timestamp, the one produced by the later
/// rotation — the one with the bigger collision counter, where no counter
/// counts as earliest — sorts first, i.e. as more recent.
pub proof fn lemma_later_collision_sorts_first(a: TimestampSuffix, b: TimestampSuffix)
    requires
        a.timestamp@ == b.timestamp@,
        opt_num_lt(a.number, b.number),
    ensures
        b.lt(a),
{
}

/// Rotations within the same formatted tick: the first rotation carries no
/// counter, a rotation on top of an uncounted suffix with the same
/// timestamp gets counter 1, and each further cascaded rotation increments
/// the counter; a different timestamp resets the counter to none.
pub proof fn lemma_same_tick_collision(t: Seq<char>, newest: TimestampSuffix)
    ensures
        rotation_number(t, Option::None) == Option::<int>::None,
        newest.timestamp@ == t && newest.number is None ==> rotation_number(
            t,
            Option::Some(newest),
        ) == Option::Some(1int),
        newest.timestamp@ == t ==> (newest.number matches Option::Some(k) ==> rotation_number(
            t,
            Option::Some(newest),
        ) == Option::Some(k + 1int)),
        newest.timestamp@ != t ==> rotation_number(t, Option::Some(newest)) == Option::<int>::None,
{
}

} // verus!
