use vstd::prelude::*;
use crate::ocel::Ocel;

verus! {

/// Integer division rounded toward zero, as Rust's `/` on integers does.
pub open spec fn trunc_div(a: int, b: int) -> int {
    if a >= 0 {
        if b > 0 {
            a / b
        } else {
            -(a / (-b))
        }
    } else {
        if b > 0 {
            -((-a) / b)
        } else {
            (-a) / (-b)
        }
    }
}

/// The bin of each point: its distance from the first point, divided by `timediff`.
pub open spec fn bins_of(series: Seq<i64>, timediff: i64) -> Seq<i64> {
    Seq::new(series.len(), |i: int| trunc_div(series[i] - series[0], timediff as int) as i64)
}

/// The distance of every point from the first one is an `i64`, and dividing it
/// by `timediff` does not overflow (which only `i64::MIN / -1` does).
pub open spec fn bins_fit(series: Seq<i64>, timediff: i64) -> bool {
    forall|i: int|
        0 <= i < series.len() ==> i64::MIN <= #[trigger] (series[i] - series[0]) <= i64::MAX && !(
        series[i] - series[0] == i64::MIN && timediff == -1)
}

/// `a / b` on `i64`, rounded toward zero.
fn div_toward_zero(a: i64, b: i64) -> (q: i64)
    requires
        b != 0,
        !(a == i64::MIN && b == -1),
    ensures
        q as int == trunc_div(a as int, b as int),
{
    let wide_a: i128 = a as i128;
    let wide_b: i128 = b as i128;
    let n: i128 = if wide_a >= 0 {
        wide_a
    } else {
        0 - wide_a
    };
    let d: i128 = if wide_b > 0 {
        wide_b
    } else {
        0 - wide_b
    };
    let m: i128 = n / d;
    assert(0 <= m <= n) by (nonlinear_arith)
        requires
            m == n / d,
            n >= 0,
            d > 0,
    ;
    assert(d >= 2 ==> m <= n / 2) by (nonlinear_arith)
        requires
            m == n / d,
            n >= 0,
            d > 0,
    {
        if d >= 2 {
            assert(m * d <= n);
            assert(m * 2 <= m * d);
        }
    }
    if (a >= 0) == (b > 0) {
        assert(m <= i64::MAX) by {
            if a < 0 {
                assert(b < 0);
                if d == 1 {
                    assert(b == -1);
                    assert(a > i64::MIN);
                }
            }
        }
        m as i64
    } else {
        (0 - m) as i64
    }
}

/// How many times the value changes in the first `i + 1` elements of `s`.
pub open spec fn changes_upto(s: Seq<i64>, i: int) -> int
    decreases i,
{
    if i <= 0 {
        0
    } else {
        changes_upto(s, i - 1) + if s[i] != s[i - 1] {
            1int
        } else {
            0int
        }
    }
}

proof fn lemma_changes_bounded(s: Seq<i64>, i: int)
    requires
        0 <= i,
    ensures
        0 <= changes_upto(s, i) <= i,
    decreases i,
{
    if i > 0 {
        lemma_changes_bounded(s, i - 1);
    }
}

/// The bins of a series of points in milliseconds: each point's distance from
/// the first point, divided by `timediff` and rounded toward zero.
pub fn time_bins(series: Vec<i64>, timediff: i64) -> (r: Vec<i64>)
    requires
        series.len() > 0,
        timediff != 0,
        bins_fit(series@, timediff),
    ensures
        r@ == bins_of(series@, timediff),
{
    let first_time: i64 = series[0];
    let mut r: Vec<i64> = Vec::new();
    let mut i: usize = 0;
    while i < series.len()
        invariant
            i <= series.len(),
            series.len() > 0,
            first_time == series@[0],
            timediff != 0,
            bins_fit(series@, timediff),
            r.len() == i,
            forall|j: int| 0 <= j < i ==> #[trigger] r@[j] == bins_of(series@, timediff)[j],
        decreases series.len() - i,
    {
        let millis = series[i];
        assert(i64::MIN <= series@[i as int] - series@[0] <= i64::MAX);
        let diff: i64 = millis - first_time;
        let q: i64 = div_toward_zero(diff, timediff);
        r.push(q);
        i = i + 1;
    }
    assert(r@ =~= bins_of(series@, timediff));
    r
}

/// Renumbers bins so that consecutive distinct bins get consecutive numbers:
/// element `i` becomes the number of changes of value up to `i`.
pub fn remove_bin_gaps(bin_list: Vec<i64>) -> (r: Vec<i64>)
    requires
        bin_list.len() > 0,
        bin_list.len() <= i64::MAX,
    ensures
        r.len() == bin_list.len(),
        forall|i: int| 0 <= i < r.len() ==> #[trigger] r@[i] == changes_upto(bin_list@, i),
{
    let mut curr_num: i64 = 0;
    let mut prev_bin: i64 = bin_list[0];
    let mut r: Vec<i64> = Vec::new();
    let mut i: usize = 0;
    while i < bin_list.len()
        invariant
            0 < bin_list.len() <= i64::MAX,
            i <= bin_list.len(),
            r.len() == i,
            i == 0 ==> curr_num == 0 && prev_bin == bin_list@[0],
            i > 0 ==> curr_num == changes_upto(bin_list@, i - 1) && prev_bin == bin_list@[i - 1],
            forall|j: int| 0 <= j < i ==> #[trigger] r@[j] == changes_upto(bin_list@, j),
        decreases bin_list.len() - i,
    {
        let bin_id = bin_list[i];
        proof {
            if i > 0 {
                lemma_changes_bounded(bin_list@, i - 1);
            }
        }
        if bin_id != prev_bin {
            curr_num = curr_num + 1;
        }
        prev_bin = bin_id;
        r.push(curr_num);
        i = i + 1;
    }
    r
}

/// The timestamps of the events of `log`, in the order of their ids.
pub fn event_timestamps(log: &Ocel) -> (r: Vec<i64>)
    ensures
        r.len() == log.events.len(),
        forall|i: int| 0 <= i < r.len() ==> #[trigger] r@[i] == log.events@[i].timestamp,
{
    let mut r: Vec<i64> = Vec::new();
    let mut i: usize = 0;
    while i < log.events.len()
        invariant
            i <= log.events.len(),
            r.len() == i,
            forall|j: int| 0 <= j < i ==> #[trigger] r@[j] == log.events@[j].timestamp,
        decreases log.events.len() - i,
    {
        r.push(log.events[i].timestamp);
        i = i + 1;
    }
    r
}

/// The timestamps of the events of `log`, as a sequence.
pub open spec fn stamps(log: &Ocel) -> Seq<i64> {
    Seq::new(log.events.len() as nat, |i: int| log.events@[i].timestamp)
}

/// The bin width that splits the span of the log into as many bins as it has events.
pub open spec fn auto_width(log: &Ocel) -> int {
    trunc_div(stamps(log).last() - stamps(log)[0], log.events.len() as int)
}

/// Bins the events of `log` with a width of its span divided by its number of events.
pub fn auto_timediff_binning(log: &Ocel) -> (r: Vec<i64>)
    requires
        log.events.len() > 0,
        log.events.len() <= i64::MAX,
        i64::MIN <= stamps(log).last() - stamps(log)[0] <= i64::MAX,
        auto_width(log) != 0,
        bins_fit(stamps(log), auto_width(log) as i64),
    ensures
        r@ == bins_of(stamps(log), auto_width(log) as i64),
{
    let bin_series = event_timestamps(log);
    assert(bin_series@ =~= stamps(log));
    let n = bin_series.len();
    let span: i64 = bin_series[n - 1] - bin_series[0];
    let time_width: i64 = div_toward_zero(span, n as i64);
    time_bins(bin_series, time_width)
}

/// Bins the events of `log` with the width `timediff`.
pub fn manual_timediff_binning(log: &Ocel, timediff: i64) -> (r: Vec<i64>)
    requires
        log.events.len() > 0,
        timediff != 0,
        bins_fit(stamps(log), timediff),
    ensures
        r@ == bins_of(stamps(log), timediff),
{
    let bin_series = event_timestamps(log);
    assert(bin_series@ =~= stamps(log));
    time_bins(bin_series, timediff)
}

/// How the events of a log are put into time bins.
pub enum BinMethod {
    EqualTime,
    EqualTimeDiff,
}

impl BinMethod {
    /// Bins the events of `log`: into as many bins of equal width as it has
    /// events, or by the width `timediff`, or into no bins when that width is missing.
    pub fn execute(&self, log: &Ocel, timediff: Option<i64>) -> (r: Vec<i64>)
        requires
            log.events.len() > 0,
            log.events.len() <= i64::MAX,
            *self is EqualTime ==> i64::MIN <= stamps(log).last() - stamps(log)[0] <= i64::MAX
                && auto_width(log) != 0 && bins_fit(stamps(log), auto_width(log) as i64),
            *self is EqualTimeDiff && timediff is Some ==> timediff->Some_0 != 0 && bins_fit(
                stamps(log),
                timediff->Some_0,
            ),
        ensures
            *self is EqualTime ==> r@ == bins_of(stamps(log), auto_width(log) as i64),
            *self is EqualTimeDiff && timediff is Some ==> r@ == bins_of(stamps(log), timediff->Some_0),
            *self is EqualTimeDiff && timediff is None ==> r.len() == 0,
    {
        match self {
            BinMethod::EqualTime => auto_timediff_binning(log),
            BinMethod::EqualTimeDiff => {
                match timediff {
                    Some(td) => manual_timediff_binning(log, td),
                    None => Vec::new(),
                }
            },
        }
    }
}

/// The kinds of time series over binned events.
pub enum TimeSeries {
    ActivityCount,
    ObjectCount,
    UniqueObjectCount,
    ObjectAttributeOperator,
    EventAttributeOperator,
}

} // verus!
