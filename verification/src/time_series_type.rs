//! The kinds of time series the provider serves, and the address under
//! which each is asked for.

use vstd::prelude::*;
use vstd::string::StringExecFns;

verus! {

/// The bar width of an intraday series.
#[derive(Debug, Clone, Copy, PartialEq, Eq, Structural)]
pub enum Interval {
    _1MIN,
    _5MIN,
    _15MIN,
    _30MIN,
    _60MIN,
}

/// The bar width under the name that requests for intraday series know it
/// by.
pub type IntradayInterval = Interval;

/// The kind of a time series.
#[derive(Debug, Clone, Copy, PartialEq, Eq, Structural)]
pub enum TimeSeriesType {
    Intraday(Interval),
    Daily,
    DailyAdjusted,
    Weekly,
    WeeklyAdjusted,
    Monthly,
    MonthlyAdjusted,
}

impl Interval {
    /// The provider's name for the interval.
    pub open spec fn canonical(&self) -> Seq<char> {
        match self {
            Interval::_1MIN => "1min"@,
            Interval::_5MIN => "5min"@,
            Interval::_15MIN => "15min"@,
            Interval::_30MIN => "30min"@,
            Interval::_60MIN => "60min"@,
        }
    }

    /// The provider's name for the interval.
    pub fn to_string(&self) -> (name: String)
        ensures
            name@ == self.canonical(),
    {
        match self {
            Interval::_1MIN => String::from_str("1min"),
            Interval::_5MIN => String::from_str("5min"),
            Interval::_15MIN => String::from_str("15min"),
            Interval::_30MIN => String::from_str("30min"),
            Interval::_60MIN => String::from_str("60min"),
        }
    }
}

impl TimeSeriesType {
    /// The provider's name for the kind, as it follows `TIME_SERIES_` in a
    /// request. Every intraday kind has the same name, whatever its interval.
    pub open spec fn canonical(&self) -> Seq<char> {
        match self {
            TimeSeriesType::Intraday(_) => "INTRADAY"@,
            TimeSeriesType::Daily => "DAILY"@,
            TimeSeriesType::DailyAdjusted => "DAILY_ADJUSTED"@,
            TimeSeriesType::Weekly => "WEEKLY"@,
            TimeSeriesType::WeeklyAdjusted => "WEEKLY_ADJUSTED"@,
            TimeSeriesType::Monthly => "MONTHLY"@,
            TimeSeriesType::MonthlyAdjusted => "MONTHLY_ADJUSTED"@,
        }
    }

    /// The provider's name for the kind.
    pub fn to_string(&self) -> (name: String)
        ensures
            name@ == self.canonical(),
    {
        match self {
            TimeSeriesType::Intraday(_) => String::from_str("INTRADAY"),
            TimeSeriesType::Daily => String::from_str("DAILY"),
            TimeSeriesType::DailyAdjusted => String::from_str("DAILY_ADJUSTED"),
            TimeSeriesType::Weekly => String::from_str("WEEKLY"),
            TimeSeriesType::WeeklyAdjusted => String::from_str("WEEKLY_ADJUSTED"),
            TimeSeriesType::Monthly => String::from_str("MONTHLY"),
            TimeSeriesType::MonthlyAdjusted => String::from_str("MONTHLY_ADJUSTED"),
        }
    }

    /// What an intraday request carries behind the key: the interval. Other
    /// kinds carry nothing there.
    pub open spec fn interval_suffix(&self) -> Seq<char> {
        match self {
            TimeSeriesType::Intraday(interval) => "&interval="@ + interval.canonical(),
            _ => Seq::<char>::empty(),
        }
    }

    /// The address of a request for the series of `symbol`.
    pub open spec fn spec_url(&self, base_url: Seq<char>, symbol: Seq<char>, api_key: Seq<char>) -> Seq<
        char,
    > {
        base_url + "?function=TIME_SERIES_"@ + self.canonical() + "&symbol="@ + symbol
            + "&apikey="@ + api_key + self.interval_suffix()
    }

    /// The address of a request for the series of `symbol`. The three texts
    /// are taken as they are; nothing in them is escaped.
    pub fn url(&self, base_url: &str, symbol: &str, api_key: &str) -> (url: String)
        ensures
            url@ == self.spec_url(base_url@, symbol@, api_key@),
    {
        let mut url = String::from_str(base_url);
        url.append("?function=TIME_SERIES_");
        let kind = self.to_string();
        url.append(kind.as_str());
        url.append("&symbol=");
        url.append(symbol);
        url.append("&apikey=");
        url.append(api_key);
        match self {
            TimeSeriesType::Intraday(interval) => {
                url.append("&interval=");
                let width = interval.to_string();
                url.append(width.as_str());
                assert(url@ == self.spec_url(base_url@, symbol@, api_key@));
            },
            _ => {
                assert(url@ == self.spec_url(base_url@, symbol@, api_key@));
            },
        }
        url
    }
}

} // verus!
