//! Historical time series of price bars, decoded from the JSON documents in
//! which the provider serves them.

use crate::ascending::{ascending, lemma_rank_by_keys, lemma_rank_parts, lower_bound, rank};
use crate::decimal::{parse_unsigned, parse_unsigned_digits, unsigned_of_digits, unsigned_of_text};
use crate::json::{json_of_text, lemma_view_of_parts, members_view, Json, JsonView};
use crate::timestamp::{
    date_of_text, date_time_of_text, lemma_precedes_total, lemma_precedes_transitive, parse_date,
    parse_date_time, Timestamp,
};
use vstd::prelude::*;
use vstd::string::StringExecFns;

verus! {

/// The key of the section that describes the series.
pub const META_DATA: &'static str = "Meta Data";

/// The keys of the parts of the description.
pub const INFORMATION: &'static str = "1. Information";

pub const SYMBOL: &'static str = "2. Symbol";

pub const LAST_REFRESHED: &'static str = "3. Last Refreshed";

pub const INTERVAL: &'static str = "4. Interval";

/// The two keys under which the output size is served: the first where the
/// section has no interval, the second where it has one.
pub const OUTPUT_SIZE_4: &'static str = "4. Output Size";

pub const OUTPUT_SIZE_5: &'static str = "5. Output Size";

/// The two keys under which the time zone is served.
pub const TIME_ZONE_5: &'static str = "5. Time Zone";

pub const TIME_ZONE_6: &'static str = "6. Time Zone";

/// How a missing output size or time zone is named in an error.
pub const OUTPUT_SIZE: &'static str = "Output Size";

pub const TIME_ZONE: &'static str = "Time Zone";

/// The keys of the fields of a bar.
pub const OPEN: &'static str = "1. open";

pub const HIGH: &'static str = "2. high";

pub const LOW: &'static str = "3. low";

pub const CLOSE: &'static str = "4. close";

pub const VOLUME: &'static str = "5. volume";

/// The form of a key that names a day.
pub const DATE_FORMAT: &'static str = "%Y-%m-%d";

/// The form of a key that names a second of a day.
pub const DATE_TIME_FORMAT: &'static str = "%Y-%m-%d %H:%M:%S";

/// What the provider says of a series.
#[derive(Debug, Clone, PartialEq, Eq)]
pub struct MetaData {
    pub information: String,
    pub symbol: String,
    pub last_refreshed: String,
    pub interval: Option<String>,
    pub output_size: String,
    pub time_zone: String,
}

/// What a description holds.
pub struct MetaDataView {
    pub information: Seq<char>,
    pub symbol: Seq<char>,
    pub last_refreshed: Seq<char>,
    pub interval: Option<Seq<char>>,
    pub output_size: Seq<char>,
    pub time_zone: Seq<char>,
}

impl View for MetaData {
    type V = MetaDataView;

    open spec fn view(&self) -> MetaDataView {
        MetaDataView {
            information: self.information@,
            symbol: self.symbol@,
            last_refreshed: self.last_refreshed@,
            interval: match self.interval {
                Some(text) => Some(text@),
                None => None,
            },
            output_size: self.output_size@,
            time_zone: self.time_zone@,
        }
    }
}

/// A price as the provider wrote it: a quoted text, or a JSON number kept
/// as its numeral. Which number either stands for is not decided here.
#[derive(Debug, Clone, PartialEq, Eq)]
pub enum Amount {
    Quoted(String),
    Number(String),
}

/// What an amount holds.
pub enum AmountView {
    Quoted(Seq<char>),
    Number(Seq<char>),
}

impl View for Amount {
    type V = AmountView;

    open spec fn view(&self) -> AmountView {
        match self {
            Amount::Quoted(text) => AmountView::Quoted(text@),
            Amount::Number(numeral) => AmountView::Number(numeral@),
        }
    }
}

/// One bar: the prices at which the period opened and closed, the highest
/// and the lowest price in it, and the volume traded.
#[derive(Debug, Clone, PartialEq, Eq)]
pub struct TimeSeriesEntry {
    pub open: Amount,
    pub high: Amount,
    pub low: Amount,
    pub close: Amount,
    pub volume: u32,
}

/// What a bar holds.
pub struct TimeSeriesEntryView {
    pub open: AmountView,
    pub high: AmountView,
    pub low: AmountView,
    pub close: AmountView,
    pub volume: u32,
}

impl View for TimeSeriesEntry {
    type V = TimeSeriesEntryView;

    open spec fn view(&self) -> TimeSeriesEntryView {
        TimeSeriesEntryView {
            open: self.open@,
            high: self.high@,
            low: self.low@,
            close: self.close@,
            volume: self.volume,
        }
    }
}

/// One of the four prices of a bar.
#[derive(Debug, Clone, Copy, PartialEq, Eq, Structural)]
pub enum Price {
    Open,
    High,
    Low,
    Close,
}

impl TimeSeriesEntryView {
    /// The price of the given kind.
    pub open spec fn price(self, which: Price) -> AmountView {
        match which {
            Price::Open => self.open,
            Price::High => self.high,
            Price::Low => self.low,
            Price::Close => self.close,
        }
    }
}

impl TimeSeriesEntry {
    /// The price of the given kind.
    pub fn price(&self, which: Price) -> (amount: &Amount)
        ensures
            amount@ == self@.price(which),
    {
        match which {
            Price::Open => &self.open,
            Price::High => &self.high,
            Price::Low => &self.low,
            Price::Close => &self.close,
        }
    }
}

/// Why a document was not decoded.
#[derive(Debug, Clone, PartialEq, Eq)]
pub enum TimeSeriesError {
    /// The text is not JSON.
    InvalidJson,
    /// The named part of the description is missing or is no text.
    InvalidField(String),
    /// Beside the description the document holds no section, or more than
    /// one, or one that is no object.
    MissingTimeSeries,
    /// The key of a bar names neither a day nor a second of a day.
    UnparseableTimestamp(String),
    /// The named field of a bar is missing or is no number of its kind.
    InvalidNumber(String),
}

/// What an error holds.
pub enum TimeSeriesErrorView {
    InvalidJson,
    InvalidField(Seq<char>),
    MissingTimeSeries,
    UnparseableTimestamp(Seq<char>),
    InvalidNumber(Seq<char>),
}

impl View for TimeSeriesError {
    type V = TimeSeriesErrorView;

    open spec fn view(&self) -> TimeSeriesErrorView {
        match self {
            TimeSeriesError::InvalidJson => TimeSeriesErrorView::InvalidJson,
            TimeSeriesError::InvalidField(key) => TimeSeriesErrorView::InvalidField(key@),
            TimeSeriesError::MissingTimeSeries => TimeSeriesErrorView::MissingTimeSeries,
            TimeSeriesError::UnparseableTimestamp(key) => TimeSeriesErrorView::UnparseableTimestamp(
                key@,
            ),
            TimeSeriesError::InvalidNumber(field) => TimeSeriesErrorView::InvalidNumber(field@),
        }
    }
}

/// The value of the first member under `key`.
pub open spec fn member(members: Seq<(Seq<char>, JsonView)>, key: Seq<char>) -> Option<JsonView>
    decreases members.len(),
{
    if members.len() == 0 {
        None
    } else if members[0].0 == key {
        Some(members[0].1)
    } else {
        member(members.skip(1), key)
    }
}

/// The text under `key`, where there is one.
pub open spec fn text_at(members: Seq<(Seq<char>, JsonView)>, key: Seq<char>) -> Option<Seq<char>> {
    match member(members, key) {
        Some(JsonView::Text(text)) => Some(text),
        _ => None,
    }
}

/// The text under the first of two keys that holds one.
pub open spec fn text_at_either(
    members: Seq<(Seq<char>, JsonView)>,
    first: Seq<char>,
    second: Seq<char>,
) -> Option<Seq<char>> {
    match text_at(members, first) {
        Some(text) => Some(text),
        None => text_at(members, second),
    }
}

/// The interval of a description: none where the key is absent or holds
/// `null`, the text where it holds one. Anything else under the key is a
/// fault, which the outer `None` stands for.
pub open spec fn interval_at(members: Seq<(Seq<char>, JsonView)>) -> Option<Option<Seq<char>>> {
    match member(members, INTERVAL@) {
        None => Some(None),
        Some(JsonView::Null) => Some(None),
        Some(JsonView::Text(text)) => Some(Some(text)),
        Some(_) => None,
    }
}

/// The description that the members of a `Meta Data` section make up. The
/// parts are looked for in the order of the fields of `MetaData`, and the
/// first that is missing or is no text is named. Output size and time zone
/// are taken under either of their two keys.
pub open spec fn meta_data_of(members: Seq<(Seq<char>, JsonView)>) -> Result<
    MetaDataView,
    TimeSeriesErrorView,
> {
    if text_at(members, INFORMATION@) is None {
        Err(TimeSeriesErrorView::InvalidField(INFORMATION@))
    } else if text_at(members, SYMBOL@) is None {
        Err(TimeSeriesErrorView::InvalidField(SYMBOL@))
    } else if text_at(members, LAST_REFRESHED@) is None {
        Err(TimeSeriesErrorView::InvalidField(LAST_REFRESHED@))
    } else if interval_at(members) is None {
        Err(TimeSeriesErrorView::InvalidField(INTERVAL@))
    } else if text_at_either(members, OUTPUT_SIZE_4@, OUTPUT_SIZE_5@) is None {
        Err(TimeSeriesErrorView::InvalidField(OUTPUT_SIZE@))
    } else if text_at_either(members, TIME_ZONE_5@, TIME_ZONE_6@) is None {
        Err(TimeSeriesErrorView::InvalidField(TIME_ZONE@))
    } else {
        Ok(
            MetaDataView {
                information: text_at(members, INFORMATION@)->Some_0,
                symbol: text_at(members, SYMBOL@)->Some_0,
                last_refreshed: text_at(members, LAST_REFRESHED@)->Some_0,
                interval: interval_at(members)->Some_0,
                output_size: text_at_either(members, OUTPUT_SIZE_4@, OUTPUT_SIZE_5@)->Some_0,
                time_zone: text_at_either(members, TIME_ZONE_5@, TIME_ZONE_6@)->Some_0,
            },
        )
    }
}

/// The first member under `key` is found where no member before it has
/// the key.
pub proof fn lemma_member_found(members: Seq<(Seq<char>, JsonView)>, key: Seq<char>, at: int)
    requires
        0 <= at < members.len(),
        members[at].0 == key,
        forall|i: int| 0 <= i < at ==> (#[trigger] members[i]).0 != key,
    ensures
        member(members, key) == Some(members[at].1),
    decreases at,
{
    if at > 0 {
        let rest = members.skip(1);
        assert(members[0].0 != key);
        assert(rest[at - 1] == members[at]);
        assert forall|i: int| 0 <= i < at - 1 implies (#[trigger] rest[i]).0 != key by {
            assert(rest[i] == members[i + 1]);
        }
        lemma_member_found(rest, key, at - 1);
    }
}

/// Nothing is found under a key that no member has.
pub proof fn lemma_member_absent(members: Seq<(Seq<char>, JsonView)>, key: Seq<char>)
    requires
        forall|i: int| 0 <= i < members.len() ==> (#[trigger] members[i]).0 != key,
    ensures
        member(members, key) is None,
    decreases members.len(),
{
    if members.len() > 0 {
        let rest = members.skip(1);
        assert(members[0].0 != key);
        assert forall|i: int| 0 <= i < rest.len() implies (#[trigger] rest[i]).0 != key by {
            assert(rest[i] == members[i + 1]);
        }
        lemma_member_absent(rest, key);
    }
}

/// Giving one member another key changes nothing under a third key.
pub proof fn lemma_member_rekeyed(
    members: Seq<(Seq<char>, JsonView)>,
    at: int,
    renamed: Seq<char>,
    key: Seq<char>,
)
    requires
        0 <= at < members.len(),
        members[at].0 != key,
        renamed != key,
    ensures
        member(members.update(at, (renamed, members[at].1)), key) == member(members, key),
    decreases members.len(),
{
    let changed = members.update(at, (renamed, members[at].1));
    if at == 0 {
        assert(changed.skip(1) == members.skip(1));
    } else {
        assert(changed[0] == members[0]);
        if members[0].0 != key {
            let rest = members.skip(1);
            assert(rest[at - 1] == members[at]);
            assert(changed.skip(1) == rest.update(at - 1, (renamed, rest[at - 1].1)));
            lemma_member_rekeyed(rest, at - 1, renamed, key);
        }
    }
}

/// The keys of a description differ from one another.
pub proof fn lemma_description_keys_differ()
    ensures
        INFORMATION@.len() == 14 && INFORMATION@[0] == '1',
        SYMBOL@.len() == 9 && SYMBOL@[0] == '2',
        LAST_REFRESHED@.len() == 17 && LAST_REFRESHED@[0] == '3',
        INTERVAL@.len() == 11 && INTERVAL@[0] == '4',
        OUTPUT_SIZE_4@.len() == 14 && OUTPUT_SIZE_4@[0] == '4',
        OUTPUT_SIZE_5@.len() == 14 && OUTPUT_SIZE_5@[0] == '5',
        TIME_ZONE_5@.len() == 12 && TIME_ZONE_5@[0] == '5',
        TIME_ZONE_6@.len() == 12 && TIME_ZONE_6@[0] == '6',
{
    reveal_strlit("1. Information");
    reveal_strlit("2. Symbol");
    reveal_strlit("3. Last Refreshed");
    reveal_strlit("4. Interval");
    reveal_strlit("4. Output Size");
    reveal_strlit("5. Output Size");
    reveal_strlit("5. Time Zone");
    reveal_strlit("6. Time Zone");
}

/// No two members have the same key, as in every object of a document from
/// `Json::parse`.
pub open spec fn keys_distinct(members: Seq<(Seq<char>, JsonView)>) -> bool {
    forall|i: int, j: int|
        0 <= i < j < members.len() ==> (#[trigger] members[i]).0 != (#[trigger] members[j]).0
}

/// The description does not depend on the numbering of the output size: two
/// sections with distinct keys that differ only in that one serves it under
/// `4. Output Size` and the other under `5. Output Size` make up the same
/// description, or are at fault alike.
pub proof fn lemma_output_size_numbering(members: Seq<(Seq<char>, JsonView)>, at: int)
    requires
        0 <= at < members.len(),
        members[at].0 == OUTPUT_SIZE_4@,
        keys_distinct(members),
        keys_distinct(members.update(at, (OUTPUT_SIZE_5@, members[at].1))),
    ensures
        meta_data_of(members.update(at, (OUTPUT_SIZE_5@, members[at].1))) == meta_data_of(members),
{
    let renumbered = members.update(at, (OUTPUT_SIZE_5@, members[at].1));
    lemma_description_keys_differ();
    lemma_member_rekeyed(members, at, OUTPUT_SIZE_5@, INFORMATION@);
    lemma_member_rekeyed(members, at, OUTPUT_SIZE_5@, SYMBOL@);
    lemma_member_rekeyed(members, at, OUTPUT_SIZE_5@, LAST_REFRESHED@);
    lemma_member_rekeyed(members, at, OUTPUT_SIZE_5@, INTERVAL@);
    lemma_member_rekeyed(members, at, OUTPUT_SIZE_5@, TIME_ZONE_5@);
    lemma_member_rekeyed(members, at, OUTPUT_SIZE_5@, TIME_ZONE_6@);
    assert(renumbered[at] == (OUTPUT_SIZE_5@, members[at].1));
    assert forall|i: int| 0 <= i < members.len() && i != at implies (#[trigger] members[i]).0
        != OUTPUT_SIZE_4@ && members[i].0 != OUTPUT_SIZE_5@ by {
        assert(renumbered[i] == members[i]);
        if i < at {
            assert(members[i].0 != members[at].0);
            assert(renumbered[i].0 != renumbered[at].0);
        } else {
            assert(members[at].0 != members[i].0);
            assert(renumbered[at].0 != renumbered[i].0);
        }
    }
    lemma_member_found(members, OUTPUT_SIZE_4@, at);
    lemma_member_absent(members, OUTPUT_SIZE_5@);
    assert forall|i: int| 0 <= i < renumbered.len() implies (#[trigger] renumbered[i]).0
        != OUTPUT_SIZE_4@ by {
        if i != at {
            assert(renumbered[i] == members[i]);
        }
    }
    lemma_member_absent(renumbered, OUTPUT_SIZE_4@);
    assert forall|i: int| 0 <= i < at implies (#[trigger] renumbered[i]).0 != OUTPUT_SIZE_5@ by {
        assert(renumbered[i] == members[i]);
    }
    lemma_member_found(renumbered, OUTPUT_SIZE_5@, at);
}

/// Nor does the description depend on the numbering of the time zone.
pub proof fn lemma_time_zone_numbering(members: Seq<(Seq<char>, JsonView)>, at: int)
    requires
        0 <= at < members.len(),
        members[at].0 == TIME_ZONE_5@,
        keys_distinct(members),
        keys_distinct(members.update(at, (TIME_ZONE_6@, members[at].1))),
    ensures
        meta_data_of(members.update(at, (TIME_ZONE_6@, members[at].1))) == meta_data_of(members),
{
    let renumbered = members.update(at, (TIME_ZONE_6@, members[at].1));
    lemma_description_keys_differ();
    lemma_member_rekeyed(members, at, TIME_ZONE_6@, INFORMATION@);
    lemma_member_rekeyed(members, at, TIME_ZONE_6@, SYMBOL@);
    lemma_member_rekeyed(members, at, TIME_ZONE_6@, LAST_REFRESHED@);
    lemma_member_rekeyed(members, at, TIME_ZONE_6@, INTERVAL@);
    lemma_member_rekeyed(members, at, TIME_ZONE_6@, OUTPUT_SIZE_4@);
    lemma_member_rekeyed(members, at, TIME_ZONE_6@, OUTPUT_SIZE_5@);
    assert(renumbered[at] == (TIME_ZONE_6@, members[at].1));
    assert forall|i: int| 0 <= i < members.len() && i != at implies (#[trigger] members[i]).0
        != TIME_ZONE_5@ && members[i].0 != TIME_ZONE_6@ by {
        assert(renumbered[i] == members[i]);
        if i < at {
            assert(members[i].0 != members[at].0);
            assert(renumbered[i].0 != renumbered[at].0);
        } else {
            assert(members[at].0 != members[i].0);
            assert(renumbered[at].0 != renumbered[i].0);
        }
    }
    lemma_member_found(members, TIME_ZONE_5@, at);
    lemma_member_absent(members, TIME_ZONE_6@);
    assert forall|i: int| 0 <= i < renumbered.len() implies (#[trigger] renumbered[i]).0
        != TIME_ZONE_5@ by {
        if i != at {
            assert(renumbered[i] == members[i]);
        }
    }
    lemma_member_absent(renumbered, TIME_ZONE_5@);
    assert forall|i: int| 0 <= i < at implies (#[trigger] renumbered[i]).0 != TIME_ZONE_6@ by {
        assert(renumbered[i] == members[i]);
    }
    lemma_member_found(renumbered, TIME_ZONE_6@, at);
}

/// The value of the first member under `key`.
fn find<'a>(members: &'a Vec<(String, Json)>, key: &str) -> (found: Option<&'a Json>)
    ensures
        match found {
            Some(value) => member(members_view(members@), key@) == Some(value@),
            None => member(members_view(members@), key@) is None,
        },
{
    let wanted = String::from_str(key);
    let ghost all = members_view(members@);
    let mut i: usize = 0;
    proof {
        assert(all.skip(0) == all);
    }
    while i < members.len()
        invariant
            i <= members.len(),
            all == members_view(members@),
            wanted@ == key@,
            member(all, key@) == member(all.skip(i as int), key@),
        decreases members.len() - i,
    {
        proof {
            assert(all.skip(i as int)[0] == all[i as int]);
            assert(all.skip(i as int).skip(1) == all.skip(i + 1));
        }
        if members[i].0 == wanted {
            return Some(&members[i].1);
        }
        i += 1;
    }
    None
}

/// The text under `key`, where there is one.
fn find_text(members: &Vec<(String, Json)>, key: &str) -> (found: Option<String>)
    ensures
        match found {
            Some(text) => text_at(members_view(members@), key@) == Some(text@),
            None => text_at(members_view(members@), key@) is None,
        },
{
    match find(members, key) {
        Some(Json::Text(text)) => Some(text.clone()),
        _ => None,
    }
}

/// The text under the first of two keys that holds one.
fn find_text_either(members: &Vec<(String, Json)>, first: &str, second: &str) -> (found: Option<
    String,
>)
    ensures
        match found {
            Some(text) => text_at_either(members_view(members@), first@, second@) == Some(text@),
            None => text_at_either(members_view(members@), first@, second@) is None,
        },
{
    match find_text(members, first) {
        Some(text) => Some(text),
        None => find_text(members, second),
    }
}

impl MetaData {
    /// Reads a description from the members of a `Meta Data` section.
    pub fn from_members(members: &Vec<(String, Json)>) -> (r: Result<MetaData, TimeSeriesError>)
        ensures
            match r {
                Ok(meta_data) => meta_data_of(members_view(members@)) == Ok::<
                    MetaDataView,
                    TimeSeriesErrorView,
                >(meta_data@),
                Err(e) => meta_data_of(members_view(members@)) == Err::<
                    MetaDataView,
                    TimeSeriesErrorView,
                >(e@),
            },
    {
        let information = match find_text(members, INFORMATION) {
            Some(text) => text,
            None => {
                return Err(TimeSeriesError::InvalidField(String::from_str(INFORMATION)));
            },
        };
        let symbol = match find_text(members, SYMBOL) {
            Some(text) => text,
            None => {
                return Err(TimeSeriesError::InvalidField(String::from_str(SYMBOL)));
            },
        };
        let last_refreshed = match find_text(members, LAST_REFRESHED) {
            Some(text) => text,
            None => {
                return Err(TimeSeriesError::InvalidField(String::from_str(LAST_REFRESHED)));
            },
        };
        let interval = match find(members, INTERVAL) {
            None => None,
            Some(Json::Null) => None,
            Some(Json::Text(text)) => Some(text.clone()),
            Some(_) => {
                return Err(TimeSeriesError::InvalidField(String::from_str(INTERVAL)));
            },
        };
        let output_size = match find_text_either(members, OUTPUT_SIZE_4, OUTPUT_SIZE_5) {
            Some(text) => text,
            None => {
                return Err(TimeSeriesError::InvalidField(String::from_str(OUTPUT_SIZE)));
            },
        };
        let time_zone = match find_text_either(members, TIME_ZONE_5, TIME_ZONE_6) {
            Some(text) => text,
            None => {
                return Err(TimeSeriesError::InvalidField(String::from_str(TIME_ZONE)));
            },
        };
        Ok(MetaData { information, symbol, last_refreshed, interval, output_size, time_zone })
    }
}

/// The price that a JSON value stands for: a text or a number, as it
/// stands.
pub open spec fn amount_of(value: JsonView) -> Option<AmountView> {
    match value {
        JsonView::Text(text) => Some(AmountView::Quoted(text)),
        JsonView::Number(numeral) => Some(AmountView::Number(numeral)),
        _ => None,
    }
}

/// The volume that a JSON value stands for: a text that reads as an
/// unsigned 32-bit integer, or a number that is one.
pub open spec fn volume_of(value: JsonView) -> Option<u32> {
    match value {
        JsonView::Text(text) => unsigned_of_text(text),
        JsonView::Number(numeral) => unsigned_of_digits(numeral),
        _ => None,
    }
}

/// The price under `key`.
pub open spec fn amount_at(fields: Seq<(Seq<char>, JsonView)>, key: Seq<char>) -> Option<
    AmountView,
> {
    match member(fields, key) {
        Some(value) => amount_of(value),
        None => None,
    }
}

/// The volume under `key`.
pub open spec fn volume_at(fields: Seq<(Seq<char>, JsonView)>, key: Seq<char>) -> Option<u32> {
    match member(fields, key) {
        Some(value) => volume_of(value),
        None => None,
    }
}

/// The bar that a JSON value makes up. The fields are looked for in the
/// order open, high, low, close, volume, and the first that is missing or
/// is no number of its kind is named. A value that is no object has none
/// of them.
pub open spec fn entry_of(bar: JsonView) -> Result<TimeSeriesEntryView, TimeSeriesErrorView> {
    match bar {
        JsonView::Object(fields) => {
            if amount_at(fields, OPEN@) is None {
                Err(TimeSeriesErrorView::InvalidNumber(OPEN@))
            } else if amount_at(fields, HIGH@) is None {
                Err(TimeSeriesErrorView::InvalidNumber(HIGH@))
            } else if amount_at(fields, LOW@) is None {
                Err(TimeSeriesErrorView::InvalidNumber(LOW@))
            } else if amount_at(fields, CLOSE@) is None {
                Err(TimeSeriesErrorView::InvalidNumber(CLOSE@))
            } else if volume_at(fields, VOLUME@) is None {
                Err(TimeSeriesErrorView::InvalidNumber(VOLUME@))
            } else {
                Ok(
                    TimeSeriesEntryView {
                        open: amount_at(fields, OPEN@)->Some_0,
                        high: amount_at(fields, HIGH@)->Some_0,
                        low: amount_at(fields, LOW@)->Some_0,
                        close: amount_at(fields, CLOSE@)->Some_0,
                        volume: volume_at(fields, VOLUME@)->Some_0,
                    },
                )
            }
        },
        _ => Err(TimeSeriesErrorView::InvalidNumber(OPEN@)),
    }
}

/// The moment that a key names, given what the key reads as under the form
/// of a day and under the form of a second: the first instant of the day
/// where it reads as a day, else the second that it reads as.
pub open spec fn moment_of(date: Option<(i32, u32, u32)>, date_time: Option<Timestamp>) -> Option<
    Timestamp,
> {
    match date {
        Some((year, month, day)) => Some(
            Timestamp { year, month, day, hour: 0, minute: 0, second: 0, nanosecond: 0 },
        ),
        None => date_time,
    }
}

/// The moment that the key of a bar names.
pub open spec fn stamp_of_key(key: Seq<char>) -> Option<Timestamp> {
    moment_of(date_of_text(key, DATE_FORMAT@), date_time_of_text(key, DATE_TIME_FORMAT@))
}

/// The stamps go strictly up along the sequence, so no moment has two bars.
pub open spec fn chronological(bars: Seq<(Timestamp, TimeSeriesEntryView)>) -> bool {
    ascending(bars)
}

/// The bars with `entry` put at `stamp`: in place of the bar that stood
/// there, or as a new bar where its stamp belongs.
pub open spec fn put(
    bars: Seq<(Timestamp, TimeSeriesEntryView)>,
    stamp: Timestamp,
    entry: TimeSeriesEntryView,
) -> Seq<(Timestamp, TimeSeriesEntryView)> {
    let at = rank(bars, stamp);
    if 0 <= at < bars.len() && bars[at].0 == stamp {
        bars.update(at, (stamp, entry))
    } else {
        bars.insert(at, (stamp, entry))
    }
}

/// The bar that one member of the series section makes up: the key is read
/// first, then the fields.
pub open spec fn bar_of(entry: (Seq<char>, JsonView)) -> Result<
    (Timestamp, TimeSeriesEntryView),
    TimeSeriesErrorView,
> {
    match stamp_of_key(entry.0) {
        None => Err(TimeSeriesErrorView::UnparseableTimestamp(entry.0)),
        Some(stamp) => match entry_of(entry.1) {
            Err(e) => Err(e),
            Ok(bar) => Ok((stamp, bar)),
        },
    }
}

/// The bars that the members of the series section make up, in the order
/// of their stamps. The members are read in the order in which the object
/// holds them, which for a document from `Json::parse` is the order of
/// their keys, one member to a key. The first member that is at fault ends
/// the reading, and of two members whose keys name the same moment the one
/// read later stays.
pub open spec fn bars_of(entries: Seq<(Seq<char>, JsonView)>) -> Result<
    Seq<(Timestamp, TimeSeriesEntryView)>,
    TimeSeriesErrorView,
>
    decreases entries.len(),
{
    if entries.len() == 0 {
        Ok(Seq::empty())
    } else {
        match bars_of(entries.drop_last()) {
            Err(e) => Err(e),
            Ok(bars) => match bar_of(entries.last()) {
                Err(e) => Err(e),
                Ok((stamp, bar)) => Ok(put(bars, stamp, bar)),
            },
        }
    }
}

/// The series that have been decoded.
pub struct TimeSeriesView {
    pub meta_data: MetaDataView,
    /// The bars in the order of their stamps.
    pub bars: Seq<(Timestamp, TimeSeriesEntryView)>,
}

/// Whether the member is a section other than the description.
pub open spec fn is_data_section(m: (Seq<char>, JsonView)) -> bool {
    m.0 != META_DATA@
}

/// The series that a document makes up. The description is read first;
/// then the document must hold exactly one other section, an object, whose
/// members are the bars.
pub open spec fn time_series_of(doc: JsonView) -> Result<TimeSeriesView, TimeSeriesErrorView> {
    match doc {
        JsonView::Object(top) => match member(top, META_DATA@) {
            Some(JsonView::Object(description)) => match meta_data_of(description) {
                Err(e) => Err(e),
                Ok(meta_data) => {
                    let sections = top.filter(|m: (Seq<char>, JsonView)| is_data_section(m));
                    if sections.len() != 1 {
                        Err(TimeSeriesErrorView::MissingTimeSeries)
                    } else {
                        match sections[0].1 {
                            JsonView::Object(entries) => match bars_of(entries) {
                                Err(e) => Err(e),
                                Ok(bars) => Ok(TimeSeriesView { meta_data, bars }),
                            },
                            _ => Err(TimeSeriesErrorView::MissingTimeSeries),
                        }
                    }
                },
            },
            _ => Err(TimeSeriesErrorView::InvalidField(META_DATA@)),
        },
        _ => Err(TimeSeriesErrorView::InvalidField(META_DATA@)),
    }
}

/// The series that a text makes up: the text is read as JSON, and the
/// document as a series.
pub open spec fn time_series_of_text(text: Seq<char>) -> Result<
    TimeSeriesView,
    TimeSeriesErrorView,
> {
    match json_of_text(text) {
        None => Err(TimeSeriesErrorView::InvalidJson),
        Some(doc) => time_series_of(doc),
    }
}

/// Putting a bar keeps the sequence chronological. Afterwards the bar is
/// found at its stamp, and every other moment has the bar it had.
pub proof fn lemma_put_chronological(
    bars: Seq<(Timestamp, TimeSeriesEntryView)>,
    stamp: Timestamp,
    entry: TimeSeriesEntryView,
)
    requires
        chronological(bars),
    ensures
        chronological(put(bars, stamp, entry)),
        put(bars, stamp, entry).contains((stamp, entry)),
        forall|b: (Timestamp, TimeSeriesEntryView)|
            b.0 != stamp ==> (#[trigger] put(bars, stamp, entry).contains(b) <==> bars.contains(b)),
{
    let at = rank(bars, stamp);
    let after = put(bars, stamp, entry);
    lemma_rank_parts(bars, stamp);
    if 0 <= at < bars.len() && bars[at].0 == stamp {
        assert(after[at] == (stamp, entry));
        assert forall|i: int, j: int| 0 <= i < j < after.len() implies (#[trigger] after[i]).0.precedes(
            &(#[trigger] after[j]).0,
        ) by {
            assert(after[i].0 == bars[i].0);
            assert(after[j].0 == bars[j].0);
        }
        assert forall|b: (Timestamp, TimeSeriesEntryView)| b.0 != stamp implies (
        #[trigger] after.contains(b) <==> bars.contains(b)) by {
            if after.contains(b) {
                let i = choose|i: int| 0 <= i < after.len() && after[i] == b;
                assert(bars[i] == b);
            }
            if bars.contains(b) {
                let i = choose|i: int| 0 <= i < bars.len() && bars[i] == b;
                assert(after[i] == b);
            }
        }
    } else {
        assert(after[at] == (stamp, entry));
        assert forall|i: int, j: int| 0 <= i < j < after.len() implies (#[trigger] after[i]).0.precedes(
            &(#[trigger] after[j]).0,
        ) by {
            if j == at {
                assert(after[i] == bars[i]);
            } else if i == at {
                assert(after[j] == bars[j - 1]);
                lemma_precedes_total(stamp, bars[j - 1].0);
                if j - 1 > at {
                    assert(bars[at].0.precedes(&bars[j - 1].0));
                    lemma_precedes_total(stamp, bars[at].0);
                    if stamp.precedes(&bars[at].0) {
                        lemma_precedes_transitive(stamp, bars[at].0, bars[j - 1].0);
                    }
                }
            } else {
                assert(after[i] == bars[if i < at { i } else { i - 1 }]);
                assert(after[j] == bars[if j < at { j } else { j - 1 }]);
            }
        }
        assert forall|b: (Timestamp, TimeSeriesEntryView)| b.0 != stamp implies (
        #[trigger] after.contains(b) <==> bars.contains(b)) by {
            if after.contains(b) {
                let i = choose|i: int| 0 <= i < after.len() && after[i] == b;
                assert(bars[if i < at { i } else { i - 1 }] == b);
            }
            if bars.contains(b) {
                let i = choose|i: int| 0 <= i < bars.len() && bars[i] == b;
                assert(after[if i < at { i } else { i + 1 }] == b);
            }
        }
    }
}

/// What has been read of a document is chronological.
pub proof fn lemma_bars_of_chronological(entries: Seq<(Seq<char>, JsonView)>)
    ensures
        bars_of(entries) matches Ok(bars) ==> chronological(bars),
    decreases entries.len(),
{
    if entries.len() > 0 {
        lemma_bars_of_chronological(entries.drop_last());
        if bars_of(entries) is Ok {
            let bars = bars_of(entries.drop_last())->Ok_0;
            let (stamp, bar) = bar_of(entries.last())->Ok_0;
            lemma_put_chronological(bars, stamp, bar);
        }
    }
}

/// A fault among the first `k` members is the fault of the whole section.
proof fn lemma_bars_of_fault(entries: Seq<(Seq<char>, JsonView)>, k: int)
    requires
        0 <= k <= entries.len(),
        bars_of(entries.take(k)) is Err,
    ensures
        bars_of(entries) == bars_of(entries.take(k)),
    decreases entries.len() - k,
{
    if k < entries.len() {
        assert(entries.take(k + 1).drop_last() == entries.take(k));
        lemma_bars_of_fault(entries, k + 1);
    } else {
        assert(entries.take(k) == entries);
    }
}

/// The price under `key`.
fn find_amount(fields: &Vec<(String, Json)>, key: &str) -> (found: Option<Amount>)
    ensures
        match found {
            Some(amount) => amount_at(members_view(fields@), key@) == Some(amount@),
            None => amount_at(members_view(fields@), key@) is None,
        },
{
    match find(fields, key) {
        Some(Json::Text(text)) => Some(Amount::Quoted(text.clone())),
        Some(Json::Number(numeral)) => Some(Amount::Number(numeral.clone())),
        _ => None,
    }
}

/// The volume under `key`.
fn find_volume(fields: &Vec<(String, Json)>, key: &str) -> (found: Option<u32>)
    ensures
        found == volume_at(members_view(fields@), key@),
{
    match find(fields, key) {
        Some(Json::Text(text)) => parse_unsigned(text.as_str()),
        Some(Json::Number(numeral)) => parse_unsigned_digits(numeral.as_str()),
        _ => None,
    }
}

impl Amount {
    /// A copy of the amount.
    pub fn duplicate(&self) -> (copy: Amount)
        ensures
            copy@ == self@,
    {
        match self {
            Amount::Quoted(text) => Amount::Quoted(text.clone()),
            Amount::Number(numeral) => Amount::Number(numeral.clone()),
        }
    }
}

impl TimeSeriesEntry {
    /// Reads a bar from the JSON value that holds its fields.
    pub fn from_json(bar: &Json) -> (r: Result<TimeSeriesEntry, TimeSeriesError>)
        ensures
            match r {
                Ok(entry) => entry_of(bar@) == Ok::<TimeSeriesEntryView, TimeSeriesErrorView>(
                    entry@,
                ),
                Err(e) => entry_of(bar@) == Err::<TimeSeriesEntryView, TimeSeriesErrorView>(e@),
            },
    {
        let fields = match bar {
            Json::Object(fields) => fields,
            _ => {
                return Err(TimeSeriesError::InvalidNumber(String::from_str(OPEN)));
            },
        };
        proof {
            lemma_view_of_parts(*bar);
        }
        let open = match find_amount(fields, OPEN) {
            Some(amount) => amount,
            None => {
                return Err(TimeSeriesError::InvalidNumber(String::from_str(OPEN)));
            },
        };
        let high = match find_amount(fields, HIGH) {
            Some(amount) => amount,
            None => {
                return Err(TimeSeriesError::InvalidNumber(String::from_str(HIGH)));
            },
        };
        let low = match find_amount(fields, LOW) {
            Some(amount) => amount,
            None => {
                return Err(TimeSeriesError::InvalidNumber(String::from_str(LOW)));
            },
        };
        let close = match find_amount(fields, CLOSE) {
            Some(amount) => amount,
            None => {
                return Err(TimeSeriesError::InvalidNumber(String::from_str(CLOSE)));
            },
        };
        let volume = match find_volume(fields, VOLUME) {
            Some(volume) => volume,
            None => {
                return Err(TimeSeriesError::InvalidNumber(String::from_str(VOLUME)));
            },
        };
        Ok(TimeSeriesEntry { open, high, low, close, volume })
    }
}

/// The moment that a key names, given what the key reads as under the form
/// of a day and under the form of a second.
pub fn moment(date: Option<(i32, u32, u32)>, date_time: Option<Timestamp>) -> (stamp: Option<
    Timestamp,
>)
    ensures
        stamp == moment_of(date, date_time),
{
    match date {
        Some((year, month, day)) => Some(Timestamp::midnight(year, month, day)),
        None => date_time,
    }
}

/// Reads the key of a bar: as a day, of which it names the first instant,
/// or else as a second of a day.
pub fn parse_timestamp(key: &str) -> (stamp: Option<Timestamp>)
    ensures
        stamp == stamp_of_key(key@),
{
    let date = parse_date(key, DATE_FORMAT);
    let date_time = match date {
        Some(_) => None,
        None => parse_date_time(key, DATE_TIME_FORMAT),
    };
    moment(date, date_time)
}

/// What a run of bars holds.
pub open spec fn bars_view(bars: Seq<(Timestamp, TimeSeriesEntry)>) -> Seq<
    (Timestamp, TimeSeriesEntryView),
> {
    Seq::new(bars.len(), |i: int| (bars[i].0, bars[i].1@))
}

/// The place in `bars` at which a bar stamped `stamp` belongs.
fn place_of(bars: &Vec<(Timestamp, TimeSeriesEntry)>, stamp: &Timestamp) -> (pos: usize)
    requires
        chronological(bars_view(bars@)),
    ensures
        pos == rank(bars_view(bars@), *stamp),
        pos <= bars.len(),
{
    proof {
        lemma_rank_by_keys(bars@, bars_view(bars@), *stamp);
    }
    lower_bound(bars, stamp)
}

/// Puts `entry` at `stamp`, in place of the bar that stood there if any.
fn put_bar(bars: &mut Vec<(Timestamp, TimeSeriesEntry)>, stamp: Timestamp, entry: TimeSeriesEntry)
    requires
        chronological(bars_view(old(bars)@)),
    ensures
        bars_view(final(bars)@) == put(bars_view(old(bars)@), stamp, entry@),
        chronological(bars_view(final(bars)@)),
{
    let ghost before = bars_view(bars@);
    let ghost fresh = entry@;
    let pos = place_of(bars, &stamp);
    proof {
        lemma_put_chronological(before, stamp, fresh);
        if pos < bars.len() {
            assert(before[pos as int].0 == bars@[pos as int].0);
        }
    }
    if pos < bars.len() && bars[pos].0 == stamp {
        bars.set(pos, (stamp, entry));
        assert(bars_view(bars@) =~= before.update(pos as int, (stamp, fresh)));
    } else {
        bars.insert(pos, (stamp, entry));
        assert(bars_view(bars@) =~= before.insert(pos as int, (stamp, fresh)));
    }
}

/// Reads the bars from the members of the series section.
fn read_bars(entries: &Vec<(String, Json)>) -> (r: Result<
    Vec<(Timestamp, TimeSeriesEntry)>,
    TimeSeriesError,
>)
    ensures
        match r {
            Ok(bars) => bars_of(members_view(entries@)) == Ok::<
                Seq<(Timestamp, TimeSeriesEntryView)>,
                TimeSeriesErrorView,
            >(bars_view(bars@)) && chronological(bars_view(bars@)),
            Err(e) => bars_of(members_view(entries@)) == Err::<
                Seq<(Timestamp, TimeSeriesEntryView)>,
                TimeSeriesErrorView,
            >(e@),
        },
{
    let ghost all = members_view(entries@);
    let mut bars: Vec<(Timestamp, TimeSeriesEntry)> = Vec::new();
    let mut i: usize = 0;
    proof {
        assert(all.take(0) == Seq::<(Seq<char>, JsonView)>::empty());
        assert(bars_view(bars@) =~= Seq::empty());
    }
    while i < entries.len()
        invariant
            i <= entries.len(),
            all == members_view(entries@),
            bars_of(all.take(i as int)) == Ok::<
                Seq<(Timestamp, TimeSeriesEntryView)>,
                TimeSeriesErrorView,
            >(bars_view(bars@)),
            chronological(bars_view(bars@)),
        decreases entries.len() - i,
    {
        proof {
            assert(all.take(i + 1).drop_last() == all.take(i as int));
            assert(all.take(i + 1).last() == all[i as int]);
            assert(all[i as int] == (entries@[i as int].0@, entries@[i as int].1@));
        }
        let stamp = match parse_timestamp(entries[i].0.as_str()) {
            Some(stamp) => stamp,
            None => {
                proof {
                    lemma_bars_of_fault(all, i + 1);
                }
                return Err(TimeSeriesError::UnparseableTimestamp(entries[i].0.clone()));
            },
        };
        let entry = match TimeSeriesEntry::from_json(&entries[i].1) {
            Ok(entry) => entry,
            Err(e) => {
                proof {
                    lemma_bars_of_fault(all, i + 1);
                }
                return Err(e);
            },
        };
        put_bar(&mut bars, stamp, entry);
        i += 1;
    }
    proof {
        assert(all.take(i as int) == all);
    }
    Ok(bars)
}

/// A time series: what the provider says of it, and its bars.
#[derive(Debug, PartialEq, Eq)]
pub struct TimeSeries {
    meta_data: MetaData,
    time_series: Vec<(Timestamp, TimeSeriesEntry)>,
}

impl View for TimeSeries {
    type V = TimeSeriesView;

    closed spec fn view(&self) -> TimeSeriesView {
        TimeSeriesView { meta_data: self.meta_data@, bars: bars_view(self.time_series@) }
    }
}

/// What a decoding came to.
pub open spec fn outcome(r: Result<TimeSeries, TimeSeriesError>) -> Result<
    TimeSeriesView,
    TimeSeriesErrorView,
> {
    match r {
        Ok(series) => Ok(series@),
        Err(e) => Err(e@),
    }
}

impl TimeSeries {
    #[verifier::type_invariant]
    spec fn inv(&self) -> bool {
        chronological(bars_view(self.time_series@))
    }

    /// Decodes a series from a document.
    pub fn from_json(doc: &Json) -> (r: Result<TimeSeries, TimeSeriesError>)
        ensures
            outcome(r) == time_series_of(doc@),
    {
        let top = match doc {
            Json::Object(members) => members,
            _ => {
                return Err(TimeSeriesError::InvalidField(String::from_str(META_DATA)));
            },
        };
        let ghost all = members_view(top@);
        proof {
            lemma_view_of_parts(*doc);
        }
        let description = match find(top, META_DATA) {
            Some(value) => {
                proof {
                    lemma_view_of_parts(*value);
                }
                match value {
                    Json::Object(members) => members,
                    _ => {
                        return Err(TimeSeriesError::InvalidField(String::from_str(META_DATA)));
                    },
                }
            },
            None => {
                return Err(TimeSeriesError::InvalidField(String::from_str(META_DATA)));
            },
        };
        let meta_data = match MetaData::from_members(description) {
            Ok(meta_data) => meta_data,
            Err(e) => {
                return Err(e);
            },
        };
        let ghost is_section = |m: (Seq<char>, JsonView)| is_data_section(m);
        let meta_key = String::from_str(META_DATA);
        let mut section: Option<&Json> = None;
        let mut count: usize = 0;
        let mut i: usize = 0;
        proof {
            assert(all.take(0) == Seq::<(Seq<char>, JsonView)>::empty());
        }
        while i < top.len()
            invariant
                i <= top.len(),
                all == members_view(top@),
                meta_key@ == META_DATA@,
                is_section == |m: (Seq<char>, JsonView)| is_data_section(m),
                count == all.take(i as int).filter(is_section).len(),
                count <= i,
                count > 0 ==> section is Some && section->Some_0@ == all.take(i as int).filter(
                    is_section,
                )[0].1,
            decreases top.len() - i,
        {
            proof {
                let before = all.take(i as int);
                assert(all.take(i + 1) == before.push(all[i as int]));
                before.lemma_filter_push(all[i as int], is_section);
                assert(all[i as int] == (top@[i as int].0@, top@[i as int].1@));
            }
            if !(top[i].0 == meta_key) {
                if count == 0 {
                    section = Some(&top[i].1);
                }
                count += 1;
            }
            i += 1;
        }
        proof {
            assert(all.take(i as int) == all);
        }
        if count != 1 {
            return Err(TimeSeriesError::MissingTimeSeries);
        }
        let entries = match section {
            Some(value) => {
                proof {
                    lemma_view_of_parts(*value);
                }
                match value {
                    Json::Object(entries) => entries,
                    _ => {
                        return Err(TimeSeriesError::MissingTimeSeries);
                    },
                }
            },
            None => {
                return Err(TimeSeriesError::MissingTimeSeries);
            },
        };
        match read_bars(entries) {
            Ok(time_series) => Ok(TimeSeries { meta_data, time_series }),
            Err(e) => Err(e),
        }
    }

    /// Decodes a series from the text of a document.
    pub fn decode(text: &str) -> (r: Result<TimeSeries, TimeSeriesError>)
        ensures
            outcome(r) == time_series_of_text(text@),
    {
        match Json::parse(text) {
            None => Err(TimeSeriesError::InvalidJson),
            Some(doc) => TimeSeries::from_json(&doc),
        }
    }

    /// What the provider says of the series.
    pub fn meta_data(&self) -> (meta_data: &MetaData)
        ensures
            meta_data@ == self@.meta_data,
    {
        &self.meta_data
    }

    /// The bars in the order of their stamps.
    pub fn bars(&self) -> (bars: &Vec<(Timestamp, TimeSeriesEntry)>)
        ensures
            bars_view(bars@) == self@.bars,
            chronological(self@.bars),
    {
        proof {
            use_type_invariant(self);
        }
        &self.time_series
    }

    /// The number of bars.
    pub fn len(&self) -> (n: usize)
        ensures
            n == self@.bars.len(),
    {
        self.time_series.len()
    }

    /// Whether the series has no bar.
    pub fn is_empty(&self) -> (b: bool)
        ensures
            b == (self@.bars.len() == 0),
    {
        self.time_series.len() == 0
    }

    /// The bar at `stamp`, if the series has one there.
    pub fn get(&self, stamp: &Timestamp) -> (found: Option<&TimeSeriesEntry>)
        ensures
            match found {
                Some(entry) => self@.bars.contains((*stamp, entry@)),
                None => forall|i: int|
                    0 <= i < self@.bars.len() ==> (#[trigger] self@.bars[i]).0 != *stamp,
            },
    {
        proof {
            use_type_invariant(self);
            lemma_rank_parts(self@.bars, *stamp);
        }
        let pos = place_of(&self.time_series, stamp);
        if pos < self.time_series.len() {
            assert(self@.bars[pos as int] == (
                self.time_series@[pos as int].0,
                self.time_series@[pos as int].1@,
            ));
        }
        if pos < self.time_series.len() && self.time_series[pos].0 == *stamp {
            Some(&self.time_series[pos].1)
        } else {
            proof {
                assert forall|i: int| 0 <= i < self@.bars.len() implies (
                #[trigger] self@.bars[i]).0 != *stamp by {
                    lemma_precedes_total(*stamp, *stamp);
                    if i < pos {
                        assert(self@.bars[i].0.precedes(stamp));
                    } else if i > pos {
                        assert(self@.bars[pos as int].0.precedes(&self@.bars[i].0));
                        lemma_precedes_total(*stamp, self@.bars[pos as int].0);
                    }
                }
            }
            None
        }
    }

    /// One of the four prices of every bar, in the order of the stamps.
    pub fn prices(&self, which: Price) -> (prices: Vec<(Timestamp, Amount)>)
        ensures
            prices@.len() == self@.bars.len(),
            forall|i: int|
                0 <= i < prices@.len() ==> (#[trigger] prices@[i]).0 == self@.bars[i].0
                    && prices@[i].1@ == self@.bars[i].1.price(which),
    {
        let mut prices: Vec<(Timestamp, Amount)> = Vec::new();
        let mut i: usize = 0;
        while i < self.time_series.len()
            invariant
                i <= self.time_series.len(),
                prices@.len() == i,
                forall|j: int|
                    0 <= j < i ==> (#[trigger] prices@[j]).0 == self.time_series@[j].0
                        && prices@[j].1@ == self.time_series@[j].1@.price(which),
            decreases self.time_series.len() - i,
        {
            let amount = self.time_series[i].1.price(which).duplicate();
            prices.push((self.time_series[i].0, amount));
            i += 1;
        }
        prices
    }

    /// The opening price of every bar, in the order of the stamps.
    pub fn open(&self) -> (prices: Vec<(Timestamp, Amount)>)
        ensures
            prices@.len() == self@.bars.len(),
            forall|i: int|
                0 <= i < prices@.len() ==> (#[trigger] prices@[i]).0 == self@.bars[i].0
                    && prices@[i].1@ == self@.bars[i].1.open,
    {
        self.prices(Price::Open)
    }

    /// The highest price of every bar, in the order of the stamps.
    pub fn high(&self) -> (prices: Vec<(Timestamp, Amount)>)
        ensures
            prices@.len() == self@.bars.len(),
            forall|i: int|
                0 <= i < prices@.len() ==> (#[trigger] prices@[i]).0 == self@.bars[i].0
                    && prices@[i].1@ == self@.bars[i].1.high,
    {
        self.prices(Price::High)
    }

    /// The lowest price of every bar, in the order of the stamps.
    pub fn low(&self) -> (prices: Vec<(Timestamp, Amount)>)
        ensures
            prices@.len() == self@.bars.len(),
            forall|i: int|
                0 <= i < prices@.len() ==> (#[trigger] prices@[i]).0 == self@.bars[i].0
                    && prices@[i].1@ == self@.bars[i].1.low,
    {
        self.prices(Price::Low)
    }

    /// The closing price of every bar, in the order of the stamps.
    pub fn close(&self) -> (prices: Vec<(Timestamp, Amount)>)
        ensures
            prices@.len() == self@.bars.len(),
            forall|i: int|
                0 <= i < prices@.len() ==> (#[trigger] prices@[i]).0 == self@.bars[i].0
                    && prices@[i].1@ == self@.bars[i].1.close,
    {
        self.prices(Price::Close)
    }

    /// The volume of every bar, in the order of the stamps.
    pub fn volume(&self) -> (volumes: Vec<(Timestamp, u32)>)
        ensures
            volumes@.len() == self@.bars.len(),
            forall|i: int|
                0 <= i < volumes@.len() ==> (#[trigger] volumes@[i]).0 == self@.bars[i].0
                    && volumes@[i].1 == self@.bars[i].1.volume,
    {
        let mut volumes: Vec<(Timestamp, u32)> = Vec::new();
        let mut i: usize = 0;
        while i < self.time_series.len()
            invariant
                i <= self.time_series.len(),
                volumes@.len() == i,
                forall|j: int|
                    0 <= j < i ==> (#[trigger] volumes@[j]).0 == self.time_series@[j].0
                        && volumes@[j].1 == self.time_series@[j].1.volume,
            decreases self.time_series.len() - i,
        {
            volumes.push((self.time_series[i].0, self.time_series[i].1.volume));
            i += 1;
        }
        volumes
    }
}

} // verus!
