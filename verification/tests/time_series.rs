use trading_core::decimal::{parse_unsigned, parse_unsigned_digits};
use trading_core::json::Json;
use trading_core::time_series::{
    moment, parse_timestamp, Amount, MetaData, Price, TimeSeries, TimeSeriesEntry,
    TimeSeriesError,
};
use trading_core::time_series_type::{Interval, IntradayInterval, TimeSeriesType};
use trading_core::timestamp::Timestamp;

const DAILY: &str = r#"{
    "Meta Data": {
        "1. Information": "Daily Prices (open, high, low, close) and Volumes",
        "2. Symbol": "IBM",
        "3. Last Refreshed": "2024-01-02",
        "4. Output Size": "Compact",
        "5. Time Zone": "US/Eastern"
    },
    "Time Series (Daily)": {
        "2024-01-02": {
            "1. open": "162.8300",
            "2. high": "163.2900",
            "3. low": "160.4600",
            "4. close": "161.5000",
            "5. volume": "3825044"
        }
    }
}"#;

const INTRADAY: &str = r#"{
    "Meta Data": {
        "1. Information": "Intraday (1min) open, high, low, close prices and volume",
        "2. Symbol": "IBM",
        "3. Last Refreshed": "2024-01-02 09:32:00",
        "4. Interval": "1min",
        "5. Output Size": "Compact",
        "6. Time Zone": "US/Eastern"
    },
    "Time Series (1min)": {
        "2024-01-02 09:32:00": {
            "1. open": "161.1000",
            "2. high": "161.2000",
            "3. low": "161.0000",
            "4. close": "161.1500",
            "5. volume": "1200"
        },
        "2024-01-02 09:31:00": {
            "1. open": 161.5,
            "2. high": 161.75,
            "3. low": 161,
            "4. close": 161.1,
            "5. volume": 4521
        }
    }
}"#;

fn quoted(text: &str) -> Amount {
    Amount::Quoted(text.to_string())
}

fn number(numeral: &str) -> Amount {
    Amount::Number(numeral.to_string())
}

fn text(s: &str) -> Json {
    Json::Text(s.to_string())
}

fn object(members: Vec<(&str, Json)>) -> Json {
    Json::Object(members.into_iter().map(|(k, v)| (k.to_string(), v)).collect())
}

fn daily_meta() -> Json {
    object(vec![
        ("1. Information", text("Daily Prices")),
        ("2. Symbol", text("IBM")),
        ("3. Last Refreshed", text("2024-01-02")),
        ("4. Output Size", text("Compact")),
        ("5. Time Zone", text("US/Eastern")),
    ])
}

fn bar(open: &str, high: &str, low: &str, close: &str, volume: &str) -> Json {
    object(vec![
        ("1. open", text(open)),
        ("2. high", text(high)),
        ("3. low", text(low)),
        ("4. close", text(close)),
        ("5. volume", text(volume)),
    ])
}

fn document(meta: Json, bars: Vec<(&str, Json)>) -> Json {
    object(vec![("Meta Data", meta), ("Time Series (Daily)", object(bars))])
}

#[test]
fn daily_series_decodes_to_one_bar_at_midnight() {
    let series = TimeSeries::decode(DAILY).unwrap();
    assert_eq!(series.len(), 1);
    let meta = series.meta_data();
    assert_eq!(meta.information, "Daily Prices (open, high, low, close) and Volumes");
    assert_eq!(meta.symbol, "IBM");
    assert_eq!(meta.last_refreshed, "2024-01-02");
    assert_eq!(meta.interval, None);
    assert_eq!(meta.output_size, "Compact");
    assert_eq!(meta.time_zone, "US/Eastern");
    let midnight = Timestamp::new(2024, 1, 2, 0, 0, 0, 0);
    assert_eq!(series.bars()[0].0, midnight);
    let entry = series.get(&midnight).unwrap();
    assert_eq!(
        *entry,
        TimeSeriesEntry {
            open: quoted("162.8300"),
            high: quoted("163.2900"),
            low: quoted("160.4600"),
            close: quoted("161.5000"),
            volume: 3825044,
        }
    );
    assert!(series.get(&Timestamp::new(2024, 1, 2, 0, 0, 1, 0)).is_none());
}

#[test]
fn intraday_series_is_keyed_by_the_exact_minute() {
    let series = TimeSeries::decode(INTRADAY).unwrap();
    assert_eq!(series.len(), 2);
    assert_eq!(series.meta_data().interval, Some("1min".to_string()));
    assert_eq!(series.meta_data().output_size, "Compact");
    assert_eq!(series.meta_data().time_zone, "US/Eastern");
    let first = Timestamp::new(2024, 1, 2, 9, 31, 0, 0);
    let second = Timestamp::new(2024, 1, 2, 9, 32, 0, 0);
    // the bars stand in the order of their stamps, whatever the document's order
    assert_eq!(series.bars()[0].0, first);
    assert_eq!(series.bars()[1].0, second);
    let entry = series.get(&first).unwrap();
    assert_eq!(entry.open, number("161.5"));
    assert_eq!(entry.high, number("161.75"));
    assert_eq!(entry.low, number("161"));
    assert_eq!(entry.close, number("161.1"));
    assert_eq!(entry.volume, 4521);
    assert_eq!(series.get(&second).unwrap().volume, 1200);
    assert!(series.get(&Timestamp::new(2024, 1, 2, 9, 30, 0, 0)).is_none());
}

#[test]
fn two_data_sections_are_refused() {
    let text = r#"{
        "Meta Data": {
            "1. Information": "i", "2. Symbol": "s", "3. Last Refreshed": "r",
            "4. Output Size": "o", "5. Time Zone": "z"
        },
        "Time Series (Daily)": {},
        "Weekly Time Series": {}
    }"#;
    assert_eq!(TimeSeries::decode(text).err(), Some(TimeSeriesError::MissingTimeSeries));
}

#[test]
fn a_document_without_a_data_section_is_refused() {
    let doc = object(vec![("Meta Data", daily_meta())]);
    assert_eq!(TimeSeries::from_json(&doc).err(), Some(TimeSeriesError::MissingTimeSeries));
    let doc = object(vec![("Meta Data", daily_meta()), ("Note", text("try later"))]);
    assert_eq!(TimeSeries::from_json(&doc).err(), Some(TimeSeriesError::MissingTimeSeries));
}

#[test]
fn an_empty_data_section_gives_an_empty_series() {
    let series = TimeSeries::from_json(&document(daily_meta(), vec![])).unwrap();
    assert!(series.is_empty());
    assert_eq!(series.len(), 0);
    assert!(series.high().is_empty());
}

#[test]
fn text_that_is_no_json_is_refused() {
    assert_eq!(TimeSeries::decode("{\"Meta Data\": ").err(), Some(TimeSeriesError::InvalidJson));
    assert_eq!(TimeSeries::decode("").err(), Some(TimeSeriesError::InvalidJson));
    assert!(Json::parse("not json").is_none());
}

#[test]
fn a_document_without_a_description_is_refused() {
    let missing = TimeSeriesError::InvalidField("Meta Data".to_string());
    assert_eq!(TimeSeries::decode("[1, 2]").err(), Some(missing.clone()));
    assert_eq!(TimeSeries::decode("{\"Note\": \"try later\"}").err(), Some(missing.clone()));
    assert_eq!(TimeSeries::decode("{\"Meta Data\": 5, \"x\": {}}").err(), Some(missing));
}

#[test]
fn the_first_missing_part_of_the_description_is_named() {
    let parts = [
        ("1. Information", "1. Information"),
        ("2. Symbol", "2. Symbol"),
        ("3. Last Refreshed", "3. Last Refreshed"),
        ("4. Output Size", "Output Size"),
        ("5. Time Zone", "Time Zone"),
    ];
    for (dropped, named) in parts {
        let members: Vec<(&str, Json)> = vec![
            ("1. Information", text("i")),
            ("2. Symbol", text("s")),
            ("3. Last Refreshed", text("r")),
            ("4. Output Size", text("o")),
            ("5. Time Zone", text("z")),
        ]
        .into_iter()
        .filter(|m| m.0 != dropped)
        .collect();
        let doc = document(object(members), vec![]);
        assert_eq!(
            TimeSeries::from_json(&doc).err(),
            Some(TimeSeriesError::InvalidField(named.to_string()))
        );
    }
    let doc = document(
        object(vec![("1. Information", Json::Number("1".to_string())), ("2. Symbol", text("s"))]),
        vec![],
    );
    assert_eq!(
        TimeSeries::from_json(&doc).err(),
        Some(TimeSeriesError::InvalidField("1. Information".to_string()))
    );
}

#[test]
fn the_interval_may_be_absent_or_null_but_nothing_else() {
    let with = |interval: Json| {
        object(vec![
            ("1. Information", text("i")),
            ("2. Symbol", text("s")),
            ("3. Last Refreshed", text("r")),
            ("4. Interval", interval),
            ("5. Output Size", text("o")),
            ("6. Time Zone", text("z")),
        ])
    };
    let series = TimeSeries::from_json(&document(with(Json::Null), vec![])).unwrap();
    assert_eq!(series.meta_data().interval, None);
    let series = TimeSeries::from_json(&document(with(text("5min")), vec![])).unwrap();
    assert_eq!(series.meta_data().interval, Some("5min".to_string()));
    assert_eq!(
        TimeSeries::from_json(&document(with(Json::Bool(true)), vec![])).err(),
        Some(TimeSeriesError::InvalidField("4. Interval".to_string()))
    );
}

#[test]
fn either_numbering_gives_the_same_description() {
    let numbered = |size: &str, zone: &str| {
        object(vec![
            ("1. Information", text("i")),
            ("2. Symbol", text("s")),
            ("3. Last Refreshed", text("r")),
            (size, text("Full size")),
            (zone, text("UTC")),
        ])
    };
    let low = TimeSeries::from_json(&document(numbered("4. Output Size", "5. Time Zone"), vec![]))
        .unwrap();
    let high = TimeSeries::from_json(&document(numbered("5. Output Size", "6. Time Zone"), vec![]))
        .unwrap();
    assert_eq!(low.meta_data(), high.meta_data());
    assert_eq!(
        *low.meta_data(),
        MetaData {
            information: "i".to_string(),
            symbol: "s".to_string(),
            last_refreshed: "r".to_string(),
            interval: None,
            output_size: "Full size".to_string(),
            time_zone: "UTC".to_string(),
        }
    );
    let mixed = TimeSeries::from_json(&document(numbered("5. Output Size", "5. Time Zone"), vec![]))
        .unwrap();
    assert_eq!(low.meta_data(), mixed.meta_data());
}

#[test]
fn a_key_that_is_no_date_is_named() {
    let doc = document(
        daily_meta(),
        vec![("2024-01-02", bar("1", "2", "3", "4", "5")), ("yesterday", bar("1", "2", "3", "4", "5"))],
    );
    assert_eq!(
        TimeSeries::from_json(&doc).err(),
        Some(TimeSeriesError::UnparseableTimestamp("yesterday".to_string()))
    );
    let doc = document(daily_meta(), vec![("2024-02-30", bar("1", "2", "3", "4", "5"))]);
    assert_eq!(
        TimeSeries::from_json(&doc).err(),
        Some(TimeSeriesError::UnparseableTimestamp("2024-02-30".to_string()))
    );
    let doc = document(daily_meta(), vec![("2024-01-02 25:00:00", bar("1", "2", "3", "4", "5"))]);
    assert_eq!(
        TimeSeries::from_json(&doc).err(),
        Some(TimeSeriesError::UnparseableTimestamp("2024-01-02 25:00:00".to_string()))
    );
}

#[test]
fn the_key_is_read_before_the_fields() {
    let doc = document(daily_meta(), vec![("someday", bar("1", "2", "3", "4", "-5"))]);
    assert_eq!(
        TimeSeries::from_json(&doc).err(),
        Some(TimeSeriesError::UnparseableTimestamp("someday".to_string()))
    );
    let doc = document(
        daily_meta(),
        vec![("2024-01-02", bar("1", "2", "3", "4", "-5")), ("someday", bar("1", "2", "3", "4", "5"))],
    );
    assert_eq!(
        TimeSeries::from_json(&doc).err(),
        Some(TimeSeriesError::InvalidNumber("5. volume".to_string()))
    );
}

#[test]
fn a_volume_must_be_an_unsigned_32_bit_number() {
    let volume_of = |volume: Json| {
        let doc = document(
            daily_meta(),
            vec![(
                "2024-01-02",
                object(vec![
                    ("1. open", text("1")),
                    ("2. high", text("2")),
                    ("3. low", text("3")),
                    ("4. close", text("4")),
                    ("5. volume", volume),
                ]),
            )],
        );
        TimeSeries::from_json(&doc).map(|series| series.bars()[0].1.volume)
    };
    let invalid = Err(TimeSeriesError::InvalidNumber("5. volume".to_string()));
    assert_eq!(volume_of(text("0")), Ok(0));
    assert_eq!(volume_of(text("+17")), Ok(17));
    assert_eq!(volume_of(text("0004294967295")), Ok(4294967295));
    assert_eq!(volume_of(text("4294967296")), invalid);
    assert_eq!(volume_of(text("99999999999999999999999999")), invalid);
    assert_eq!(volume_of(text("")), invalid);
    assert_eq!(volume_of(text("+")), invalid);
    assert_eq!(volume_of(text("-1")), invalid);
    assert_eq!(volume_of(text(" 1")), invalid);
    assert_eq!(volume_of(text("1.0")), invalid);
    assert_eq!(volume_of(text("1_000")), invalid);
    assert_eq!(volume_of(Json::Number("4294967295".to_string())), Ok(4294967295));
    assert_eq!(volume_of(Json::Number("4294967296".to_string())), invalid);
    assert_eq!(volume_of(Json::Number("-3".to_string())), invalid);
    assert_eq!(volume_of(Json::Number("3.0".to_string())), invalid);
    assert_eq!(volume_of(Json::Null), invalid);
    assert_eq!(volume_of(Json::Bool(true)), invalid);
}

#[test]
fn volumes_read_as_rust_reads_them() {
    for sample in ["0", "7", "+7", "007", "4294967295", "4294967296", "", "+", "++1", "-0", "1 ", "١"]
    {
        let doc = document(daily_meta(), vec![("2024-01-02", bar("1", "2", "3", "4", sample))]);
        let ours = TimeSeries::from_json(&doc).ok().map(|series| series.bars()[0].1.volume);
        assert_eq!(ours, sample.parse::<u32>().ok(), "volume text {:?}", sample);
    }
}

#[test]
fn numbers_in_the_document_keep_their_kind() {
    let doc = Json::parse(r#"[0, 17, -4, 2.5, 1e3, 18446744073709551615, "x", null, true, {}]"#);
    assert_eq!(
        doc,
        Some(Json::Array(vec![
            Json::Number("0".to_string()),
            Json::Number("17".to_string()),
            Json::Number("-4".to_string()),
            Json::Number("2.5".to_string()),
            Json::Number("1000.0".to_string()),
            Json::Number("18446744073709551615".to_string()),
            Json::Text("x".to_string()),
            Json::Null,
            Json::Bool(true),
            Json::Object(vec![]),
        ]))
    );
}

#[test]
fn parsing_keeps_every_member_of_an_object() {
    let doc = Json::parse(r#"{"b": {"c": [1, "two"]}, "a": false}"#).unwrap();
    match doc {
        Json::Object(members) => {
            assert_eq!(members.len(), 2);
            let a = members.iter().find(|m| m.0 == "a").unwrap();
            assert_eq!(a.1, Json::Bool(false));
            let b = members.iter().find(|m| m.0 == "b").unwrap();
            assert_eq!(
                b.1,
                Json::Object(vec![(
                    "c".to_string(),
                    Json::Array(vec![Json::Number("1".to_string()), Json::Text("two".to_string())])
                )])
            );
        }
        other => panic!("not an object: {:?}", other),
    }
}

#[test]
fn a_price_must_be_a_text_or_a_number() {
    let fields = vec![
        ("1. open", text("1")),
        ("2. high", Json::Number("2.5".to_string())),
        ("3. low", Json::Bool(false)),
        ("4. close", text("4")),
        ("5. volume", text("5")),
    ];
    assert_eq!(
        TimeSeriesEntry::from_json(&object(fields)).err(),
        Some(TimeSeriesError::InvalidNumber("3. low".to_string()))
    );
    assert_eq!(
        TimeSeriesEntry::from_json(&object(vec![("1. open", text("1"))])).err(),
        Some(TimeSeriesError::InvalidNumber("2. high".to_string()))
    );
    assert_eq!(
        TimeSeriesEntry::from_json(&Json::Null).err(),
        Some(TimeSeriesError::InvalidNumber("1. open".to_string()))
    );
    let entry = TimeSeriesEntry::from_json(&bar("1.5", "2", "x", "", "9")).unwrap();
    assert_eq!(entry.low, quoted("x"));
    assert_eq!(entry.close, quoted(""));
}

#[test]
fn of_two_bars_at_one_moment_the_later_stays() {
    let doc = document(
        daily_meta(),
        vec![
            ("2024-01-03", bar("1", "1", "1", "1", "1")),
            ("2024-01-02", bar("2", "2", "2", "2", "2")),
            ("2024-01-03 00:00:00", bar("3", "3", "3", "3", "3")),
        ],
    );
    let series = TimeSeries::from_json(&doc).unwrap();
    assert_eq!(series.len(), 2);
    assert_eq!(series.bars()[0].0, Timestamp::midnight(2024, 1, 2));
    assert_eq!(series.bars()[1].0, Timestamp::midnight(2024, 1, 3));
    assert_eq!(series.get(&Timestamp::midnight(2024, 1, 3)).unwrap().volume, 3);
    assert_eq!(series.get(&Timestamp::midnight(2024, 1, 2)).unwrap().volume, 2);
    // through the parser too: both keys name one moment
    let text = r#"{
        "Meta Data": {"1. Information": "i", "2. Symbol": "s", "3. Last Refreshed": "r",
                      "4. Output Size": "o", "5. Time Zone": "z"},
        "Time Series (Daily)": {
            "2024-01-03 00:00:00": {"1. open": "3", "2. high": "3", "3. low": "3", "4. close": "3", "5. volume": "3"},
            "2024-01-03": {"1. open": "1", "2. high": "1", "3. low": "1", "4. close": "1", "5. volume": "1"}
        }
    }"#;
    let series = TimeSeries::decode(text).unwrap();
    assert_eq!(series.len(), 1);
}

#[test]
fn projections_follow_the_stamps() {
    let series = TimeSeries::decode(INTRADAY).unwrap();
    let first = Timestamp::new(2024, 1, 2, 9, 31, 0, 0);
    let second = Timestamp::new(2024, 1, 2, 9, 32, 0, 0);
    assert_eq!(series.high(), vec![(first, number("161.75")), (second, quoted("161.2000"))]);
    assert_eq!(series.open(), vec![(first, number("161.5")), (second, quoted("161.1000"))]);
    assert_eq!(series.low(), vec![(first, number("161")), (second, quoted("161.0000"))]);
    assert_eq!(series.close(), vec![(first, number("161.1")), (second, quoted("161.1500"))]);
    assert_eq!(series.volume(), vec![(first, 4521), (second, 1200)]);
}

#[test]
fn keys_are_read_as_days_or_seconds() {
    assert_eq!(parse_timestamp("2024-01-02"), Some(Timestamp::new(2024, 1, 2, 0, 0, 0, 0)));
    assert_eq!(
        parse_timestamp("2024-01-02 09:31:07"),
        Some(Timestamp::new(2024, 1, 2, 9, 31, 7, 0))
    );
    assert_eq!(parse_timestamp("2024-02-29"), Some(Timestamp::new(2024, 2, 29, 0, 0, 0, 0)));
    assert_eq!(parse_timestamp("2023-02-29"), None);
    assert_eq!(parse_timestamp("2024-13-01"), None);
    assert_eq!(parse_timestamp("2024-01-02T09:31:07"), None);
    assert_eq!(parse_timestamp("2024-01-02 09:31"), None);
    assert_eq!(parse_timestamp(""), None);
    assert_eq!(
        parse_timestamp("2016-12-31 23:59:60"),
        Some(Timestamp::new(2016, 12, 31, 23, 59, 59, 1_000_000_000))
    );
}

#[test]
fn kinds_and_intervals_have_the_providers_names() {
    assert_eq!(TimeSeriesType::Intraday(Interval::_5MIN).to_string(), "INTRADAY");
    assert_eq!(TimeSeriesType::Daily.to_string(), "DAILY");
    assert_eq!(TimeSeriesType::DailyAdjusted.to_string(), "DAILY_ADJUSTED");
    assert_eq!(TimeSeriesType::Weekly.to_string(), "WEEKLY");
    assert_eq!(TimeSeriesType::WeeklyAdjusted.to_string(), "WEEKLY_ADJUSTED");
    assert_eq!(TimeSeriesType::Monthly.to_string(), "MONTHLY");
    assert_eq!(TimeSeriesType::MonthlyAdjusted.to_string(), "MONTHLY_ADJUSTED");
    assert_eq!(Interval::_1MIN.to_string(), "1min");
    assert_eq!(Interval::_5MIN.to_string(), "5min");
    assert_eq!(Interval::_15MIN.to_string(), "15min");
    assert_eq!(Interval::_30MIN.to_string(), "30min");
    assert_eq!(Interval::_60MIN.to_string(), "60min");
}

#[test]
fn urls_name_the_kind_the_symbol_and_the_key() {
    let base = "https://www.alphavantage.co/query";
    assert_eq!(
        TimeSeriesType::Daily.url(base, "AAPL", "API_KEY"),
        "https://www.alphavantage.co/query?function=TIME_SERIES_DAILY&symbol=AAPL&apikey=API_KEY"
    );
    assert_eq!(
        TimeSeriesType::Intraday(Interval::_1MIN).url(base, "IBM", "demo"),
        "https://www.alphavantage.co/query?function=TIME_SERIES_INTRADAY&symbol=IBM&apikey=demo&interval=1min"
    );
    assert_eq!(
        TimeSeriesType::MonthlyAdjusted.url("", "", ""),
        "?function=TIME_SERIES_MONTHLY_ADJUSTED&symbol=&apikey="
    );
    assert_eq!(
        TimeSeriesType::Intraday(Interval::_60MIN).url("b", "s", "k"),
        "b?function=TIME_SERIES_INTRADAY&symbol=s&apikey=k&interval=60min"
    );
}

fn as_json(amount: &Amount) -> String {
    match amount {
        Amount::Quoted(text) => format!("\"{}\"", text),
        Amount::Number(numeral) => numeral.clone(),
    }
}

fn serve(series: &TimeSeries, section: &str) -> String {
    let meta = series.meta_data();
    let mut parts: Vec<String> = vec![
        format!("\"1. Information\": \"{}\"", meta.information),
        format!("\"2. Symbol\": \"{}\"", meta.symbol),
        format!("\"3. Last Refreshed\": \"{}\"", meta.last_refreshed),
    ];
    match &meta.interval {
        None => {
            parts.push(format!("\"4. Output Size\": \"{}\"", meta.output_size));
            parts.push(format!("\"5. Time Zone\": \"{}\"", meta.time_zone));
        }
        Some(interval) => {
            parts.push(format!("\"4. Interval\": \"{}\"", interval));
            parts.push(format!("\"5. Output Size\": \"{}\"", meta.output_size));
            parts.push(format!("\"6. Time Zone\": \"{}\"", meta.time_zone));
        }
    }
    let bars: Vec<String> = series
        .bars()
        .iter()
        .map(|(t, e)| {
            format!(
                "\"{:04}-{:02}-{:02} {:02}:{:02}:{:02}\": {{\"1. open\": {}, \"2. high\": {}, \"3. low\": {}, \"4. close\": {}, \"5. volume\": \"{}\"}}",
                t.year, t.month, t.day, t.hour, t.minute, t.second,
                as_json(&e.open), as_json(&e.high), as_json(&e.low), as_json(&e.close), e.volume
            )
        })
        .collect();
    format!(
        "{{\"Meta Data\": {{{}}}, \"{}\": {{{}}}}}",
        parts.join(", "),
        section,
        bars.join(", ")
    )
}

#[test]
fn a_series_is_decoded_again_from_what_it_is_served_as() {
    for text in [DAILY, INTRADAY] {
        let series = TimeSeries::decode(text).unwrap();
        let again = TimeSeries::decode(&serve(&series, "Time Series")).unwrap();
        assert_eq!(again, series);
        assert_eq!(again.meta_data(), series.meta_data());
        assert_eq!(again.bars(), series.bars());
        let once_more = TimeSeries::decode(&serve(&again, "Weekly Time Series")).unwrap();
        assert_eq!(once_more, series);
    }
}

#[test]
fn whole_numbers_are_read_digit_by_digit() {
    assert_eq!(parse_unsigned("0"), Some(0));
    assert_eq!(parse_unsigned("+0"), Some(0));
    assert_eq!(parse_unsigned("12345"), Some(12345));
    assert_eq!(parse_unsigned("4294967295"), Some(u32::MAX));
    assert_eq!(parse_unsigned("4294967296"), None);
    assert_eq!(parse_unsigned("42949672950"), None);
    assert_eq!(parse_unsigned("12a"), None);
    assert_eq!(parse_unsigned("é"), None);
    assert_eq!(parse_unsigned_digits("+1"), None);
    assert_eq!(parse_unsigned_digits("1"), Some(1));
    assert_eq!(parse_unsigned_digits(""), None);
    for n in [0u32, 1, 9, 10, 99, 100, 65535, 65536, 999999999, 1000000000, u32::MAX] {
        assert_eq!(parse_unsigned(&n.to_string()), Some(n));
        assert_eq!(parse_unsigned_digits(&n.to_string()), Some(n));
    }
}

#[test]
fn every_day_of_a_leap_year_is_read_back() {
    let lengths = [31u32, 29, 31, 30, 31, 30, 31, 31, 30, 31, 30, 31];
    for (m, days) in lengths.iter().enumerate() {
        let month = m as u32 + 1;
        for day in 1..=*days {
            let key = format!("2024-{:02}-{:02}", month, day);
            assert_eq!(parse_timestamp(&key), Some(Timestamp::midnight(2024, month, day)));
            let key = format!("2024-{:02}-{:02} 23:59:59", month, day);
            assert_eq!(parse_timestamp(&key), Some(Timestamp::new(2024, month, day, 23, 59, 59, 0)));
        }
        let key = format!("2024-{:02}-{:02}", month, days + 1);
        assert_eq!(parse_timestamp(&key), None);
    }
}

#[test]
fn a_key_that_reads_as_a_day_names_its_first_instant() {
    let second = Timestamp::new(2024, 1, 2, 9, 31, 0, 0);
    assert_eq!(moment(Some((2024, 1, 2)), None), Some(Timestamp::midnight(2024, 1, 2)));
    assert_eq!(moment(Some((2024, 1, 2)), Some(second)), Some(Timestamp::midnight(2024, 1, 2)));
    assert_eq!(moment(None, Some(second)), Some(second));
    assert_eq!(moment(None, None), None);
}

#[test]
fn a_bar_hands_out_each_of_its_prices() {
    let entry = TimeSeriesEntry::from_json(&bar("1", "2", "3", "4", "5")).unwrap();
    assert_eq!(*entry.price(Price::Open), quoted("1"));
    assert_eq!(*entry.price(Price::High), quoted("2"));
    assert_eq!(*entry.price(Price::Low), quoted("3"));
    assert_eq!(*entry.price(Price::Close), quoted("4"));
    assert_eq!(entry.price(Price::Close).duplicate(), quoted("4"));
    let series = TimeSeries::decode(DAILY).unwrap();
    assert_eq!(series.prices(Price::Low), series.low());
}

#[test]
fn intraday_requests_know_the_interval_by_its_own_name() {
    let width: IntradayInterval = IntradayInterval::_15MIN;
    assert_eq!(width, Interval::_15MIN);
    assert_eq!(width.to_string(), "15min");
    assert_eq!(
        TimeSeriesType::Intraday(width).url("u", "s", "k"),
        "u?function=TIME_SERIES_INTRADAY&symbol=s&apikey=k&interval=15min"
    );
}
