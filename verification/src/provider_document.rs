//! The shape in which the provider serves a series, and the laws that tie
//! the decoder to it.

use crate::ascending::lemma_rank_at_boundary;
use crate::decimal::{decimal_digits, lemma_unsigned_round_trip};
use crate::json::JsonView;
use crate::time_series::{
    bar_of, bars_of, chronological, entry_of, is_data_section, keys_distinct,
    lemma_description_keys_differ,
    lemma_member_absent, lemma_member_found, lemma_output_size_numbering,
    lemma_time_zone_numbering, member, meta_data_of, put, stamp_of_key, time_series_of,
    volume_of, AmountView, MetaDataView, TimeSeriesEntryView, TimeSeriesErrorView,
    TimeSeriesView, CLOSE, HIGH, INFORMATION, INTERVAL, LAST_REFRESHED, LOW, META_DATA, OPEN,
    OUTPUT_SIZE_4, OUTPUT_SIZE_5, SYMBOL, TIME_ZONE_5, TIME_ZONE_6, VOLUME,
};
use crate::timestamp::Timestamp;
use vstd::prelude::*;

verus! {

/// A price as it stands in a document.
pub open spec fn amount_json(amount: AmountView) -> JsonView {
    match amount {
        AmountView::Quoted(text) => JsonView::Text(text),
        AmountView::Number(numeral) => JsonView::Number(numeral),
    }
}

/// A bar as the provider serves it: the five numbered fields, with the
/// volume in the writing given.
pub open spec fn entry_json(entry: TimeSeriesEntryView, volume: JsonView) -> JsonView {
    JsonView::Object(
        seq![
            (OPEN@, amount_json(entry.open)),
            (HIGH@, amount_json(entry.high)),
            (LOW@, amount_json(entry.low)),
            (CLOSE@, amount_json(entry.close)),
            (VOLUME@, volume),
        ],
    )
}

/// The volume as the provider writes it: quoted decimal digits.
pub open spec fn volume_json(volume: u32) -> JsonView {
    JsonView::Text(decimal_digits(volume as nat))
}

/// The members of a description as the provider serves it: output size and
/// time zone are numbered 4 and 5 where there is no interval, and 5 and 6
/// behind the interval where there is one.
pub open spec fn meta_data_members(meta_data: MetaDataView) -> Seq<(Seq<char>, JsonView)> {
    match meta_data.interval {
        None => seq![
            (INFORMATION@, JsonView::Text(meta_data.information)),
            (SYMBOL@, JsonView::Text(meta_data.symbol)),
            (LAST_REFRESHED@, JsonView::Text(meta_data.last_refreshed)),
            (OUTPUT_SIZE_4@, JsonView::Text(meta_data.output_size)),
            (TIME_ZONE_5@, JsonView::Text(meta_data.time_zone)),
        ],
        Some(interval) => seq![
            (INFORMATION@, JsonView::Text(meta_data.information)),
            (SYMBOL@, JsonView::Text(meta_data.symbol)),
            (LAST_REFRESHED@, JsonView::Text(meta_data.last_refreshed)),
            (INTERVAL@, JsonView::Text(interval)),
            (OUTPUT_SIZE_5@, JsonView::Text(meta_data.output_size)),
            (TIME_ZONE_6@, JsonView::Text(meta_data.time_zone)),
        ],
    }
}

/// The members of the series section: each bar under the key written for
/// its stamp, its volume in the writing chosen for it.
pub open spec fn bars_members(
    bars: Seq<(Timestamp, TimeSeriesEntryView)>,
    keys: Seq<Seq<char>>,
    volumes: Seq<JsonView>,
) -> Seq<(Seq<char>, JsonView)>
    recommends
        keys.len() == bars.len(),
        volumes.len() == bars.len(),
{
    Seq::new(bars.len(), |i: int| (keys[i], entry_json(bars[i].1, volumes[i])))
}

/// A series as the provider serves it: the description, and the bars in a
/// section of the given name, each under the key written for its stamp and
/// with its volume in the writing chosen for it.
pub open spec fn document_of(
    series: TimeSeriesView,
    section: Seq<char>,
    keys: Seq<Seq<char>>,
    volumes: Seq<JsonView>,
) -> JsonView
    recommends
        keys.len() == series.bars.len(),
        volumes.len() == series.bars.len(),
{
    JsonView::Object(
        seq![
            (META_DATA@, JsonView::Object(meta_data_members(series.meta_data))),
            (section, JsonView::Object(bars_members(series.bars, keys, volumes))),
        ],
    )
}

/// Whether the members of a series section write the bars, one member to a
/// bar and in their order: each key is read as the stamp of its bar, and
/// each value as the bar.
pub open spec fn writes_bars(
    members: Seq<(Seq<char>, JsonView)>,
    bars: Seq<(Timestamp, TimeSeriesEntryView)>,
) -> bool {
    &&& members.len() == bars.len()
    &&& forall|i: int|
        0 <= i < members.len() ==> bar_of(#[trigger] members[i]) == Ok::<
            (Timestamp, TimeSeriesEntryView),
            TimeSeriesErrorView,
        >(bars[i])
}

/// The keys of the fields of a bar differ from one another.
pub proof fn lemma_bar_keys_differ()
    ensures
        OPEN@.len() > 0 && OPEN@[0] == '1',
        HIGH@.len() > 0 && HIGH@[0] == '2',
        LOW@.len() > 0 && LOW@[0] == '3',
        CLOSE@.len() > 0 && CLOSE@[0] == '4',
        VOLUME@.len() > 0 && VOLUME@[0] == '5',
{
    reveal_strlit("1. open");
    reveal_strlit("2. high");
    reveal_strlit("3. low");
    reveal_strlit("4. close");
    reveal_strlit("5. volume");
}

/// A bar is decoded again from the fields it is served in, whatever the
/// writing of its volume.
pub proof fn lemma_entry_round_trip(entry: TimeSeriesEntryView, volume: JsonView)
    requires
        volume_of(volume) == Some(entry.volume),
    ensures
        entry_of(entry_json(entry, volume)) == Ok::<TimeSeriesEntryView, TimeSeriesErrorView>(
            entry,
        ),
{
    let fields = entry_json(entry, volume)->Object_0;
    lemma_bar_keys_differ();
    lemma_member_found(fields, OPEN@, 0);
    lemma_member_found(fields, HIGH@, 1);
    lemma_member_found(fields, LOW@, 2);
    lemma_member_found(fields, CLOSE@, 3);
    lemma_member_found(fields, VOLUME@, 4);
}

/// The provider's writing of a volume is read back as the volume, and so
/// is the volume written as a JSON number.
pub proof fn lemma_volume_round_trip(volume: u32)
    ensures
        volume_of(volume_json(volume)) == Some(volume),
        volume_of(JsonView::Number(decimal_digits(volume as nat))) == Some(volume),
{
    lemma_unsigned_round_trip(volume);
}

/// A description is decoded again from the members it is served in.
pub proof fn lemma_meta_data_round_trip(meta_data: MetaDataView)
    ensures
        meta_data_of(meta_data_members(meta_data)) == Ok::<MetaDataView, TimeSeriesErrorView>(
            meta_data,
        ),
{
    let members = meta_data_members(meta_data);
    lemma_description_keys_differ();
    lemma_member_found(members, INFORMATION@, 0);
    lemma_member_found(members, SYMBOL@, 1);
    lemma_member_found(members, LAST_REFRESHED@, 2);
    match meta_data.interval {
        None => {
            lemma_member_absent(members, INTERVAL@);
            lemma_member_found(members, OUTPUT_SIZE_4@, 3);
            lemma_member_found(members, TIME_ZONE_5@, 4);
        },
        Some(_) => {
            lemma_member_found(members, INTERVAL@, 3);
            lemma_member_absent(members, OUTPUT_SIZE_4@);
            lemma_member_found(members, OUTPUT_SIZE_5@, 4);
            lemma_member_absent(members, TIME_ZONE_5@);
            lemma_member_found(members, TIME_ZONE_6@, 5);
        },
    }
}

/// Bars in the order of their stamps are decoded from any members that
/// write them.
pub proof fn lemma_bars_round_trip(
    bars: Seq<(Timestamp, TimeSeriesEntryView)>,
    members: Seq<(Seq<char>, JsonView)>,
)
    requires
        chronological(bars),
        writes_bars(members, bars),
    ensures
        bars_of(members) == Ok::<Seq<(Timestamp, TimeSeriesEntryView)>, TimeSeriesErrorView>(
            bars,
        ),
    decreases bars.len(),
{
    if bars.len() == 0 {
        assert(bars =~= Seq::empty());
    } else {
        let front = bars.drop_last();
        let front_members = members.drop_last();
        assert forall|i: int, j: int| 0 <= i < j < front.len() implies (#[trigger] front[i]).0.precedes(
            &(#[trigger] front[j]).0,
        ) by {
            assert(front[i] == bars[i] && front[j] == bars[j]);
        }
        assert forall|i: int| 0 <= i < front_members.len() implies bar_of(
            #[trigger] front_members[i],
        ) == Ok::<(Timestamp, TimeSeriesEntryView), TimeSeriesErrorView>(front[i]) by {
            assert(front_members[i] == members[i]);
            assert(front[i] == bars[i]);
        }
        lemma_bars_round_trip(front, front_members);
        let (stamp, entry) = bars.last();
        assert(bar_of(members[members.len() - 1]) == Ok::<
            (Timestamp, TimeSeriesEntryView),
            TimeSeriesErrorView,
        >(bars[bars.len() - 1]));
        assert forall|i: int| 0 <= i < front.len() implies (#[trigger] front[i]).0.precedes(
            &stamp,
        ) by {
            assert(front[i] == bars[i]);
            assert(bars[i].0.precedes(&bars[bars.len() - 1].0));
        }
        lemma_rank_at_boundary(front, stamp, front.len() as int);
        assert(put(front, stamp, entry) =~= bars);
    }
}

/// The provider's members write the bars wherever each key is read back as
/// its stamp and each writing of a volume as the volume.
pub proof fn lemma_bars_members_write(
    bars: Seq<(Timestamp, TimeSeriesEntryView)>,
    keys: Seq<Seq<char>>,
    volumes: Seq<JsonView>,
)
    requires
        keys.len() == bars.len(),
        volumes.len() == bars.len(),
        forall|i: int| 0 <= i < keys.len() ==> stamp_of_key(#[trigger] keys[i]) == Some(bars[i].0),
        forall|i: int|
            0 <= i < volumes.len() ==> volume_of(#[trigger] volumes[i]) == Some(bars[i].1.volume),
    ensures
        writes_bars(bars_members(bars, keys, volumes), bars),
{
    let members = bars_members(bars, keys, volumes);
    assert forall|i: int| 0 <= i < members.len() implies bar_of(#[trigger] members[i]) == Ok::<
        (Timestamp, TimeSeriesEntryView),
        TimeSeriesErrorView,
    >(bars[i]) by {
        assert(members[i] == (keys[i], entry_json(bars[i].1, volumes[i])));
        assert(stamp_of_key(keys[i]) == Some(bars[i].0));
        assert(volume_of(volumes[i]) == Some(bars[i].1.volume));
        lemma_entry_round_trip(bars[i].1, volumes[i]);
    }
}

/// The sections of a document that holds the description and one more
/// member.
proof fn lemma_sections_of_pair(description: JsonView, other: (Seq<char>, JsonView))
    requires
        other.0 != META_DATA@,
    ensures
        seq![(META_DATA@, description), other].filter(
            |m: (Seq<char>, JsonView)| is_data_section(m),
        ) == seq![other],
{
    let is_section = |m: (Seq<char>, JsonView)| is_data_section(m);
    let first = (META_DATA@, description);
    let none = Seq::<(Seq<char>, JsonView)>::empty();
    assert(none.filter(is_section) =~= none) by {
        none.lemma_filter_len(is_section);
    }
    none.lemma_filter_push(first, is_section);
    none.push(first).lemma_filter_push(other, is_section);
    assert(seq![first, other] =~= none.push(first).push(other));
    assert(none.push(other) =~= seq![other]);
}

/// A series is decoded from every document that writes it: a description
/// that is read as the series' own, and beside it one section, under any
/// name, whose members write the bars in the order of their stamps.
pub proof fn lemma_decode_of_written(
    series: TimeSeriesView,
    section: Seq<char>,
    description: Seq<(Seq<char>, JsonView)>,
    members: Seq<(Seq<char>, JsonView)>,
)
    requires
        chronological(series.bars),
        section != META_DATA@,
        meta_data_of(description) == Ok::<MetaDataView, TimeSeriesErrorView>(series.meta_data),
        writes_bars(members, series.bars),
    ensures
        time_series_of(
            JsonView::Object(
                seq![
                    (META_DATA@, JsonView::Object(description)),
                    (section, JsonView::Object(members)),
                ],
            ),
        ) == Ok::<TimeSeriesView, TimeSeriesErrorView>(series),
{
    let other = (section, JsonView::Object(members));
    let top = seq![(META_DATA@, JsonView::Object(description)), other];
    lemma_member_found(top, META_DATA@, 0);
    lemma_sections_of_pair(JsonView::Object(description), other);
    lemma_bars_round_trip(series.bars, members);
}

/// Decoding gives back what was served: a series whose bars stand in the
/// order of their stamps is decoded again from the document in which the
/// provider serves it, whatever the name of the section of the bars, where
/// the key written for each bar is read back as its stamp and the writing
/// of each volume as the volume.
pub proof fn lemma_decode_round_trip(
    series: TimeSeriesView,
    section: Seq<char>,
    keys: Seq<Seq<char>>,
    volumes: Seq<JsonView>,
)
    requires
        chronological(series.bars),
        section != META_DATA@,
        keys.len() == series.bars.len(),
        volumes.len() == series.bars.len(),
        forall|i: int|
            0 <= i < keys.len() ==> stamp_of_key(#[trigger] keys[i]) == Some(series.bars[i].0),
        forall|i: int|
            0 <= i < volumes.len() ==> volume_of(#[trigger] volumes[i]) == Some(
                series.bars[i].1.volume,
            ),
    ensures
        time_series_of(document_of(series, section, keys, volumes)) == Ok::<
            TimeSeriesView,
            TimeSeriesErrorView,
        >(series),
{
    lemma_meta_data_round_trip(series.meta_data);
    lemma_bars_members_write(series.bars, keys, volumes);
    lemma_decode_of_written(
        series,
        section,
        meta_data_members(series.meta_data),
        bars_members(series.bars, keys, volumes),
    );
}

/// Two documents with distinct keys that differ only in the numbering of
/// the output size, or only in that of the time zone, are decoded alike: to
/// the same series, or to the same fault. The description is the `at`-th
/// member of the document, and the renumbered part the `part`-th member of
/// the description.
pub proof fn lemma_numbering_in_document(
    top: Seq<(Seq<char>, JsonView)>,
    at: int,
    members: Seq<(Seq<char>, JsonView)>,
    part: int,
)
    requires
        0 <= at < top.len(),
        top[at] == (META_DATA@, JsonView::Object(members)),
        keys_distinct(top),
        0 <= part < members.len(),
        keys_distinct(members),
    ensures
        members[part].0 == OUTPUT_SIZE_4@ && keys_distinct(
            members.update(part, (OUTPUT_SIZE_5@, members[part].1)),
        ) ==> time_series_of(
            JsonView::Object(
                top.update(
                    at,
                    (
                        META_DATA@,
                        JsonView::Object(members.update(part, (OUTPUT_SIZE_5@, members[part].1))),
                    ),
                ),
            ),
        ) == time_series_of(JsonView::Object(top)),
        members[part].0 == TIME_ZONE_5@ && keys_distinct(
            members.update(part, (TIME_ZONE_6@, members[part].1)),
        ) ==> time_series_of(
            JsonView::Object(
                top.update(
                    at,
                    (
                        META_DATA@,
                        JsonView::Object(members.update(part, (TIME_ZONE_6@, members[part].1))),
                    ),
                ),
            ),
        ) == time_series_of(JsonView::Object(top)),
{
    assert forall|i: int| 0 <= i < top.len() && i != at implies (#[trigger] top[i]).0
        != META_DATA@ by {
        if i < at {
            assert(top[i].0 != top[at].0);
        } else {
            assert(top[at].0 != top[i].0);
        }
    }
    if members[part].0 == OUTPUT_SIZE_4@ {
        let renumbered = members.update(part, (OUTPUT_SIZE_5@, members[part].1));
        if keys_distinct(renumbered) {
            lemma_output_size_numbering(members, part);
            lemma_description_replaced(top, at, JsonView::Object(renumbered));
        }
    }
    if members[part].0 == TIME_ZONE_5@ {
        let renumbered = members.update(part, (TIME_ZONE_6@, members[part].1));
        if keys_distinct(renumbered) {
            lemma_time_zone_numbering(members, part);
            lemma_description_replaced(top, at, JsonView::Object(renumbered));
        }
    }
}

/// Putting another description in place of the only one leaves the other
/// sections as they are, and the new description is the one found.
proof fn lemma_description_replaced(top: Seq<(Seq<char>, JsonView)>, at: int, description: JsonView)
    requires
        0 <= at < top.len(),
        top[at].0 == META_DATA@,
        forall|i: int| 0 <= i < top.len() && i != at ==> (#[trigger] top[i]).0 != META_DATA@,
    ensures
        member(top, META_DATA@) == Some(top[at].1),
        member(top.update(at, (META_DATA@, description)), META_DATA@) == Some(description),
        top.update(at, (META_DATA@, description)).filter(
            |m: (Seq<char>, JsonView)| is_data_section(m),
        ) == top.filter(|m: (Seq<char>, JsonView)| is_data_section(m)),
{
    let is_section = |m: (Seq<char>, JsonView)| is_data_section(m);
    let changed = top.update(at, (META_DATA@, description));
    lemma_member_found(top, META_DATA@, at);
    assert forall|i: int| 0 <= i < at implies (#[trigger] changed[i]).0 != META_DATA@ by {
        assert(changed[i] == top[i]);
    }
    lemma_member_found(changed, META_DATA@, at);
    let before = top.take(at);
    let behind = top.skip(at + 1);
    let none = Seq::<(Seq<char>, JsonView)>::empty();
    assert(none.filter(is_section) =~= none) by {
        none.lemma_filter_len(is_section);
    }
    assert(top =~= before.push(top[at]) + behind);
    assert(changed =~= before.push(changed[at]) + behind);
    before.lemma_filter_push(top[at], is_section);
    before.lemma_filter_push(changed[at], is_section);
    Seq::filter_distributes_over_add(before.push(top[at]), behind, is_section);
    Seq::filter_distributes_over_add(before.push(changed[at]), behind, is_section);
}

} // verus!
