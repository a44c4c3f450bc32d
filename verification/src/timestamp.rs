//! Points in time as the history records them: an instant and the offset
//! from Greenwich it was seen at. The `chrono` crate reads the clock and
//! writes and reads the text; what it computes is known here by name only.

use vstd::prelude::*;

verus! {

/// The text that `chrono` writes for the instant `secs` seconds after the
/// start of 1970 in Greenwich, seen `offset` seconds east of it, in the layout
/// `layout`. It is `None` where `chrono` has no such instant or offset, or
/// cannot follow the layout.
pub uninterp spec fn formatted_time(secs: int, offset: int, layout: Seq<char>) -> Option<Seq<char>>;

/// The instant and the offset that `chrono` reads from `text` in the layout
/// `layout`: seconds after the start of 1970 in Greenwich, and seconds east of
/// it. It is `None` where `text` does not follow the layout or names no time.
pub uninterp spec fn parsed_time(text: Seq<char>, layout: Seq<char>) -> Option<(int, int)>;

/// Calls `DateTime::format` of `chrono` on the instant `secs`, moved to the
/// zone `offset` seconds east, and collects what it writes. The contract
/// gives the text the name `formatted_time` and claims nothing else of it.
/// `FixedOffset::east_opt` and `DateTime::from_timestamp` turn the two
/// numbers into `chrono`'s values and refuse what is out of their range.
#[verifier::external_body]
fn format_time(secs: i64, offset: i32, layout: &str) -> (text: Option<String>)
    ensures
        match text {
            Some(t) => formatted_time(secs as int, offset as int, layout@) == Some(t@),
            None => formatted_time(secs as int, offset as int, layout@) is None,
        },
{
    let zone = chrono::FixedOffset::east_opt(offset)?;
    let instant = chrono::DateTime::from_timestamp(secs, 0)?;
    let mut text = String::new();
    instant.with_timezone(&zone).format(layout).write_to(&mut text).ok()?;
    Some(text)
}

/// Calls `DateTime::parse_from_str` of `chrono`. The contract gives the
/// instant and offset that it reads the name `parsed_time` and claims nothing
/// else of them; a fraction of a second is dropped.
#[verifier::external_body]
fn parse_time(text: &str, layout: &str) -> (time: Option<(i64, i32)>)
    ensures
        match time {
            Some(t) => parsed_time(text@, layout@) == Some((t.0 as int, t.1 as int)),
            None => parsed_time(text@, layout@) is None,
        },
{
    match chrono::DateTime::parse_from_str(text, layout) {
        Ok(time) => Some((time.timestamp(), time.offset().local_minus_utc())),
        Err(_) => None,
    }
}

/// Calls `Local::now` of `chrono`: the instant that the system clock shows
/// and the offset of the machine's time zone at it. Nothing is claimed of the
/// two numbers. `chrono` gives up where the clock shows a time before 1970 or
/// the machine's time zone cannot be made out.
#[verifier::external_body]
fn read_clock() -> (reading: (i64, i32)) {
    let now = chrono::Local::now();
    (now.timestamp(), now.offset().local_minus_utc())
}

/// The layout of the time field of a history line: date, time of day and
/// offset, as in `2021-03-04 05:06:07 +0700`.
pub fn time_layout() -> (layout: &'static str)
    ensures
        layout@ == time_layout_of(),
{
    "%Y-%m-%d %H:%M:%S %z"
}

/// The layout of the time field of a history line.
pub open spec fn time_layout_of() -> Seq<char> {
    "%Y-%m-%d %H:%M:%S %z"@
}

/// A `Timestamp` as a mathematical value.
pub struct TimestampView {
    pub secs: int,
    pub offset: int,
}

/// The time field that `time` is written as.
pub open spec fn text_of_time(time: TimestampView) -> Seq<char> {
    formatted_time(time.secs, time.offset, time_layout_of())->0
}

/// `time` can be written as a time field.
pub open spec fn writable(time: TimestampView) -> bool {
    formatted_time(time.secs, time.offset, time_layout_of()) is Some
}

/// The time that the time field `text` holds, if it holds one that can be
/// written again.
pub open spec fn time_of_text(text: Seq<char>) -> Option<TimestampView> {
    match parsed_time(text, time_layout_of()) {
        Some((secs, offset)) => {
            let time = TimestampView { secs, offset };
            if writable(time) {
                Some(time)
            } else {
                None
            }
        },
        None => None,
    }
}

/// The time with these two numbers, if it can be written as a time field:
/// what `Timestamp::new` makes of them.
pub open spec fn time_of_numbers(secs: int, offset: int) -> Option<TimestampView> {
    let time = TimestampView { secs, offset };
    if writable(time) {
        Some(time)
    } else {
        None
    }
}

/// The time in `time`, if there is one, as a mathematical value.
pub open spec fn time_in(time: Option<Timestamp>) -> Option<TimestampView> {
    match time {
        Some(t) => Some(t@),
        None => None,
    }
}

/// An instant, in whole seconds, and the offset from Greenwich it was seen
/// at. Every `Timestamp` can be written as a time field.
#[derive(Clone, Copy, Debug, PartialEq, Eq)]
pub struct Timestamp {
    secs: i64,
    offset: i32,
}

impl View for Timestamp {
    type V = TimestampView;

    closed spec fn view(&self) -> TimestampView {
        TimestampView { secs: self.secs as int, offset: self.offset as int }
    }
}

impl Timestamp {
    #[verifier::type_invariant]
    spec fn can_be_written(self) -> bool {
        writable(self@)
    }

    /// The instant `secs` seconds after the start of 1970 in Greenwich, seen
    /// `offset` seconds east of it, where that can be written as a time
    /// field.
    pub fn new(secs: i64, offset: i32) -> (time: Option<Timestamp>)
        ensures
            match time {
                Some(t) => t@ == (TimestampView { secs: secs as int, offset: offset as int })
                    && writable(t@),
                None => !writable(TimestampView { secs: secs as int, offset: offset as int }),
            },
            time_in(time) == time_of_numbers(secs as int, offset as int),
    {
        match format_time(secs, offset, time_layout()) {
            Some(_) => Some(Timestamp { secs, offset }),
            None => None,
        }
    }

    /// Reads a time field.
    pub fn parse(text: &str) -> (time: Option<Timestamp>)
        ensures
            match time {
                Some(t) => time_of_text(text@) == Some(t@),
                None => time_of_text(text@) is None,
            },
    {
        match parse_time(text, time_layout()) {
            Some((secs, offset)) => Timestamp::new(secs, offset),
            None => None,
        }
    }

    /// Seconds after the start of 1970 in Greenwich.
    pub fn secs(&self) -> (secs: i64)
        ensures
            secs == self@.secs,
    {
        self.secs
    }

    /// Seconds east of Greenwich.
    pub fn offset(&self) -> (offset: i32)
        ensures
            offset == self@.offset,
    {
        self.offset
    }

    /// Writes the time field of this time.
    pub fn text(&self) -> (text: String)
        ensures
            writable(self@),
            text@ == text_of_time(self@),
    {
        proof {
            use_type_invariant(self);
        }
        match format_time(self.secs, self.offset, time_layout()) {
            Some(text) => text,
            None => vstd::pervasive::unreached(),
        }
    }
}

/// The time that the system clock shows, in whole seconds, with the offset of
/// the machine's time zone; `None` where it cannot be written as a time
/// field. Which numbers the clock shows is not known beforehand: the answer
/// is what `Timestamp::new` makes of the two numbers that it did show.
///
/// The clock is read by `chrono`, which gives up, and does not return, where
/// the clock shows a time before 1970 or the machine's time zone cannot be
/// made out; no answer of this function stands for that.
pub fn time_now() -> (now: Option<Timestamp>)
    ensures
        now matches Some(t) ==> writable(t@),
        exists|secs: i64, offset: i32|
            time_in(now) == #[trigger] time_of_numbers(secs as int, offset as int),
{
    let (secs, offset) = read_clock();
    let now = Timestamp::new(secs, offset);
    assert(time_in(now) == time_of_numbers(secs as int, offset as int));
    now
}

} // verus!
