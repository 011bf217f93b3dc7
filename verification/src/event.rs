//! An event: a date paired with a free-text description, parsed from one line
//! of text and serialized back to file or display form.

use crate::date::{parse_spec, Date, WlError};
use vstd::prelude::*;

verus! {

/// The mathematical content of an event: its date and the characters of its
/// description.
pub ghost struct EventView {
    pub date: Date,
    pub description: Seq<char>,
}

/// An event on the worldline.
#[derive(Debug, PartialEq, Eq)]
pub struct Event {
    pub date: Date,
    pub description: String,
}

impl View for Event {
    type V = EventView;

    open spec fn view(&self) -> EventView {
        EventView { date: self.date, description: self.description@ }
    }
}

impl DeepView for Event {
    type V = EventView;

    open spec fn deep_view(&self) -> EventView {
        self.view()
    }
}

/// The line written to the file for an event: the date with its era prefix,
/// one space, then the description.
pub open spec fn file_line(e: EventView) -> Seq<char> {
    e.date.format_spec(true) + seq![' '] + e.description
}

/// The line shown on a terminal: the date wrapped in a foreground color
/// marker, then a space and the description.
pub open spec fn display_line(e: EventView, display_era: bool) -> Seq<char> {
    seq!['\u{001B}', '[', '3', '4', 'm'] + e.date.format_spec(display_era) + seq![
        '\u{001B}',
        '[',
        '0',
        'm',
        ' ',
    ] + e.description
}

impl Event {
    pub fn new(date: Date, description: String) -> (r: Event)
        ensures
            r.date == date,
            r.description == description,
    {
        Event { date, description }
    }

    /// Parse one line: a leading date, then the rest of the line verbatim as
    /// the description.
    pub fn parse(event_string: &str) -> (r: Result<Event, WlError>)
        ensures
            (match parse_spec(event_string@) {
                Ok(p) => r matches Ok(ev) && ev.date == p.0 && ev.description@
                    == event_string@.subrange(p.1, event_string@.len() as int),
                Err(e) => r matches Err(e2) && e2 == e,
            }),
            (r matches Ok(ev) ==> ev.date.valid()),
    {
        match Date::parse(event_string) {
            Ok((date, index)) => {
                let n = event_string.unicode_len();
                let description = event_string.substring_char(index, n).to_owned();
                Ok(Event { date, description })
            },
            Err(e) => Err(e),
        }
    }

    /// The event's line in file form; the era is always written so that the
    /// sign of the year survives a round trip through the file.
    pub fn format_for_file(&self) -> (r: String)
        requires
            self.date.valid(),
        ensures
            r@ == file_line(self@),
    {
        proof {
            reveal_strlit(" ");
        }
        let mut s = self.date.format(true);
        s.append(" ");
        s.append(self.description.as_str());
        proof {
            assert(s@ =~= file_line(self@));
        }
        s
    }

    /// The event's line in display form, colored for a terminal.
    pub fn format_for_display(&self, display_era: bool) -> (r: String)
        requires
            self.date.valid(),
        ensures
            r@ == display_line(self@, display_era),
    {
        proof {
            reveal_strlit("\u{001B}[34m");
            reveal_strlit("\u{001B}[0m ");
        }
        let mut s = String::from_str("\u{001B}[34m");
        let df = self.date.format(display_era);
        s.append(df.as_str());
        s.append("\u{001B}[0m ");
        s.append(self.description.as_str());
        proof {
            assert(s@ =~= display_line(self@, display_era));
        }
        s
    }
}

} // verus!
