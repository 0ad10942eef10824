//! Lines of the log and the file of the day that they belong to.
use vstd::prelude::*;
use vstd::string::*;

use crate::clock::{
    fields_of, format_year, law_year_reads_back, representable, utc_fields, year_text, UtcFields,
};
use crate::text::{
    chars_of, decimal2, digits_value, lemma_decimal2_len, lemma_decimal2_value, push_decimal2, same,
};

verus! {

/// An instant as YYYY-MM-DDTHH:MM:SSZ.
pub open spec fn stamp(f: UtcFields) -> Seq<char> {
    year_text(f.year as int) + "-"@ + decimal2(f.month as nat) + "-"@ + decimal2(f.day as nat) + "T"@
        + decimal2(f.hour as nat) + ":"@ + decimal2(f.minute as nat) + ":"@ + decimal2(f.second as nat) + "Z"@
}

/// Writes an instant as YYYY-MM-DDTHH:MM:SSZ.
pub fn timestamp(ms: i64) -> (r: String)
    requires
        representable(ms as int),
    ensures
        r@ == stamp(fields_of(ms as int)),
{
    let f = utc_fields(ms);
    let mut s = format_year(f.year);
    s.append("-");
    push_decimal2(&mut s, f.month as u64);
    s.append("-");
    push_decimal2(&mut s, f.day as u64);
    s.append("T");
    push_decimal2(&mut s, f.hour as u64);
    s.append(":");
    push_decimal2(&mut s, f.minute as u64);
    s.append(":");
    push_decimal2(&mut s, f.second as u64);
    s.append("Z");
    s
}

/// A line of the log: when, how grave, from where, and what.
pub fn log_line(ms: i64, level: &str, target: &str, message: &str) -> (r: String)
    requires
        representable(ms as int),
    ensures
        r@ == "["@ + stamp(fields_of(ms as int)) + " "@ + level@ + " "@ + target@ + "] "@ + message@,
{
    let mut s = "[".to_owned();
    s.append(timestamp(ms).as_str());
    s.append(" ");
    s.append(level);
    s.append(" ");
    s.append(target);
    s.append("] ");
    s.append(message);
    s
}

/// The day whose file is open.
#[derive(Debug)]
pub struct DailyFile {
    pub current_date: String,
}

impl DailyFile {
    /// No file is open yet.
    pub fn new() -> (r: Self)
        ensures
            r.current_date@ == Seq::<char>::empty(),
    {
        DailyFile { current_date: String::new() }
    }

    /// Whether the file of `today` has to be opened before a line is written: the
    /// day has changed, or no file is open. From then on `today` is the day whose
    /// file is open.
    pub fn rotate(&mut self, today: &str, file_open: bool) -> (reopen: bool)
        ensures
            reopen == (today@ != old(self).current_date@ || !file_open),
            final(self).current_date@ == today@,
    {
        if file_open && same(today, self.current_date.as_str()) {
            return false;
        }
        self.current_date = today.to_owned();
        true
    }
}

/// A line with a line break at its end, added where there is none.
pub fn terminated(line: &str) -> (r: String)
    ensures
        r@ == (if line@.len() > 0 && line@.last() == '\n' {
            line@
        } else {
            line@.push('\n')
        }),
{
    let x = chars_of(line);
    let mut s = line.to_owned();
    if x.len() == 0 || x[x.len() - 1] != '\n' {
        s.push('\n');
    }
    s
}

/// The time of a line reads back: year, month, day, hour, minute and second stand
/// where their marks say.
pub proof fn law_stamp_reads_back(f: UtcFields)
    requires
        f.valid(),
        0 <= f.year <= 9999,
    ensures
        ({
            let t = stamp(f);
            &&& t.len() == 20
            &&& digits_value(t.subrange(0, 4)) == f.year
            &&& t[4] == '-'
            &&& digits_value(t.subrange(5, 7)) == f.month
            &&& t[7] == '-'
            &&& digits_value(t.subrange(8, 10)) == f.day
            &&& t[10] == 'T'
            &&& digits_value(t.subrange(11, 13)) == f.hour
            &&& t[13] == ':'
            &&& digits_value(t.subrange(14, 16)) == f.minute
            &&& t[16] == ':'
            &&& digits_value(t.subrange(17, 19)) == f.second
            &&& t[19] == 'Z'
        }),
{
    reveal_strlit("-");
    reveal_strlit("T");
    reveal_strlit(":");
    reveal_strlit("Z");
    law_year_reads_back(f.year as int);
    lemma_two(f.month as nat);
    lemma_two(f.day as nat);
    lemma_two(f.hour as nat);
    lemma_two(f.minute as nat);
    lemma_two(f.second as nat);
    let t = stamp(f);
    assert(t.subrange(0, 4) =~= year_text(f.year as int));
    assert(t.subrange(5, 7) =~= decimal2(f.month as nat));
    assert(t.subrange(8, 10) =~= decimal2(f.day as nat));
    assert(t.subrange(11, 13) =~= decimal2(f.hour as nat));
    assert(t.subrange(14, 16) =~= decimal2(f.minute as nat));
    assert(t.subrange(17, 19) =~= decimal2(f.second as nat));
}

proof fn lemma_two(n: nat)
    requires
        n < 100,
    ensures
        decimal2(n).len() == 2,
        digits_value(decimal2(n)) == n,
{
    lemma_decimal2_len(n);
    lemma_decimal2_value(n);
}

} // verus!
