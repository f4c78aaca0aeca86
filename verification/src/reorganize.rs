//! Names for the folders and files into which clusters are filed.
use crate::types::{Cluster, Filepath};
use std::collections::hash_map::DefaultHasher;
use std::hash::{Hash, Hasher};
use std::path::Path;
use vstd::prelude::*;
use vstd::std_specs::hash::DefaultHasherAdditionalSpecFns;
use vstd::string::StringExecFns;

verus! {

/// A moment, to the second.
#[derive(Debug, Clone, Copy, PartialEq, Eq, PartialOrd, Ord, Structural)]
pub struct MyDateTime {
    pub year: u16,
    pub month: u8,
    pub day: u8,
    pub hour: u8,
    pub minute: u8,
    pub second: u8,
}

/// The byte at `at` is an ASCII digit.
pub open spec fn is_digit(data: Seq<u8>, at: int) -> bool {
    48 <= data[at] <= 57
}

/// The number that the two digits from `at` on write.
pub open spec fn two_digits(data: Seq<u8>, at: int) -> int {
    (data[at] - 48) * 10 + (data[at + 1] - 48)
}

/// `data` begins with a moment written as `YYYY:MM:DD HH:MM:SS`. Only the
/// form counts: a month of 13 is well formed.
pub open spec fn is_date_time(data: Seq<u8>) -> bool {
    &&& data.len() >= 19
    &&& data[4] == 58 && data[7] == 58 && data[10] == 32 && data[13] == 58 && data[16] == 58
    &&& is_digit(data, 0) && is_digit(data, 1) && is_digit(data, 2) && is_digit(data, 3)
    &&& is_digit(data, 5) && is_digit(data, 6)
    &&& is_digit(data, 8) && is_digit(data, 9)
    &&& is_digit(data, 11) && is_digit(data, 12)
    &&& is_digit(data, 14) && is_digit(data, 15)
    &&& is_digit(data, 17) && is_digit(data, 18)
}

/// The moment that well-formed `data` writes.
pub open spec fn date_time_of(data: Seq<u8>) -> MyDateTime {
    MyDateTime {
        year: (two_digits(data, 0) * 100 + two_digits(data, 2)) as u16,
        month: two_digits(data, 5) as u8,
        day: two_digits(data, 8) as u8,
        hour: two_digits(data, 11) as u8,
        minute: two_digits(data, 14) as u8,
        second: two_digits(data, 17) as u8,
    }
}

/// `exif::DateTime::from_ascii`, its error dropped and its fields moved into
/// a [`MyDateTime`]. Trusted: it succeeds exactly on data of at least 19
/// bytes with the delimiters of `YYYY:MM:DD HH:MM:SS` in place and ASCII
/// digits everywhere else among the first 19, and then gives the six numbers
/// as written; what follows the first 19 bytes is not looked at.
#[verifier::external_body]
fn from_ascii(data: &[u8]) -> (date: Option<MyDateTime>)
    ensures
        date == if is_date_time(data@) {
            Some(date_time_of(data@))
        } else {
            None
        },
{
    exif::DateTime::from_ascii(data).ok().map(
        |f| MyDateTime {
            year: f.year,
            month: f.month,
            day: f.day,
            hour: f.hour,
            minute: f.minute,
            second: f.second,
        },
    )
}

/// The moment at which a photograph was taken, from the lines of its
/// date-taken field: the first line counts, where it is well formed.
pub fn extract_date_time(ascii: &Vec<Vec<u8>>) -> (date: Option<MyDateTime>)
    ensures
        date == if ascii@.len() > 0 && is_date_time(ascii@[0]@) {
            Some(date_time_of(ascii@[0]@))
        } else {
            None
        },
{
    if ascii.len() == 0 {
        return None;
    }
    from_ascii(ascii[0].as_slice())
}

/// `std::hash::Hash::hash`: feeds `t` to `state`. What is fed is the
/// business of the type's `Hash`, so nothing is claimed of `state`.
#[verifier::external_body]
fn feed<T: Hash>(t: &T, state: &mut DefaultHasher) {
    t.hash(state)
}

/// A 64-bit digest of `t`: what the default hasher makes of the writes by
/// which `t` feeds itself into a fresh one. Which writes these are is the
/// business of the type's `Hash`.
pub fn calculate_hash<T: Hash>(t: &T) -> (digest: u64)
    ensures
        exists|fed: Seq<Seq<u8>>| digest == #[trigger] DefaultHasher::spec_finish(fed),
{
    let mut s = DefaultHasher::new();
    feed(t, &mut s);
    s.finish()
}

/// `String::push`: appends `c` to `s`.
#[verifier::external_body]
fn push_char(s: &mut String, c: char)
    ensures
        final(s)@ == old(s)@.push(c),
{
    s.push(c)
}

/// The character of the digit `digit`, below sixteen, in lower case.
pub open spec fn digit_char(digit: nat) -> char {
    if digit < 10 {
        (48 + digit) as char
    } else {
        (87 + digit) as char
    }
}

/// The digits of `value` in base `base`, most significant first.
pub open spec fn numeral(value: nat, base: nat) -> Seq<char>
    decreases value,
    via numeral_shrinks
{
    if base < 2 || value < base {
        seq![digit_char(value)]
    } else {
        numeral(value / base, base).push(digit_char(value % base))
    }
}

#[via_fn]
proof fn numeral_shrinks(value: nat, base: nat) {
    if base >= 2 && value >= base {
        assert(value / base < value) by (nonlinear_arith)
            requires
                base >= 2,
                value >= base,
        ;
    }
}

/// `digits` with zeros in front of it up to `width` characters.
pub open spec fn padded(digits: Seq<char>, width: nat) -> Seq<char> {
    if digits.len() >= width {
        digits
    } else {
        Seq::new((width - digits.len()) as nat, |i: int| '0') + digits
    }
}

fn digit_of(digit: u8) -> (c: char)
    requires
        digit < 16,
    ensures
        c == digit_char(digit as nat),
{
    if digit < 10 {
        (48 + digit) as char
    } else {
        (87 + digit) as char
    }
}

/// Appends `value` in base `base`, with zeros in front up to `width`
/// characters.
fn push_number(s: &mut String, value: u64, base: u8, width: usize)
    requires
        2 <= base <= 16,
    ensures
        final(s)@ == old(s)@ + padded(numeral(value as nat, base as nat), width as nat),
{
    let ghost start = s@;
    let ghost digits = numeral(value as nat, base as nat);
    let wide = base as u64;
    let mut low: Vec<char> = Vec::new();
    let mut rest = value;
    let ghost mut tail: Seq<char> = Seq::empty();
    while rest >= wide
        invariant
            wide == base,
            2 <= base <= 16,
            digits == numeral(rest as nat, base as nat) + tail,
            low@.len() == tail.len(),
            forall|i: int| 0 <= i < low@.len() ==> low@[i] == tail[tail.len() - 1 - i],
        decreases rest,
    {
        let digit = digit_of((rest % wide) as u8);
        proof {
            assert(numeral(rest as nat, base as nat) == numeral((rest / wide) as nat, base as nat).push(
                digit,
            ));
            let shorter = numeral((rest / wide) as nat, base as nat);
            assert(shorter.push(digit) + tail == shorter + (seq![digit] + tail));
            tail = seq![digit] + tail;
        }
        low.push(digit);
        rest = rest / wide;
    }
    let digit = digit_of(rest as u8);
    proof {
        assert(numeral(rest as nat, base as nat) == seq![digit]);
        tail = seq![digit] + tail;
        assert(digits == tail);
    }
    low.push(digit);
    let ghost zeros = if low@.len() >= width {
        Seq::<char>::empty()
    } else {
        Seq::new((width - low@.len()) as nat, |i: int| '0')
    };
    let mut count = low.len();
    while count < width
        invariant
            low@.len() <= count,
            low@.len() < width ==> count <= width,
            low@.len() >= width ==> count == low@.len(),
            s@ == start + Seq::new((count - low@.len()) as nat, |i: int| '0'),
        decreases width - count,
    {
        push_char(s, '0');
        proof {
            assert(Seq::new((count - low@.len()) as nat, |i: int| '0').push('0') == Seq::new(
                (count + 1 - low@.len()) as nat,
                |i: int| '0',
            ));
        }
        count += 1;
    }
    proof {
        assert(Seq::new(0nat, |i: int| '0') =~= Seq::<char>::empty());
        assert(s@ =~= start + zeros);
    }
    let mut left = low.len();
    while left > 0
        invariant
            left <= low@.len(),
            low@.len() == tail.len(),
            forall|i: int| 0 <= i < low@.len() ==> low@[i] == tail[tail.len() - 1 - i],
            s@ == start + zeros + tail.take(tail.len() - left),
        decreases left,
    {
        left -= 1;
        push_char(s, low[left]);
        proof {
            assert(tail.take(tail.len() - left) == tail.take(tail.len() - left - 1).push(low@[left as int]));
        }
    }
    proof {
        assert(tail.take(tail.len() as int) == tail);
        assert(padded(digits, width as nat) == zeros + digits);
        assert(start + zeros + tail == start + (zeros + tail));
    }
}

/// The date of `date` as `YYYY-MM-DD`, each part with zeros in front.
pub open spec fn date_text(date: MyDateTime) -> Seq<char> {
    padded(numeral(date.year as nat, 10), 4) + seq!['-'] + padded(numeral(date.month as nat, 10), 2)
        + seq!['-'] + padded(numeral(date.day as nat, 10), 2)
}

/// The date of `date_time` as text.
pub fn to_string_date_time(date_time: &MyDateTime) -> (text: String)
    ensures
        text@ == date_text(*date_time),
{
    let mut text = String::new();
    push_number(&mut text, date_time.year as u64, 10, 4);
    push_char(&mut text, '-');
    push_number(&mut text, date_time.month as u64, 10, 2);
    push_char(&mut text, '-');
    push_number(&mut text, date_time.day as u64, 10, 2);
    proof {
        let year = padded(numeral(date_time.year as nat, 10), 4);
        let month = padded(numeral(date_time.month as nat, 10), 2);
        let day = padded(numeral(date_time.day as nat, 10), 2);
        assert(text@ == (((Seq::<char>::empty() + year).push('-') + month).push('-') + day));
        assert(text@ =~= year + seq!['-'] + month + seq!['-'] + day);
    }
    text
}

/// `first` comes before `second`: field by field, from the year down to the
/// second.
pub open spec fn precedes(first: MyDateTime, second: MyDateTime) -> bool {
    ||| first.year < second.year
    ||| first.year == second.year && first.month < second.month
    ||| first.year == second.year && first.month == second.month && first.day < second.day
    ||| first.year == second.year && first.month == second.month && first.day == second.day
        && first.hour < second.hour
    ||| first.year == second.year && first.month == second.month && first.day == second.day
        && first.hour == second.hour && first.minute < second.minute
    ||| first.year == second.year && first.month == second.month && first.day == second.day
        && first.hour == second.hour && first.minute == second.minute && first.second
        < second.second
}

/// A number that rises with the moment: its fields, each in a byte of its
/// own below the year.
pub open spec fn stamp(date: MyDateTime) -> int {
    ((((date.year * 256 + date.month) * 256 + date.day) * 256 + date.hour) * 256 + date.minute)
        * 256 + date.second
}

/// The sort key of a file: files without a date come first, the others in
/// the order of their moments.
pub open spec fn sort_key(date: Option<MyDateTime>) -> int {
    match date {
        None => 0,
        Some(date) => stamp(date) + 1,
    }
}

/// Numbers with a byte appended compare by the numbers first and by the
/// bytes second.
proof fn lemma_byte_appended(high: int, low: int, other_high: int, other_low: int)
    requires
        0 <= low < 256,
        0 <= other_low < 256,
    ensures
        high * 256 + low < other_high * 256 + other_low <==> high < other_high || (high
            == other_high && low < other_low),
        high * 256 + low == other_high * 256 + other_low <==> high == other_high && low
            == other_low,
{
}

/// The stamp orders moments as `precedes` does, and tells them apart.
pub proof fn lemma_stamp_orders(first: MyDateTime, second: MyDateTime)
    ensures
        stamp(first) < stamp(second) <==> precedes(first, second),
        stamp(first) == stamp(second) <==> first == second,
{
    let a1 = first.year * 256 + first.month;
    let b1 = second.year * 256 + second.month;
    let a2 = a1 * 256 + first.day;
    let b2 = b1 * 256 + second.day;
    let a3 = a2 * 256 + first.hour;
    let b3 = b2 * 256 + second.hour;
    let a4 = a3 * 256 + first.minute;
    let b4 = b3 * 256 + second.minute;
    lemma_byte_appended(first.year as int, first.month as int, second.year as int, second.month as int);
    lemma_byte_appended(a1, first.day as int, b1, second.day as int);
    lemma_byte_appended(a2, first.hour as int, b2, second.hour as int);
    lemma_byte_appended(a3, first.minute as int, b3, second.minute as int);
    lemma_byte_appended(a4, first.second as int, b4, second.second as int);
}

fn key_of(date: &Option<MyDateTime>) -> (key: u64)
    ensures
        key == sort_key(*date),
{
    match date {
        None => 0,
        Some(date) => {
            let year = date.year as u64;
            let stamp = ((((year * 256 + date.month as u64) * 256 + date.day as u64) * 256
                + date.hour as u64) * 256 + date.minute as u64) * 256 + date.second as u64;
            stamp + 1
        },
    }
}

/// The earliest and the latest of the first `end` dates, where one is known.
pub open spec fn span_upto(dates: Seq<Option<MyDateTime>>, end: int) -> Option<
    (MyDateTime, MyDateTime),
>
    decreases end,
{
    if end <= 0 {
        None
    } else {
        match (span_upto(dates, end - 1), dates[end - 1]) {
            (span, None) => span,
            (None, Some(date)) => Some((date, date)),
            (Some((low, high)), Some(date)) => Some(
                (
                    if stamp(date) < stamp(low) {
                        date
                    } else {
                        low
                    },
                    if stamp(date) > stamp(high) {
                        date
                    } else {
                        high
                    },
                ),
            ),
        }
    }
}

/// `span_upto` gives nothing exactly where no date is known, and otherwise
/// two of the dates that no known date lies outside of.
pub proof fn lemma_span(dates: Seq<Option<MyDateTime>>, end: int)
    requires
        0 <= end <= dates.len(),
    ensures
        match span_upto(dates, end) {
            None => forall|i: int| 0 <= i < end ==> dates[i] is None,
            Some((low, high)) => {
                &&& exists|i: int| 0 <= i < end && dates[i] == Some(low)
                &&& exists|i: int| 0 <= i < end && dates[i] == Some(high)
                &&& forall|i: int|
                    0 <= i < end && dates[i] is Some ==> stamp(low) <= stamp(
                        (#[trigger] dates[i]).unwrap(),
                    ) <= stamp(high)
            },
        },
    decreases end,
{
    if end > 0 {
        lemma_span(dates, end - 1);
        match (span_upto(dates, end - 1), dates[end - 1]) {
            (None, None) => {},
            (Some((low, high)), None) => {
                let a = choose|i: int| 0 <= i < end - 1 && dates[i] == Some(low);
                let b = choose|i: int| 0 <= i < end - 1 && dates[i] == Some(high);
                assert(dates[a] == Some(low) && dates[b] == Some(high));
            },
            (None, Some(date)) => {
                assert(dates[end - 1] == Some(date));
            },
            (Some((low, high)), Some(date)) => {
                let a = choose|i: int| 0 <= i < end - 1 && dates[i] == Some(low);
                let b = choose|i: int| 0 <= i < end - 1 && dates[i] == Some(high);
                assert(dates[a] == Some(low) && dates[b] == Some(high));
                assert(dates[end - 1] == Some(date));
            },
        }
    }
}

/// The earliest and the latest known date of a cluster's files.
pub fn date_span(dates: &Vec<Option<MyDateTime>>) -> (span: Option<(MyDateTime, MyDateTime)>)
    ensures
        span == span_upto(dates@, dates@.len() as int),
{
    let mut span: Option<(MyDateTime, MyDateTime)> = None;
    let mut i: usize = 0;
    while i < dates.len()
        invariant
            i <= dates@.len(),
            span == span_upto(dates@, i as int),
        decreases dates.len() - i,
    {
        match dates[i] {
            None => {},
            Some(date) => {
                let key = key_of(&Some(date));
                span = match span {
                    None => Some((date, date)),
                    Some((low, high)) => {
                        let low_key = key_of(&Some(low));
                        let high_key = key_of(&Some(high));
                        Some(
                            (
                                if key < low_key {
                                    date
                                } else {
                                    low
                                },
                                if key > high_key {
                                    date
                                } else {
                                    high
                                },
                            ),
                        )
                    },
                };
            },
        }
        i += 1;
    }
    span
}

/// The name of a cluster by its dates: `unknown` without any, the one date,
/// or the earliest and the latest with `_` between them.
pub open spec fn name_text(span: Option<(MyDateTime, MyDateTime)>) -> Seq<char> {
    match span {
        None => "unknown"@,
        Some((low, high)) => if low == high {
            date_text(low)
        } else {
            date_text(low) + seq!['_'] + date_text(high)
        },
    }
}

/// The name of a cluster by the span of its dates.
pub fn cluster_name(span: Option<(MyDateTime, MyDateTime)>) -> (name: String)
    ensures
        name@ == name_text(span),
{
    match span {
        None => "unknown".to_owned(),
        Some((d1, d2)) => {
            if d1 == d2 {
                to_string_date_time(&d1)
            } else {
                let mut name = to_string_date_time(&d1);
                push_char(&mut name, '_');
                let second = to_string_date_time(&d2);
                name.append(second.as_str());
                name
            }
        },
    }
}

/// The folder of a cluster: its name, two underscores, and the digest in
/// lower-case hexadecimal with zeros in front up to six digits.
pub open spec fn folder_text(name: Seq<char>, hash: u64) -> Seq<char> {
    name + seq!['_', '_'] + padded(numeral(hash as nat, 16), 6)
}

/// The folder name of a cluster with the name `name` and the digest `hash`.
pub fn folder_name(name: String, hash: u64) -> (folder: String)
    ensures
        folder@ == folder_text(name@, hash),
{
    let mut folder = name;
    push_char(&mut folder, '_');
    push_char(&mut folder, '_');
    push_number(&mut folder, hash, 16, 6);
    proof {
        assert(name@.push('_').push('_') =~= name@ + seq!['_', '_']);
    }
    folder
}

/// The name of the file filed at place `idx`, with the extension `ext`.
pub open spec fn file_text(idx: nat, ext: Seq<char>) -> Seq<char> {
    numeral(idx, 10) + seq!['.'] + ext
}

/// The name under which the file at place `idx` of a cluster is filed.
pub fn new_file_name(idx: usize, ext: &str) -> (name: String)
    ensures
        name@ == file_text(idx as nat, ext@),
{
    let mut name = String::new();
    push_number(&mut name, idx as u64, 10, 0);
    push_char(&mut name, '.');
    name.append(ext);
    proof {
        assert(padded(numeral(idx as nat, 10), 0) == numeral(idx as nat, 10));
        assert((Seq::<char>::empty() + numeral(idx as nat, 10)).push('.') =~= numeral(idx as nat, 10)
            + seq!['.']);
    }
    name
}

/// The file at `first` is filed before the file at `second`: by its date,
/// and among files with equal dates by its place in the cluster.
pub open spec fn filed_before(dates: Seq<Option<MyDateTime>>, first: int, second: int) -> bool {
    sort_key(dates[first]) < sort_key(dates[second]) || (sort_key(dates[first]) == sort_key(
        dates[second],
    ) && first < second)
}

/// `order` lists the places of the first `end` files, each once, sorted by
/// date; files of one date keep the order they have in the cluster.
pub open spec fn is_filing_order(dates: Seq<Option<MyDateTime>>, end: int, order: Seq<usize>) -> bool {
    &&& order.len() == end
    &&& forall|a: int| 0 <= a < order.len() ==> (#[trigger] order[a]) < end
    &&& forall|a: int, b: int|
        0 <= a < b < order.len() ==> filed_before(
            dates,
            (#[trigger] order[a]) as int,
            (#[trigger] order[b]) as int,
        )
}

/// The order in which the files of a cluster are filed: a stable sort of
/// their places by date, undated files first.
pub fn filing_order(dates: &Vec<Option<MyDateTime>>) -> (order: Vec<usize>)
    ensures
        is_filing_order(dates@, dates@.len() as int, order@),
{
    let mut order: Vec<usize> = Vec::new();
    let mut i: usize = 0;
    while i < dates.len()
        invariant
            i <= dates@.len(),
            is_filing_order(dates@, i as int, order@),
        decreases dates.len() - i,
    {
        let key = key_of(&dates[i]);
        let mut at = order.len();
        while at > 0 && key_of(&dates[order[at - 1]]) > key
            invariant
                i < dates@.len(),
                is_filing_order(dates@, i as int, order@),
                at <= order@.len(),
                key == sort_key(dates@[i as int]),
                forall|b: int| at <= b < order@.len() ==> sort_key(dates@[order@[b] as int]) > key,
            decreases at,
        {
            at -= 1;
        }
        let ghost before = order@;
        order.insert(at, i);
        proof {
            assert forall|a: int, b: int| 0 <= a < b < order@.len() implies filed_before(
                dates@,
                (#[trigger] order@[a]) as int,
                (#[trigger] order@[b]) as int,
            ) by {
                let a0 = if a < at { a } else { a - 1 };
                let b0 = if b < at { b } else { b - 1 };
                if a == at {
                    assert(order@[b] == before[b0]);
                } else if b == at {
                    assert(order@[a] == before[a0]);
                    if at > 0 {
                        assert(filed_before(dates@, before[a0] as int, before[at - 1] as int) || a0 == at
                            - 1);
                    }
                } else {
                    assert(order@[a] == before[a0] && order@[b] == before[b0]);
                }
            }
            assert forall|a: int| 0 <= a < order@.len() implies (#[trigger] order@[a]) < i + 1 by {
                let a0 = if a < at { a } else { a - 1 };
                if a != at {
                    assert(order@[a] == before[a0]);
                }
            }
        }
        i += 1;
    }
    order
}

/// `Path::extension` on the path as text: the extension of the file's name
/// as the platform reads it, where that is text; nothing is claimed of it.
#[verifier::external_body]
fn extension_of(path: &Filepath) -> (ext: Option<String>) {
    Path::new(path.0.as_str()).extension().and_then(|e| e.to_str()).map(|e| e.to_string())
}

/// How one cluster is filed: the folder that is made for it, and for every
/// file, in filing order, its place in the cluster and its new name.
#[derive(Debug, PartialEq, Eq)]
pub struct ClusterPlan {
    pub folder_name: String,
    pub moves: Vec<(usize, String)>,
}

/// `plan` files a cluster of files with the dates `dates`, the extensions
/// `extensions` and the digest `hash`: the folder is named by the span of the
/// dates and the digest, the files are taken in filing order and numbered
/// from zero, each keeping its extension.
pub open spec fn is_plan(
    plan: ClusterPlan,
    dates: Seq<Option<MyDateTime>>,
    extensions: Seq<String>,
    hash: u64,
) -> bool {
    &&& plan.folder_name@ == folder_text(name_text(span_upto(dates, dates.len() as int)), hash)
    &&& plan.moves@.len() == dates.len()
    &&& is_filing_order(dates, dates.len() as int, Seq::new(dates.len(), |i: int| plan.moves@[i].0))
    &&& forall|i: int|
        0 <= i < dates.len() ==> (#[trigger] plan.moves@[i]).1@ == file_text(
            i as nat,
            extensions[plan.moves@[i].0 as int]@,
        )
}

/// Plans the filing of one cluster from the dates and extensions of its
/// files, place by place, and the digest of the cluster.
pub fn plan_cluster(dates: &Vec<Option<MyDateTime>>, extensions: &Vec<String>, hash: u64) -> (plan:
    ClusterPlan)
    requires
        dates@.len() == extensions@.len(),
    ensures
        is_plan(plan, dates@, extensions@, hash),
{
    let name = cluster_name(date_span(dates));
    let final_folder_name = folder_name(name, hash);
    let order = filing_order(dates);
    let mut moves: Vec<(usize, String)> = Vec::new();
    let mut idx: usize = 0;
    while idx < order.len()
        invariant
            idx <= order@.len(),
            dates@.len() == extensions@.len(),
            is_filing_order(dates@, dates@.len() as int, order@),
            moves@.len() == idx,
            forall|i: int|
                0 <= i < idx ==> (#[trigger] moves@[i]).0 == order@[i] && moves@[i].1@ == file_text(
                    i as nat,
                    extensions@[order@[i] as int]@,
                ),
        decreases order.len() - idx,
    {
        let file = order[idx];
        let new_filename = new_file_name(idx, extensions[file].as_str());
        moves.push((file, new_filename));
        idx += 1;
    }
    let plan = ClusterPlan { folder_name: final_folder_name, moves };
    proof {
        assert(Seq::new(dates@.len(), |i: int| plan.moves@[i].0) =~= order@);
    }
    plan
}

/// Plans the filing of `cluster`, whose files have the dates `dates`, place
/// by place. `None` where a file has no extension that is text, which only
/// a cluster with files in it can bring about.
pub fn reorganize_single_cluster(cluster: &Cluster, dates: &Vec<Option<MyDateTime>>) -> (plan:
    Option<ClusterPlan>)
    requires
        dates@.len() == cluster.0@.len(),
    ensures
        match plan {
            Some(plan) => exists|extensions: Seq<String>, hash: u64|
                extensions.len() == dates@.len() && #[trigger] is_plan(
                    plan,
                    dates@,
                    extensions,
                    hash,
                ),
            None => cluster.0@.len() > 0,
        },
{
    let mut extensions: Vec<String> = Vec::new();
    let mut i: usize = 0;
    while i < cluster.0.len()
        invariant
            i <= cluster.0@.len(),
            dates@.len() == cluster.0@.len(),
            extensions@.len() == i,
        decreases cluster.0.len() - i,
    {
        match extension_of(&cluster.0[i]) {
            Some(ext) => {
                extensions.push(ext);
            },
            None => {
                return None;
            },
        }
        i += 1;
    }
    let hash = calculate_hash(cluster);
    let plan = plan_cluster(dates, &extensions, hash);
    let ghost known = extensions@;
    let found = Some(plan);
    proof {
        assert(known.len() == dates@.len());
        assert(is_plan(found->0, dates@, known, hash));
    }
    found
}

} // verus!
