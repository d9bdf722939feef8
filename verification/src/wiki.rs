//! The item table of the wiki, one line of HTML per element, turned into
//! item records.
//!
//! A row ends with a line `</th></tr>` or `</td></tr>`. Counted from that
//! line, two lines on holds the item's title, four on its level, six on
//! its price and eight on its production time; from twelve lines on, each
//! line with a title names one ingredient, up to the first line without
//! one; the source of the item is fourteen lines on, or, when there are
//! two or more ingredients, that many lines further.

use vstd::prelude::*;
use crate::extract::{
    extract_level, extract_price, extract_source, extract_time, extract_time_checked,
    extract_title, spec_extract_level, spec_extract_time, spec_extract_title, time_fits,
};

verus! {

/// What an item record holds, as values.
pub struct ItemModel {
    pub name: Seq<char>,
    pub level: u32,
    pub price: u32,
    pub time: u32,
    pub needs: Seq<Seq<char>>,
    pub source: Seq<char>,
}

/// An item as the wiki describes it: its name, the level at which it is
/// unlocked, its price, its production time in minutes, the items it is
/// made from and where it is made.
#[derive(Debug)]
pub struct Item {
    pub name: String,
    pub level: u32,
    pub price: u32,
    pub time: u32,
    pub needs: Vec<String>,
    pub source: String,
}

impl View for Item {
    type V = ItemModel;

    open spec fn view(&self) -> ItemModel {
        ItemModel {
            name: self.name@,
            level: self.level,
            price: self.price,
            time: self.time,
            needs: self.needs.deep_view(),
            source: self.source@,
        }
    }
}

/// The records of a list of items.
pub open spec fn items_view(items: Seq<Item>) -> Seq<ItemModel> {
    items.map_values(|it: Item| it@)
}

/// A line that ends a table row.
pub open spec fn is_row_end(line: Seq<char>) -> bool {
    line == "</th></tr>"@ || line == "</td></tr>"@
}

/// Line `k`, where there is one.
pub open spec fn line_at(lines: Seq<Seq<char>>, k: int) -> Option<Seq<char>> {
    if 0 <= k < lines.len() {
        Some(lines[k])
    } else {
        None
    }
}

/// The title on line `k`.
pub open spec fn title_at(lines: Seq<Seq<char>>, k: int) -> Option<Seq<char>> {
    match line_at(lines, k) {
        Some(l) => spec_extract_title(l),
        None => None,
    }
}

/// The number (level or price) on line `k`.
pub open spec fn number_at(lines: Seq<Seq<char>>, k: int) -> Option<u32> {
    match line_at(lines, k) {
        Some(l) => spec_extract_level(l),
        None => None,
    }
}

/// The duration on line `k`.
pub open spec fn time_at(lines: Seq<Seq<char>>, k: int) -> Option<u32> {
    match line_at(lines, k) {
        Some(l) => spec_extract_time(l),
        None => None,
    }
}

/// The titles on the lines from `j` on, up to the first line without one;
/// `None` when the lines run out first.
pub open spec fn needs_from(lines: Seq<Seq<char>>, j: int) -> Option<Seq<Seq<char>>>
    decreases lines.len() - j,
{
    if j < 0 || j >= lines.len() {
        None
    } else {
        match spec_extract_title(lines[j]) {
            Some(t) => match needs_from(lines, j + 1) {
                Some(rest) => Some(seq![t] + rest),
                None => None,
            },
            None => Some(Seq::empty()),
        }
    }
}

/// How many lines further the source is, for a given list of ingredients.
pub open spec fn source_shift(needs: Seq<Seq<char>>) -> int {
    if needs.len() <= 1 {
        0
    } else {
        needs.len() as int
    }
}

/// The record of the row that ends on line `i`, where every field is there.
pub open spec fn record_at(lines: Seq<Seq<char>>, i: int) -> Option<ItemModel> {
    match (
        title_at(lines, i + 2),
        number_at(lines, i + 4),
        number_at(lines, i + 6),
        time_at(lines, i + 8),
        needs_from(lines, i + 12),
    ) {
        (Some(name), Some(level), Some(price), Some(time), Some(needs)) => match title_at(
            lines,
            i + 14 + source_shift(needs),
        ) {
            Some(source) => Some(
                ItemModel { name, level, price, time, needs, source },
            ),
            None => None,
        },
        _ => None,
    }
}

/// Reading the row that ends on line `i` reaches a duration whose minute
/// count does not fit in a `u32`.
pub open spec fn time_overflows_at(lines: Seq<Seq<char>>, i: int) -> bool {
    &&& title_at(lines, i + 2) is Some
    &&& number_at(lines, i + 4) is Some
    &&& number_at(lines, i + 6) is Some
    &&& match line_at(lines, i + 8) {
        Some(l) => !time_fits(l),
        None => false,
    }
}

/// The records of the rows that end among the first `n` lines, in order;
/// `None` as soon as one of them misses a field.
pub open spec fn records_upto(lines: Seq<Seq<char>>, n: int) -> Option<Seq<ItemModel>>
    decreases n,
{
    if n <= 0 {
        Some(Seq::empty())
    } else {
        match records_upto(lines, n - 1) {
            Some(s) => if is_row_end(lines[n - 1]) {
                match record_at(lines, n - 1) {
                    Some(r) => Some(s.push(r)),
                    None => None,
                }
            } else {
                Some(s)
            },
            None => None,
        }
    }
}

/// Reading the first `n` lines reaches a duration that does not fit.
pub open spec fn overflows_upto(lines: Seq<Seq<char>>, n: int) -> bool
    decreases n,
{
    if n <= 0 {
        false
    } else {
        overflows_upto(lines, n - 1) || (records_upto(lines, n - 1) is Some && is_row_end(
            lines[n - 1],
        ) && time_overflows_at(lines, n - 1))
    }
}

/// The records of all rows of a table.
pub open spec fn spec_convert(lines: Seq<Seq<char>>) -> Option<Seq<ItemModel>> {
    records_upto(lines, lines.len() as int)
}

/// Reading a table reaches a duration that does not fit in a `u32`.
pub open spec fn convert_overflows(lines: Seq<Seq<char>>) -> bool {
    overflows_upto(lines, lines.len() as int)
}

/// Every field but the duration is there for the row that ends on line `i`.
pub open spec fn row_readable_at(lines: Seq<Seq<char>>, i: int) -> bool {
    &&& title_at(lines, i + 2) is Some
    &&& number_at(lines, i + 4) is Some
    &&& number_at(lines, i + 6) is Some
    &&& match needs_from(lines, i + 12) {
        Some(needs) => title_at(lines, i + 14 + source_shift(needs)) is Some,
        None => false,
    }
}

/// Every row among the first `n` lines is readable, durations aside.
pub open spec fn readable_upto(lines: Seq<Seq<char>>, n: int) -> bool
    decreases n,
{
    if n <= 0 {
        true
    } else {
        readable_upto(lines, n - 1) && (is_row_end(lines[n - 1]) ==> row_readable_at(
            lines,
            n - 1,
        ))
    }
}

/// How many of the first `n` lines end a row.
pub open spec fn row_ends_upto(lines: Seq<Seq<char>>, n: int) -> nat
    decreases n,
{
    if n <= 0 {
        0
    } else {
        row_ends_upto(lines, n - 1) + if is_row_end(lines[n - 1]) {
            1nat
        } else {
            0nat
        }
    }
}

proof fn lemma_missing_persists(lines: Seq<Seq<char>>, m: int, n: int)
    requires
        0 <= m <= n,
        records_upto(lines, m) is None,
        !overflows_upto(lines, m),
    ensures
        records_upto(lines, n) is None,
        !overflows_upto(lines, n),
    decreases n - m,
{
    if m < n {
        lemma_missing_persists(lines, m, n - 1);
    }
}

proof fn lemma_overflow_persists(lines: Seq<Seq<char>>, m: int, n: int)
    requires
        0 <= m <= n,
        overflows_upto(lines, m),
    ensures
        overflows_upto(lines, n),
    decreases n - m,
{
    if m < n {
        lemma_overflow_persists(lines, m, n - 1);
    }
}

/// Line `i + d`, where there is one.
fn line_of(lines: &Vec<String>, i: usize, d: usize) -> (res: Option<&String>)
    ensures
        match line_at(lines.deep_view(), i + d) {
            Some(l) => res matches Some(s) && s@ == l,
            None => res is None,
        },
{
    let n = lines.len();
    assert(lines.deep_view().len() == n);
    match i.checked_add(d) {
        Some(k) => {
            if k < n {
                assert(lines.deep_view()[k as int] == lines@[k as int]@);
                Some(&lines[k])
            } else {
                None
            }
        },
        None => None,
    }
}

/// The title on line `i + d`.
fn title_of_line(lines: &Vec<String>, i: usize, d: usize) -> (res: Option<String>)
    ensures
        res.deep_view() == title_at(lines.deep_view(), i + d),
{
    match line_of(lines, i, d) {
        Some(l) => extract_title(l.as_str()),
        None => None,
    }
}

/// The titles on the lines from `start` on, up to the first line without
/// one; `None` when the lines run out first.
fn needs_of_lines(lines: &Vec<String>, start: usize) -> (res: Option<Vec<String>>)
    ensures
        res.deep_view() == needs_from(lines.deep_view(), start as int),
{
    let ghost all = lines.deep_view();
    let n = lines.len();
    let mut needs: Vec<String> = Vec::new();
    let mut j: usize = start;
    while j < n
        invariant
            start <= j,
            n == lines.len(),
            all == lines.deep_view(),
            forall|r: Seq<Seq<char>>|
                needs_from(all, j as int) == Some(r) ==> needs_from(all, start as int) == Some(
                    needs.deep_view() + r,
                ),
            needs_from(all, j as int) is None ==> needs_from(all, start as int) is None,
        decreases n - j,
    {
        let title = extract_title(lines[j].as_str());
        match title {
            Some(t) => {
                let ghost before = needs.deep_view();
                let ghost tv = t@;
                needs.push(t);
                assert(needs.deep_view() =~= before.push(tv));
                assert forall|r: Seq<Seq<char>>|
                    needs_from(all, j + 1) == Some(r) implies needs_from(all, start as int)
                    == Some(needs.deep_view() + r) by {
                    assert(needs_from(all, j as int) == Some(seq![tv] + r));
                    assert(before + (seq![tv] + r) =~= before.push(tv) + r);
                }
                j = j + 1;
            },
            None => {
                assert(needs_from(all, j as int) == Some(Seq::<Seq<char>>::empty()));
                assert(needs.deep_view() + Seq::<Seq<char>>::empty() =~= needs.deep_view());
                return Some(needs);
            },
        }
    }
    None
}

/// The outcome of reading a table.
enum Scan {
    Items(Vec<Item>),
    Missing,
    Overflow,
}

/// Reads every row of a table.
fn scan_rows(lines: &Vec<String>) -> (res: Scan)
    ensures
        match res {
            Scan::Items(v) => !convert_overflows(lines.deep_view()) && spec_convert(
                lines.deep_view(),
            ) == Some(items_view(v@)),
            Scan::Missing => !convert_overflows(lines.deep_view()) && spec_convert(
                lines.deep_view(),
            ) is None,
            Scan::Overflow => convert_overflows(lines.deep_view()),
        },
{
    let ghost all = lines.deep_view();
    let n = lines.len();
    let th: String = "</th></tr>".to_owned();
    let td: String = "</td></tr>".to_owned();
    let mut items: Vec<Item> = Vec::new();
    let mut i: usize = 0;
    while i < n
        invariant
            i <= n,
            n == lines.len(),
            all == lines.deep_view(),
            all.len() == n,
            th@ == "</th></tr>"@,
            td@ == "</td></tr>"@,
            !overflows_upto(all, i as int),
            records_upto(all, i as int) == Some(items_view(items@)),
        decreases n - i,
    {
        let ghost k = i as int;
        assert(all[k] == lines[k as int]@);
        if lines[i] == th || lines[i] == td {
            let name = match title_of_line(lines, i, 2) {
                Some(x) => x,
                None => {
                    proof {
                        lemma_missing_persists(all, k + 1, n as int);
                    }
                    return Scan::Missing;
                },
            };
            let level = match line_of(lines, i, 4) {
                Some(l) => extract_level(l.as_str()),
                None => None,
            };
            let level = match level {
                Some(x) => x,
                None => {
                    proof {
                        lemma_missing_persists(all, k + 1, n as int);
                    }
                    return Scan::Missing;
                },
            };
            let price = match line_of(lines, i, 6) {
                Some(l) => extract_price(l.as_str()),
                None => None,
            };
            let price = match price {
                Some(x) => x,
                None => {
                    proof {
                        lemma_missing_persists(all, k + 1, n as int);
                    }
                    return Scan::Missing;
                },
            };
            let time = match line_of(lines, i, 8) {
                Some(l) => match extract_time_checked(l.as_str()) {
                    Some(t) => t,
                    None => {
                        assert(overflows_upto(all, k + 1));
                        proof {
                            lemma_overflow_persists(all, k + 1, n as int);
                        }
                        return Scan::Overflow;
                    },
                },
                None => None,
            };
            let time = match time {
                Some(x) => x,
                None => {
                    proof {
                        lemma_missing_persists(all, k + 1, n as int);
                    }
                    return Scan::Missing;
                },
            };
            let needs = match i.checked_add(12) {
                Some(s) => needs_of_lines(lines, s),
                None => None,
            };
            let needs = match needs {
                Some(x) => x,
                None => {
                    proof {
                        lemma_missing_persists(all, k + 1, n as int);
                    }
                    return Scan::Missing;
                },
            };
            let shift: usize = if needs.len() == 0 || needs.len() == 1 {
                0
            } else {
                needs.len()
            };
            let source = match i.checked_add(14) {
                Some(s) => title_of_line(lines, s, shift),
                None => None,
            };
            let source = match source {
                Some(x) => x,
                None => {
                    proof {
                        lemma_missing_persists(all, k + 1, n as int);
                    }
                    return Scan::Missing;
                },
            };
            let item = Item { name, level, price, time, needs, source };
            let ghost before = items@;
            items.push(item);
            assert(items_view(items@) =~= items_view(before).push(item@));
        }
        i = i + 1;
    }
    Scan::Items(items)
}

/// The items of a table, one per row, in the order of the rows; `None`
/// where a row misses one of its fields (or the lines run out first).
/// The durations read must fit in a `u32`.
pub fn convert_to_struct(lines: Vec<String>) -> (res: Option<Vec<Item>>)
    requires
        !convert_overflows(lines.deep_view()),
    ensures
        res is None <==> spec_convert(lines.deep_view()) is None,
        res matches Some(v) ==> spec_convert(lines.deep_view()) == Some(items_view(v@)),
{
    match scan_rows(&lines) {
        Scan::Items(v) => Some(v),
        Scan::Missing => None,
        Scan::Overflow => {
            assert(false);
            None
        },
    }
}

/// `convert_to_struct` where every duration read fits in a `u32`, and
/// `None` where one does not (there `convert_to_struct` cannot be called);
/// the table is read once.
pub fn convert_to_struct_checked(lines: Vec<String>) -> (res: Option<Option<Vec<Item>>>)
    ensures
        res is None <==> convert_overflows(lines.deep_view()),
        res matches Some(r) ==> (r is None <==> spec_convert(lines.deep_view()) is None),
        res matches Some(r) ==> (r matches Some(v) ==> spec_convert(lines.deep_view()) == Some(
            items_view(v@),
        )),
{
    match scan_rows(&lines) {
        Scan::Items(v) => Some(Some(v)),
        Scan::Missing => Some(None),
        Scan::Overflow => None,
    }
}


/// Whether every field but the duration is there for the row that ends on
/// line `i`.
fn row_readable(lines: &Vec<String>, i: usize) -> (res: bool)
    ensures
        res == row_readable_at(lines.deep_view(), i as int),
{
    let n = lines.len();
    assert(lines.deep_view().len() == n);
    match title_of_line(lines, i, 2) {
        Some(_) => {},
        None => {
            return false;
        },
    }
    let level = match line_of(lines, i, 4) {
        Some(l) => extract_level(l.as_str()),
        None => None,
    };
    if level.is_none() {
        return false;
    }
    let price = match line_of(lines, i, 6) {
        Some(l) => extract_price(l.as_str()),
        None => None,
    };
    if price.is_none() {
        return false;
    }
    let needs = match i.checked_add(12) {
        Some(s) => needs_of_lines(lines, s),
        None => None,
    };
    match needs {
        Some(needs) => {
            let shift: usize = if needs.len() == 0 || needs.len() == 1 {
                0
            } else {
                needs.len()
            };
            let source = match i.checked_add(14) {
                Some(s) => title_of_line(lines, s, shift),
                None => None,
            };
            match source {
                Some(_) => true,
                None => false,
            }
        },
        None => false,
    }
}

/// Goes through the rows of a table as `convert_to_struct` does, but
/// without reading durations and without keeping the items: `None` where a
/// row misses one of its other fields (or the lines run out first), and an
/// empty list otherwise.
pub fn cunvert_to_struct(lines: Vec<String>) -> (res: Option<Vec<Item>>)
    ensures
        res is Some <==> readable_upto(lines.deep_view(), lines.deep_view().len() as int),
        res matches Some(v) ==> v@.len() == 0,
{
    let ghost all = lines.deep_view();
    let n = lines.len();
    let th: String = "</th></tr>".to_owned();
    let td: String = "</td></tr>".to_owned();
    let item_arr: Vec<Item> = Vec::new();
    let mut i: usize = 0;
    while i < n
        invariant
            i <= n,
            n == lines.len(),
            all == lines.deep_view(),
            all.len() == n,
            th@ == "</th></tr>"@,
            td@ == "</td></tr>"@,
            readable_upto(all, i as int),
            item_arr@.len() == 0,
        decreases n - i,
    {
        assert(all[i as int] == lines[i as int]@);
        if lines[i] == th || lines[i] == td {
            if !row_readable(&lines, i) {
                proof {
                    lemma_unreadable_persists(all, i as int + 1, n as int);
                }
                return None;
            }
        }
        i = i + 1;
    }
    Some(item_arr)
}

proof fn lemma_unreadable_persists(lines: Seq<Seq<char>>, m: int, n: int)
    requires
        0 <= m <= n,
        !readable_upto(lines, m),
    ensures
        !readable_upto(lines, n),
    decreases n - m,
{
    if m < n {
        lemma_unreadable_persists(lines, m, n - 1);
    }
}

/// Each row of a table that is read in full gives exactly one item: where
/// `convert_to_struct` gives items, there are as many as lines that end a
/// row.
pub proof fn lemma_one_item_per_row(lines: Seq<Seq<char>>, n: int)
    requires
        0 <= n <= lines.len(),
        records_upto(lines, n) is Some,
    ensures
        records_upto(lines, n).unwrap().len() == row_ends_upto(lines, n),
    decreases n,
{
    if n > 0 {
        lemma_one_item_per_row(lines, n - 1);
    }
}

/// Where `convert_to_struct` reads a whole table, `cunvert_to_struct`
/// does too: it asks for fewer fields of each row.
pub proof fn lemma_items_imply_readable(lines: Seq<Seq<char>>, n: int)
    requires
        0 <= n <= lines.len(),
        records_upto(lines, n) is Some,
    ensures
        readable_upto(lines, n),
    decreases n,
{
    if n > 0 {
        lemma_items_imply_readable(lines, n - 1);
    }
}

/// What the overview pass reads of a row, as values: the fields in the
/// order they are read, each `None` from the first missing one on.
pub struct RowReportModel {
    pub name: Option<Seq<char>>,
    pub level: Option<u32>,
    pub price: Option<u32>,
    pub needs: Option<Seq<Seq<char>>>,
    pub source: Option<Seq<char>>,
}

/// The fields of a row without its duration, read in order up to the first
/// one that is missing; that one and those after it are `None`.
#[derive(Debug)]
pub struct RowReport {
    pub name: Option<String>,
    pub level: Option<u32>,
    pub price: Option<u32>,
    pub needs: Option<Vec<String>>,
    pub source: Option<String>,
}

impl View for RowReport {
    type V = RowReportModel;

    open spec fn view(&self) -> RowReportModel {
        RowReportModel {
            name: self.name.deep_view(),
            level: self.level,
            price: self.price,
            needs: self.needs.deep_view(),
            source: self.source.deep_view(),
        }
    }
}

/// The reports of a list.
pub open spec fn reports_view(reports: Seq<RowReport>) -> Seq<RowReportModel> {
    reports.map_values(|r: RowReport| r@)
}

/// What is read of the row that ends on line `i`, durations aside.
pub open spec fn report_at(lines: Seq<Seq<char>>, i: int) -> RowReportModel {
    let name = title_at(lines, i + 2);
    let level = if name is Some {
        number_at(lines, i + 4)
    } else {
        None
    };
    let price = if level is Some {
        number_at(lines, i + 6)
    } else {
        None
    };
    let needs = if price is Some {
        needs_from(lines, i + 12)
    } else {
        None
    };
    let source = match needs {
        Some(n) => title_at(lines, i + 14 + source_shift(n)),
        None => None,
    };
    RowReportModel { name, level, price, needs, source }
}

/// The reports of the rows that end among the first `n` lines, in order, up
/// to and with the first row that misses a field.
pub open spec fn reports_upto(lines: Seq<Seq<char>>, n: int) -> Seq<RowReportModel>
    decreases n,
{
    if n <= 0 {
        Seq::empty()
    } else {
        let s = reports_upto(lines, n - 1);
        if s.len() > 0 && s.last().source is None {
            s
        } else if is_row_end(lines[n - 1]) {
            s.push(report_at(lines, n - 1))
        } else {
            s
        }
    }
}

proof fn lemma_reports_shape(lines: Seq<Seq<char>>, n: int)
    requires
        0 <= n <= lines.len(),
    ensures
        forall|j: int|
            0 <= j < reports_upto(lines, n).len() - 1 ==> (#[trigger] reports_upto(
                lines,
                n,
            )[j]).source is Some,
        readable_upto(lines, n) <==> (reports_upto(lines, n).len() == 0 || reports_upto(
            lines,
            n,
        ).last().source is Some),
    decreases n,
{
    if n > 0 {
        lemma_reports_shape(lines, n - 1);
        let s = reports_upto(lines, n - 1);
        if !(s.len() > 0 && s.last().source is None) && is_row_end(lines[n - 1]) {
            let t = s.push(report_at(lines, n - 1));
            assert forall|j: int| 0 <= j < t.len() - 1 implies (#[trigger] t[j]).source is Some by {
                if j < s.len() - 1 {
                    assert(t[j] == s[j]);
                } else {
                    assert(t[j] == s.last());
                }
            }
        }
    }
}

proof fn lemma_reports_stop(lines: Seq<Seq<char>>, m: int, n: int)
    requires
        0 <= m <= n,
        reports_upto(lines, m).len() > 0,
        reports_upto(lines, m).last().source is None,
    ensures
        reports_upto(lines, n) == reports_upto(lines, m),
    decreases n - m,
{
    if m < n {
        lemma_reports_stop(lines, m, n - 1);
    }
}

/// The overview pass and `cunvert_to_struct` agree: a table is readable,
/// durations aside, exactly where every row report has all its fields.
pub proof fn lemma_reports_complete_iff_readable(lines: Seq<Seq<char>>)
    ensures
        readable_upto(lines, lines.len() as int) <==> forall|j: int|
            0 <= j < reports_upto(lines, lines.len() as int).len() ==> (#[trigger] reports_upto(
                lines,
                lines.len() as int,
            )[j]).source is Some,
{
    let n = lines.len() as int;
    lemma_reports_shape(lines, n);
    let s = reports_upto(lines, n);
    if s.len() > 0 && s.last().source is None {
        assert(s[s.len() - 1].source is None);
    }
}

/// What is read of the row that ends on line `i`, durations aside.
fn report_of_row(lines: &Vec<String>, i: usize) -> (res: RowReport)
    ensures
        res@ == report_at(lines.deep_view(), i as int),
{
    let n = lines.len();
    assert(lines.deep_view().len() == n);
    let name = title_of_line(lines, i, 2);
    let level = match name {
        Some(_) => match line_of(lines, i, 4) {
            Some(l) => extract_level(l.as_str()),
            None => None,
        },
        None => None,
    };
    let price = match level {
        Some(_) => match line_of(lines, i, 6) {
            Some(l) => extract_price(l.as_str()),
            None => None,
        },
        None => None,
    };
    let needs = match price {
        Some(_) => match i.checked_add(12) {
            Some(s) => needs_of_lines(lines, s),
            None => None,
        },
        None => None,
    };
    let source = match &needs {
        Some(v) => {
            let shift: usize = if v.len() == 0 || v.len() == 1 {
                0
            } else {
                v.len()
            };
            match i.checked_add(14) {
                Some(s) => title_of_line(lines, s, shift),
                None => None,
            }
        },
        None => None,
    };
    RowReport { name, level, price, needs, source }
}

/// The fields of each row of a table, durations aside, in the order of the
/// rows, up to and with the first row that misses a field; in that last
/// report the missing field and those after it are `None`.
pub fn row_reports(lines: &Vec<String>) -> (res: Vec<RowReport>)
    ensures
        reports_view(res@) == reports_upto(lines.deep_view(), lines.deep_view().len() as int),
{
    let ghost all = lines.deep_view();
    let n = lines.len();
    let th: String = "</th></tr>".to_owned();
    let td: String = "</td></tr>".to_owned();
    let mut reports: Vec<RowReport> = Vec::new();
    let mut i: usize = 0;
    while i < n
        invariant
            i <= n,
            n == lines.len(),
            all == lines.deep_view(),
            all.len() == n,
            th@ == "</th></tr>"@,
            td@ == "</td></tr>"@,
            reports_view(reports@) == reports_upto(all, i as int),
            reports@.len() == 0 || reports@.last().source is Some,
        decreases n - i,
    {
        assert(all[i as int] == lines[i as int]@);
        if lines[i] == th || lines[i] == td {
            let r = report_of_row(lines, i);
            let complete = match &r.source {
                Some(_) => true,
                None => false,
            };
            let ghost before = reports@;
            let ghost rv = r@;
            reports.push(r);
            assert(reports_view(reports@) =~= reports_view(before).push(rv));
            if !complete {
                proof {
                    lemma_reports_stop(all, i as int + 1, n as int);
                }
                return reports;
            }
        }
        i = i + 1;
    }
    reports
}

/// The lines from `j` on hold the titles `needs`, one per line, followed by
/// a line that exists and has no title.
pub open spec fn needs_at(lines: Seq<Seq<char>>, j: int, needs: Seq<Seq<char>>) -> bool {
    &&& forall|k: int|
        0 <= k < needs.len() ==> title_at(lines, j + k) == Some(#[trigger] needs[k])
    &&& 0 <= j && j + needs.len() < lines.len()
    &&& title_at(lines, j + needs.len()) is None
}

/// The row that ends on line `i` holds these fields, durations aside: the
/// name two lines on, the level four on, the price six on; the ingredients
/// one per line from twelve lines on, followed by a line that exists and
/// has no title; the source fourteen lines on, moved down by the number of
/// ingredients when there are two or more.
pub open spec fn row_fields_hold(
    lines: Seq<Seq<char>>,
    i: int,
    name: Seq<char>,
    level: u32,
    price: u32,
    needs: Seq<Seq<char>>,
    source: Seq<char>,
) -> bool {
    &&& title_at(lines, i + 2) == Some(name)
    &&& number_at(lines, i + 4) == Some(level)
    &&& number_at(lines, i + 6) == Some(price)
    &&& needs_at(lines, i + 12, needs)
    &&& needs.len() >= 2 ==> title_at(lines, i + 14 + needs.len()) == Some(source)
    &&& needs.len() < 2 ==> title_at(lines, i + 14) == Some(source)
}

/// The row that ends on line `i` holds the item `it`, field by field, its
/// duration eight lines on.
pub open spec fn row_holds(lines: Seq<Seq<char>>, i: int, it: ItemModel) -> bool {
    &&& row_fields_hold(lines, i, it.name, it.level, it.price, it.needs, it.source)
    &&& time_at(lines, i + 8) == Some(it.time)
}

/// Some fields, durations aside, are held by the row that ends on line `i`.
pub open spec fn row_has_fields(lines: Seq<Seq<char>>, i: int) -> bool {
    exists|name: Seq<char>, level: u32, price: u32, needs: Seq<Seq<char>>, source: Seq<char>|
        row_fields_hold(lines, i, name, level, price, needs, source)
}

/// The lines that end a row are exactly `</th></tr>` and `</td></tr>`.
pub proof fn lemma_row_end_texts(line: Seq<char>)
    ensures
        is_row_end(line) <==> (line =~= seq!['<', '/', 't', 'h', '>', '<', '/', 't', 'r', '>']
            || line =~= seq!['<', '/', 't', 'd', '>', '<', '/', 't', 'r', '>']),
{
    reveal_strlit("</th></tr>");
    reveal_strlit("</td></tr>");
    assert("</th></tr>"@ =~= seq!['<', '/', 't', 'h', '>', '<', '/', 't', 'r', '>']);
    assert("</td></tr>"@ =~= seq!['<', '/', 't', 'd', '>', '<', '/', 't', 'r', '>']);
}

/// The titles on the lines from `j` on, up to a line that exists and has
/// none, are the ingredients read from `j` on.
proof fn lemma_needs_unique(lines: Seq<Seq<char>>, j: int, ns: Seq<Seq<char>>)
    requires
        needs_at(lines, j, ns),
    ensures
        needs_from(lines, j) == Some(ns),
    decreases ns.len(),
{
    if ns.len() > 0 {
        let rest = ns.drop_first();
        assert forall|k: int| 0 <= k < rest.len() implies title_at(lines, (j + 1) + k) == Some(
            #[trigger] rest[k],
        ) by {
            assert(title_at(lines, j + (k + 1)) == Some(ns[k + 1]));
        }
        lemma_needs_unique(lines, j + 1, rest);
        assert(title_at(lines, j + 0) == Some(ns[0]));
        assert(seq![ns[0]] + rest =~= ns);
    } else {
        assert(title_at(lines, j + 0) is None);
    }
}

/// The ingredient lines: the titles on the lines from `j` on are the listed
/// ones, and the line after them exists and has no title.
proof fn lemma_needs_lines(lines: Seq<Seq<char>>, j: int)
    requires
        needs_from(lines, j) is Some,
    ensures
        ({
            let ns = needs_from(lines, j).unwrap();
            &&& forall|k: int|
                0 <= k < ns.len() ==> title_at(lines, j + k) == Some(#[trigger] ns[k])
            &&& 0 <= j && j + ns.len() < lines.len()
            &&& title_at(lines, j + ns.len()) is None
        }),
    decreases lines.len() - j,
{
    let ns = needs_from(lines, j).unwrap();
    match spec_extract_title(lines[j]) {
        Some(t) => {
            lemma_needs_lines(lines, j + 1);
            let rest = needs_from(lines, j + 1).unwrap();
            assert(ns == seq![t] + rest);
            assert forall|k: int| 0 <= k < ns.len() implies title_at(lines, j + k) == Some(
                #[trigger] ns[k],
            ) by {
                if k > 0 {
                    assert(ns[k] == rest[k - 1]);
                    assert(title_at(lines, (j + 1) + (k - 1)) == Some(rest[k - 1]));
                }
            }
        },
        None => {},
    }
}

/// A row whose record is read holds that record.
pub proof fn lemma_record_holds(lines: Seq<Seq<char>>, i: int)
    requires
        record_at(lines, i) is Some,
    ensures
        row_holds(lines, i, record_at(lines, i).unwrap()),
{
    lemma_needs_lines(lines, i + 12);
}

/// A row is readable, durations aside, exactly where it holds all its
/// fields at their places.
pub proof fn lemma_readable_row_iff_fields(lines: Seq<Seq<char>>, i: int)
    ensures
        row_readable_at(lines, i) <==> row_has_fields(lines, i),
{
    if row_readable_at(lines, i) {
        lemma_needs_lines(lines, i + 12);
        let needs = needs_from(lines, i + 12).unwrap();
        let source = title_at(lines, i + 14 + source_shift(needs)).unwrap();
        assert(row_fields_hold(
            lines,
            i,
            title_at(lines, i + 2).unwrap(),
            number_at(lines, i + 4).unwrap(),
            number_at(lines, i + 6).unwrap(),
            needs,
            source,
        ));
    }
    if row_has_fields(lines, i) {
        let (name, level, price, needs, source) = choose|
            name: Seq<char>,
            level: u32,
            price: u32,
            needs: Seq<Seq<char>>,
            source: Seq<char>,
        | row_fields_hold(lines, i, name, level, price, needs, source);
        lemma_needs_unique(lines, i + 12, needs);
    }
}

/// What `cunvert_to_struct` decides: a table is readable, durations aside,
/// exactly where every line that ends a row begins a row that holds all its
/// fields at their places.
pub proof fn lemma_readable_iff_rows_hold(lines: Seq<Seq<char>>, n: int)
    requires
        0 <= n <= lines.len(),
    ensures
        readable_upto(lines, n) <==> forall|m: int|
            0 <= m < n && #[trigger] is_row_end(lines[m]) ==> row_has_fields(lines, m),
    decreases n,
{
    if n > 0 {
        lemma_readable_iff_rows_hold(lines, n - 1);
        lemma_readable_row_iff_fields(lines, n - 1);
    }
}

/// The rows `idx` are, in increasing order, lines among the first `n` that
/// end a row, and the `j`-th of them holds `items[j]`.
pub open spec fn rows_hold(lines: Seq<Seq<char>>, n: int, idx: Seq<int>, items: Seq<ItemModel>) -> bool {
    &&& idx.len() == items.len()
    &&& forall|j: int|
        0 <= j < idx.len() ==> 0 <= #[trigger] idx[j] < n && is_row_end(lines[idx[j]])
            && row_holds(lines, idx[j], items[j])
    &&& forall|j: int, k: int| 0 <= j < k < idx.len() ==> idx[j] < idx[k]
    &&& forall|m: int| 0 <= m < n && is_row_end(lines[m]) ==> exists|j: int|
        0 <= j < idx.len() && #[trigger] idx[j] == m
}

/// What `convert_to_struct` gives: where it gives items, there is one per
/// line that ends a row, in the order of those lines, and each is the item
/// that its row holds, field by field.
pub proof fn lemma_convert_rows(lines: Seq<Seq<char>>, n: int) -> (idx: Seq<int>)
    requires
        0 <= n <= lines.len(),
        records_upto(lines, n) is Some,
    ensures
        rows_hold(lines, n, idx, records_upto(lines, n).unwrap()),
    decreases n,
{
    if n == 0 {
        Seq::empty()
    } else {
        let prev = lemma_convert_rows(lines, n - 1);
        let s = records_upto(lines, n - 1).unwrap();
        if is_row_end(lines[n - 1]) {
            let r = record_at(lines, n - 1).unwrap();
            lemma_record_holds(lines, n - 1);
            let idx = prev.push(n - 1);
            let items = s.push(r);
            assert forall|j: int| 0 <= j < idx.len() implies 0 <= #[trigger] idx[j] < n
                && is_row_end(lines[idx[j]]) && row_holds(lines, idx[j], items[j]) by {
                if j < prev.len() {
                    assert(idx[j] == prev[j]);
                    assert(items[j] == s[j]);
                }
            }
            assert forall|m: int| 0 <= m < n && is_row_end(lines[m]) implies exists|j: int|
                0 <= j < idx.len() && #[trigger] idx[j] == m by {
                if m < n - 1 {
                    let j = choose|j: int| 0 <= j < prev.len() && #[trigger] prev[j] == m;
                    assert(idx[j] == m);
                } else {
                    assert(idx[idx.len() - 1] == m);
                }
            }
            idx
        } else {
            prev
        }
    }
}

/// The source line of a row whose ingredients are `needs`.
pub open spec fn source_title(lines: Seq<Seq<char>>, i: int, needs: Seq<Seq<char>>) -> Option<Seq<char>> {
    if needs.len() >= 2 {
        title_at(lines, i + 14 + needs.len())
    } else {
        title_at(lines, i + 14)
    }
}

/// The report `r` of the row that ends on line `i` is true: each field it
/// has is the field at its place, it has a field only where it has the ones
/// before, and the first field it lacks is missing from the row.
pub open spec fn report_true(lines: Seq<Seq<char>>, i: int, r: RowReportModel) -> bool {
    &&& r.name is Some ==> title_at(lines, i + 2) == r.name
    &&& r.name is None ==> title_at(lines, i + 2) is None
    &&& r.level is Some ==> r.name is Some && number_at(lines, i + 4) == r.level
    &&& (r.name is Some && r.level is None) ==> number_at(lines, i + 4) is None
    &&& r.price is Some ==> r.level is Some && number_at(lines, i + 6) == r.price
    &&& (r.level is Some && r.price is None) ==> number_at(lines, i + 6) is None
    &&& r.needs is Some ==> r.price is Some && needs_at(lines, i + 12, r.needs.unwrap())
    &&& (r.price is Some && r.needs is None) ==> forall|ns: Seq<Seq<char>>|
        !#[trigger] needs_at(lines, i + 12, ns)
    &&& r.source is Some ==> r.needs is Some && source_title(lines, i, r.needs.unwrap())
        == r.source
    &&& (r.needs is Some && r.source is None) ==> source_title(lines, i, r.needs.unwrap()) is None
}

/// What is read of a row is true of it.
pub proof fn lemma_report_true(lines: Seq<Seq<char>>, i: int)
    ensures
        report_true(lines, i, report_at(lines, i)),
{
    let r = report_at(lines, i);
    if r.needs is Some {
        lemma_needs_lines(lines, i + 12);
    }
    if r.price is Some && r.needs is None {
        assert forall|ns: Seq<Seq<char>>| !#[trigger] needs_at(lines, i + 12, ns) by {
            if needs_at(lines, i + 12, ns) {
                lemma_needs_unique(lines, i + 12, ns);
            }
        }
    }
}

/// The rows `idx` are, in increasing order, lines among the first `n` that
/// end a row, the `j`-th of them has the true report `reports[j]`, and every
/// line among the first `n` that ends a row has a report, except those after
/// a row that misses a field.
pub open spec fn reports_hold(
    lines: Seq<Seq<char>>,
    n: int,
    idx: Seq<int>,
    reports: Seq<RowReportModel>,
) -> bool {
    &&& idx.len() == reports.len()
    &&& forall|j: int|
        0 <= j < idx.len() ==> 0 <= #[trigger] idx[j] < n && is_row_end(lines[idx[j]])
            && report_true(lines, idx[j], reports[j])
    &&& forall|j: int, k: int| 0 <= j < k < idx.len() ==> idx[j] < idx[k]
    &&& forall|m: int|
        0 <= m < n && is_row_end(lines[m]) ==> (exists|j: int|
            0 <= j < idx.len() && #[trigger] idx[j] == m) || (idx.len() > 0
            && reports.last().source is None && idx.last() < m)
}

/// What `row_reports` gives: one true report per line that ends a row, in
/// the order of those lines, up to and with the first row that misses a
/// field.
pub proof fn lemma_reports_rows(lines: Seq<Seq<char>>, n: int) -> (idx: Seq<int>)
    requires
        0 <= n <= lines.len(),
    ensures
        reports_hold(lines, n, idx, reports_upto(lines, n)),
    decreases n,
{
    if n == 0 {
        Seq::empty()
    } else {
        let prev = lemma_reports_rows(lines, n - 1);
        let s = reports_upto(lines, n - 1);
        if s.len() > 0 && s.last().source is None {
            assert forall|m: int|
                0 <= m < n && is_row_end(lines[m]) implies (exists|j: int|
                    0 <= j < prev.len() && #[trigger] prev[j] == m) || (prev.len() > 0
                    && s.last().source is None && prev.last() < m) by {
                if m == n - 1 {
                    assert(prev[prev.len() - 1] < n - 1);
                }
            }
            prev
        } else if is_row_end(lines[n - 1]) {
            let r = report_at(lines, n - 1);
            lemma_report_true(lines, n - 1);
            let idx = prev.push(n - 1);
            let t = s.push(r);
            assert forall|j: int| 0 <= j < idx.len() implies 0 <= #[trigger] idx[j] < n
                && is_row_end(lines[idx[j]]) && report_true(lines, idx[j], t[j]) by {
                if j < prev.len() {
                    assert(idx[j] == prev[j]);
                    assert(t[j] == s[j]);
                }
            }
            assert forall|m: int|
                0 <= m < n && is_row_end(lines[m]) implies (exists|j: int|
                    0 <= j < idx.len() && #[trigger] idx[j] == m) || (idx.len() > 0
                    && t.last().source is None && idx.last() < m) by {
                if m < n - 1 {
                    let j = choose|j: int| 0 <= j < prev.len() && #[trigger] prev[j] == m;
                    assert(idx[j] == m);
                } else {
                    assert(idx[idx.len() - 1] == m);
                }
            }
            idx
        } else {
            prev
        }
    }
}


} // verus!
