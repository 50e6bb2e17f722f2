//! The calendar renderer: turns a month's record into two lines of
//! fixed-width display cells. Each cell is classified as header, weekday,
//! weekend, or separator so any display can map the classes to its own
//! styling; the core emits no styling itself.

use vstd::prelude::*;

use crate::TimesheetError;
use crate::calendar::{
    Weekday, days_in_month, days_in_month_spec, is_weekend, valid_ym, weekday_of, weekday_spec,
};
use crate::digits::{dec_of, push_decimal};
use crate::record::DailyRecord;

verus! {

pub const SPACE: u8 = 32;

/// The vertical bar drawn between weeks.
pub const BAR: u8 = 124;

/// How a display should style one cell.
#[derive(Clone, Copy, PartialEq, Eq, Structural, Debug)]
pub enum CellKind {
    Header,
    Weekday,
    Weekend,
    Separator,
}

/// One display token: its text and its styling class.
#[derive(Debug)]
pub struct Cell {
    pub text: Vec<u8>,
    pub kind: CellKind,
}

/// The mathematical image of a cell.
pub struct CellModel {
    pub text: Seq<u8>,
    pub kind: CellKind,
}

impl Cell {
    pub open spec fn model(self) -> CellModel {
        CellModel { text: self.text@, kind: self.kind }
    }
}

/// Text right-padded with spaces to the display width of three.
pub open spec fn pad3(s: Seq<u8>) -> Seq<u8> {
    if s.len() >= 3 {
        s
    } else {
        s + Seq::new((3 - s.len()) as nat, |i: int| SPACE)
    }
}

/// The three blank spaces shown for a non-worked weekend day.
pub open spec fn blank_cell_text() -> Seq<u8> {
    seq![SPACE, SPACE, SPACE]
}

pub open spec fn separator_cell() -> CellModel {
    CellModel { text: seq![BAR], kind: CellKind::Separator }
}

/// The separator emitted after a day whose next day is a Monday: after each
/// Sunday, also when that Monday falls in the next month.
pub open spec fn seps_after(y: int, m: int, d: int) -> Seq<CellModel> {
    if weekday_spec(y, m, d) == Weekday::Sunday {
        seq![separator_cell()]
    } else {
        Seq::<CellModel>::empty()
    }
}

pub open spec fn header_cell(d: int) -> CellModel {
    CellModel { text: pad3(dec_of(d)), kind: CellKind::Header }
}

/// The first display line from day `from` on: each day number as a header
/// cell, a separator after each Sunday.
pub open spec fn header_cells(y: int, m: int, from: int, days: int) -> Seq<CellModel>
    decreases days + 1 - from,
{
    if from > days {
        Seq::<CellModel>::empty()
    } else {
        seq![header_cell(from)] + seps_after(y, m, from) + header_cells(y, m, from + 1, days)
    }
}

/// The second-line cell for one day: the hours as text, styled as weekend on
/// Saturday and Sunday, and blank — not `0` — on a non-worked weekend day.
/// Weekday cells always show the number, zero included.
pub open spec fn hour_cell(y: int, m: int, d: int, h: u64) -> CellModel {
    if is_weekend(weekday_spec(y, m, d)) {
        if h == 0 {
            CellModel { text: blank_cell_text(), kind: CellKind::Weekend }
        } else {
            CellModel { text: pad3(dec_of(h as int)), kind: CellKind::Weekend }
        }
    } else {
        CellModel { text: pad3(dec_of(h as int)), kind: CellKind::Weekday }
    }
}

/// The second display line from day `from` on, over the hour values `h`.
pub open spec fn hour_cells(y: int, m: int, h: Seq<u64>, from: int, days: int) -> Seq<CellModel>
    decreases days + 1 - from,
{
    if from > days {
        Seq::<CellModel>::empty()
    } else {
        seq![hour_cell(y, m, from, h[from - 1])] + seps_after(y, m, from) + hour_cells(
            y,
            m,
            h,
            from + 1,
            days,
        )
    }
}

/// The digits of `n` right-padded with spaces to width three.
fn cell_text(n: u64) -> (t: Vec<u8>)
    ensures
        t@ == pad3(dec_of(n as int)),
{
    let mut t: Vec<u8> = Vec::new();
    push_decimal(&mut t, n);
    let ghost base = dec_of(n as int);
    proof {
        assert(t@ =~= base);
        assert(t@ =~= base + Seq::new((t@.len() - base.len()) as nat, |i: int| SPACE));
    }
    while t.len() < 3
        invariant
            base == dec_of(n as int),
            base.len() <= t@.len(),
            t@.len() <= 3 || t@ == base,
            t@ == base + Seq::new((t@.len() - base.len()) as nat, |i: int| SPACE),
        decreases 3 - t@.len(),
    {
        t.push(SPACE);
        assert(t@ =~= base + Seq::new((t@.len() - base.len()) as nat, |i: int| SPACE));
    }
    proof {
        if base.len() >= 3 {
            assert(t@ =~= pad3(base));
        } else {
            assert(t@.len() == 3);
            assert(t@ =~= pad3(base));
        }
    }
    t
}

fn blank_text() -> (t: Vec<u8>)
    ensures
        t@ == blank_cell_text(),
{
    let mut t: Vec<u8> = Vec::new();
    t.push(SPACE);
    t.push(SPACE);
    t.push(SPACE);
    assert(t@ =~= blank_cell_text());
    t
}

fn bar_text() -> (t: Vec<u8>)
    ensures
        t@ == seq![BAR],
{
    let mut t: Vec<u8> = Vec::new();
    t.push(BAR);
    assert(t@ =~= seq![BAR]);
    t
}

/// Renders a record as its two display lines: day numbers, then hours, with a
/// separator cell after each Sunday on both lines. Iteration runs from day 1
/// to the month's last day and never overruns into the next month. Fails with
/// `MissingDay` exactly when the record does not cover every day of its
/// month — an internal-consistency fault a correct store never produces.
pub fn render(r: &DailyRecord) -> (res: Result<(Vec<Cell>, Vec<Cell>), TimesheetError>)
    requires
        valid_ym(r.year as int, r.month as int),
    ensures
        match res {
            Ok(lines) => {
                &&& r.wf()
                &&& lines.0@.map_values(|c: Cell| c.model()) == header_cells(
                    r.year as int,
                    r.month as int,
                    1,
                    days_in_month_spec(r.year as int, r.month as int),
                )
                &&& lines.1@.map_values(|c: Cell| c.model()) == hour_cells(
                    r.year as int,
                    r.month as int,
                    r.hours@,
                    1,
                    days_in_month_spec(r.year as int, r.month as int),
                )
            },
            Err(e) => e == TimesheetError::MissingDay && !r.wf(),
        },
{
    let y = r.year;
    let m = r.month;
    let days = days_in_month(y, m);
    if r.hours.len() != days as usize {
        return Err(TimesheetError::MissingDay);
    }
    let mut line1: Vec<Cell> = Vec::new();
    proof {
        assert(line1@.map_values(|c: Cell| c.model()) =~= Seq::<CellModel>::empty());
    }
    let mut d: u32 = 1;
    while d <= days
        invariant
            1 <= d <= days + 1,
            days == days_in_month_spec(y as int, m as int),
            valid_ym(y as int, m as int),
            line1@.map_values(|c: Cell| c.model()) + header_cells(
                y as int,
                m as int,
                d as int,
                days as int,
            ) == header_cells(y as int, m as int, 1, days as int),
        decreases days + 1 - d,
    {
        let ghost before = line1@.map_values(|c: Cell| c.model());
        let txt = cell_text(d as u64);
        line1.push(Cell { text: txt, kind: CellKind::Header });
        proof {
            assert(line1@.map_values(|c: Cell| c.model()) =~= before.push(header_cell(d as int)));
        }
        let w = weekday_of(y, m, d);
        if w == Weekday::Sunday {
            let ghost mid = line1@.map_values(|c: Cell| c.model());
            let bar = bar_text();
            line1.push(Cell { text: bar, kind: CellKind::Separator });
            proof {
                assert(line1@.map_values(|c: Cell| c.model()) =~= mid.push(separator_cell()));
            }
        }
        proof {
            assert(before + header_cells(y as int, m as int, d as int, days as int)
                =~= line1@.map_values(|c: Cell| c.model()) + header_cells(
                y as int,
                m as int,
                d as int + 1,
                days as int,
            ));
        }
        d = d + 1;
    }
    let mut line2: Vec<Cell> = Vec::new();
    proof {
        assert(line2@.map_values(|c: Cell| c.model()) =~= Seq::<CellModel>::empty());
    }
    let mut e: u32 = 1;
    while e <= days
        invariant
            1 <= e <= days + 1,
            days == days_in_month_spec(y as int, m as int),
            valid_ym(y as int, m as int),
            r.hours@.len() == days,
            line2@.map_values(|c: Cell| c.model()) + hour_cells(
                y as int,
                m as int,
                r.hours@,
                e as int,
                days as int,
            ) == hour_cells(y as int, m as int, r.hours@, 1, days as int),
        decreases days + 1 - e,
    {
        let ghost before = line2@.map_values(|c: Cell| c.model());
        let h = r.hours[(e - 1) as usize];
        let w = weekday_of(y, m, e);
        let cell = if w == Weekday::Saturday || w == Weekday::Sunday {
            if h == 0 {
                Cell { text: blank_text(), kind: CellKind::Weekend }
            } else {
                Cell { text: cell_text(h), kind: CellKind::Weekend }
            }
        } else {
            Cell { text: cell_text(h), kind: CellKind::Weekday }
        };
        line2.push(cell);
        proof {
            assert(line2@.map_values(|c: Cell| c.model()) =~= before.push(
                hour_cell(y as int, m as int, e as int, r.hours@[e as int - 1]),
            ));
        }
        if w == Weekday::Sunday {
            let ghost mid = line2@.map_values(|c: Cell| c.model());
            let bar = bar_text();
            line2.push(Cell { text: bar, kind: CellKind::Separator });
            proof {
                assert(line2@.map_values(|c: Cell| c.model()) =~= mid.push(separator_cell()));
            }
        }
        proof {
            assert(before + hour_cells(y as int, m as int, r.hours@, e as int, days as int)
                =~= line2@.map_values(|c: Cell| c.model()) + hour_cells(
                y as int,
                m as int,
                r.hours@,
                e as int + 1,
                days as int,
            ));
        }
        e = e + 1;
    }
    Ok((line1, line2))
}

/// How many cells of a line carry the class `k`.
pub open spec fn count_kind(cells: Seq<CellModel>, k: CellKind) -> int
    decreases cells.len(),
{
    if cells.len() == 0 {
        0
    } else {
        (if cells[0].kind == k {
            1int
        } else {
            0int
        }) + count_kind(cells.drop_first(), k)
    }
}

/// How many of the days `from ..= days` fall on a Sunday.
pub open spec fn count_sundays(y: int, m: int, from: int, days: int) -> int
    decreases days + 1 - from,
{
    if from > days {
        0
    } else {
        (if weekday_spec(y, m, from) == Weekday::Sunday {
            1int
        } else {
            0int
        }) + count_sundays(y, m, from + 1, days)
    }
}

proof fn lemma_count_kind_add(a: Seq<CellModel>, b: Seq<CellModel>, k: CellKind)
    ensures
        count_kind(a + b, k) == count_kind(a, k) + count_kind(b, k),
    decreases a.len(),
{
    if a.len() == 0 {
        assert(a + b =~= b);
    } else {
        assert((a + b).drop_first() =~= a.drop_first() + b);
        assert((a + b)[0] == a[0]);
        lemma_count_kind_add(a.drop_first(), b, k);
    }
}

proof fn lemma_count_kind_single(c: CellModel, k: CellKind)
    ensures
        count_kind(seq![c], k) == if c.kind == k {
            1int
        } else {
            0int
        },
{
    assert(seq![c].drop_first() =~= Seq::<CellModel>::empty());
    assert(count_kind(Seq::<CellModel>::empty(), k) == 0);
    assert(seq![c][0] == c);
}

/// The first line carries exactly one header cell per calendar day, exactly
/// one separator per Sunday among those days, and nothing else.
pub proof fn lemma_header_line_counts(y: int, m: int, from: int, days: int)
    ensures
        count_kind(header_cells(y, m, from, days), CellKind::Header) == if from > days {
            0int
        } else {
            days + 1 - from
        },
        count_kind(header_cells(y, m, from, days), CellKind::Separator) == count_sundays(
            y,
            m,
            from,
            days,
        ),
        count_kind(header_cells(y, m, from, days), CellKind::Weekday) == 0,
        count_kind(header_cells(y, m, from, days), CellKind::Weekend) == 0,
    decreases days + 1 - from,
{
    if from <= days {
        lemma_header_line_counts(y, m, from + 1, days);
        let first = seq![header_cell(from)] + seps_after(y, m, from);
        let rest = header_cells(y, m, from + 1, days);
        assert(header_cells(y, m, from, days) == first + rest);
        lemma_count_kind_add(first, rest, CellKind::Header);
        lemma_count_kind_add(first, rest, CellKind::Separator);
        lemma_count_kind_add(first, rest, CellKind::Weekday);
        lemma_count_kind_add(first, rest, CellKind::Weekend);
        lemma_count_kind_add(seq![header_cell(from)], seps_after(y, m, from), CellKind::Header);
        lemma_count_kind_add(seq![header_cell(from)], seps_after(y, m, from), CellKind::Separator);
        lemma_count_kind_add(seq![header_cell(from)], seps_after(y, m, from), CellKind::Weekday);
        lemma_count_kind_add(seq![header_cell(from)], seps_after(y, m, from), CellKind::Weekend);
        lemma_count_kind_single(header_cell(from), CellKind::Header);
        lemma_count_kind_single(header_cell(from), CellKind::Separator);
        lemma_count_kind_single(header_cell(from), CellKind::Weekday);
        lemma_count_kind_single(header_cell(from), CellKind::Weekend);
        if weekday_spec(y, m, from) == Weekday::Sunday {
            lemma_count_kind_single(separator_cell(), CellKind::Header);
            lemma_count_kind_single(separator_cell(), CellKind::Separator);
            lemma_count_kind_single(separator_cell(), CellKind::Weekday);
            lemma_count_kind_single(separator_cell(), CellKind::Weekend);
        }
    }
}

/// The second line carries exactly one day cell — weekday or weekend — per
/// calendar day, exactly one separator per Sunday among those days, and no
/// header cells.
pub proof fn lemma_hours_line_counts(y: int, m: int, h: Seq<u64>, from: int, days: int)
    ensures
        count_kind(hour_cells(y, m, h, from, days), CellKind::Weekday) + count_kind(
            hour_cells(y, m, h, from, days),
            CellKind::Weekend,
        ) == if from > days {
            0int
        } else {
            days + 1 - from
        },
        count_kind(hour_cells(y, m, h, from, days), CellKind::Separator) == count_sundays(
            y,
            m,
            from,
            days,
        ),
        count_kind(hour_cells(y, m, h, from, days), CellKind::Header) == 0,
    decreases days + 1 - from,
{
    if from <= days {
        lemma_hours_line_counts(y, m, h, from + 1, days);
        let c = hour_cell(y, m, from, h[from - 1]);
        let first = seq![c] + seps_after(y, m, from);
        let rest = hour_cells(y, m, h, from + 1, days);
        assert(hour_cells(y, m, h, from, days) == first + rest);
        lemma_count_kind_add(first, rest, CellKind::Header);
        lemma_count_kind_add(first, rest, CellKind::Separator);
        lemma_count_kind_add(first, rest, CellKind::Weekday);
        lemma_count_kind_add(first, rest, CellKind::Weekend);
        lemma_count_kind_add(seq![c], seps_after(y, m, from), CellKind::Header);
        lemma_count_kind_add(seq![c], seps_after(y, m, from), CellKind::Separator);
        lemma_count_kind_add(seq![c], seps_after(y, m, from), CellKind::Weekday);
        lemma_count_kind_add(seq![c], seps_after(y, m, from), CellKind::Weekend);
        lemma_count_kind_single(c, CellKind::Header);
        lemma_count_kind_single(c, CellKind::Separator);
        lemma_count_kind_single(c, CellKind::Weekday);
        lemma_count_kind_single(c, CellKind::Weekend);
        if weekday_spec(y, m, from) == Weekday::Sunday {
            lemma_count_kind_single(separator_cell(), CellKind::Header);
            lemma_count_kind_single(separator_cell(), CellKind::Separator);
            lemma_count_kind_single(separator_cell(), CellKind::Weekday);
            lemma_count_kind_single(separator_cell(), CellKind::Weekend);
        }
    }
}

} // verus!
