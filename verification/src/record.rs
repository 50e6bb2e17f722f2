//! The data model: a project-month key and the dense record of hours worked
//! on each day of that month.

use vstd::prelude::*;
use vstd::pervasive::VecAdditionalExecFns;

use crate::TimesheetError;
use crate::calendar::{Date, days_in_month, days_in_month_spec, valid_ym};
use crate::digits::{dec_pad, push_decimal_padded};

verus! {

/// The bytes of `-time-`, the fixed infix of a timesheet file name.
pub open spec fn name_infix() -> Seq<u8> {
    seq![45u8, 116u8, 105u8, 109u8, 101u8, 45u8]
}

/// The bytes of `.csv`, the fixed suffix of a timesheet file name.
pub open spec fn name_suffix() -> Seq<u8> {
    seq![46u8, 99u8, 115u8, 118u8]
}

/// The file name `{project}-time-{MM}-{YYYY}.csv` that a month key maps to.
/// This name is the external persisted format and is reproduced exactly.
pub open spec fn file_name_spec(project: Seq<u8>, y: int, m: int) -> Seq<u8> {
    project + name_infix() + dec_pad(m, 2) + seq![45u8] + dec_pad(y, 4) + name_suffix()
}

/// Names one project-month: the unit of durable storage. Two keys are equal
/// exactly when the project bytes, year, and month all match.
#[derive(Clone, Debug)]
pub struct MonthKey {
    pub project: Vec<u8>,
    pub year: u32,
    pub month: u32,
}

impl MonthKey {
    pub open spec fn valid(self) -> bool {
        valid_ym(self.year as int, self.month as int)
    }

    /// The name of the backing file for this key, inside the storage
    /// directory.
    pub fn file_name(&self) -> (name: Vec<u8>)
        requires
            self.valid(),
        ensures
            name@ == file_name_spec(self.project@, self.year as int, self.month as int),
    {
        let mut name: Vec<u8> = Vec::new();
        let mut i: usize = 0;
        while i < self.project.len()
            invariant
                i <= self.project@.len(),
                name@ == self.project@.take(i as int),
            decreases self.project@.len() - i,
        {
            let b = self.project[i];
            name.push(b);
            assert(name@ =~= self.project@.take(i as int + 1));
            i = i + 1;
        }
        assert(self.project@.take(self.project@.len() as int) =~= self.project@);
        name.push(45);
        name.push(116);
        name.push(105);
        name.push(109);
        name.push(101);
        name.push(45);
        assert(name@ =~= self.project@ + name_infix());
        push_decimal_padded(&mut name, self.month as u64, 2);
        name.push(45);
        push_decimal_padded(&mut name, self.year as u64, 4);
        name.push(46);
        name.push(99);
        name.push(115);
        name.push(118);
        assert(name@ =~= file_name_spec(self.project@, self.year as int, self.month as int));
        name
    }
}

/// The hours worked on each day of one month: entry `d - 1` belongs to day
/// `d`. Well-formed records cover every calendar day of the month exactly
/// once, so coverage is structural, never asserted.
#[derive(Clone, Debug)]
pub struct DailyRecord {
    pub year: u32,
    pub month: u32,
    pub hours: Vec<u64>,
}

impl DailyRecord {
    /// Full day coverage: one hours entry per calendar day of the month.
    pub open spec fn wf(self) -> bool {
        valid_ym(self.year as int, self.month as int) && self.hours@.len() == days_in_month_spec(
            self.year as int,
            self.month as int,
        )
    }

    /// A fresh record for a month never touched before: zero hours on every
    /// day.
    pub fn new(year: u32, month: u32) -> (r: DailyRecord)
        requires
            valid_ym(year as int, month as int),
        ensures
            r.wf(),
            r.year == year,
            r.month == month,
            r.hours@.len() == days_in_month_spec(year as int, month as int),
            forall|i: int| 0 <= i < r.hours@.len() ==> r.hours@[i] == 0,
    {
        let days = days_in_month(year, month);
        let mut hours: Vec<u64> = Vec::new();
        let mut d: u32 = 0;
        while d < days
            invariant
                d <= days,
                hours@.len() == d,
                forall|i: int| 0 <= i < hours@.len() ==> hours@[i] == 0,
            decreases days - d,
        {
            hours.push(0);
            d = d + 1;
        }
        DailyRecord { year, month, hours }
    }

    /// The hours stored for day `day` of the record's month, if the record
    /// covers that day.
    pub fn hours_on(&self, day: u32) -> (h: Option<u64>)
        ensures
            match h {
                Some(v) => 1 <= day && day <= self.hours@.len() && v == self.hours@[day - 1],
                None => !(1 <= day && day <= self.hours@.len()),
            },
    {
        if 1 <= day && (day as usize) <= self.hours.len() {
            Some(self.hours[(day - 1) as usize])
        } else {
            None
        }
    }

    /// Returns a record identical to this one except that `date`'s day holds
    /// `hours`; fails with `OutOfRange` when `date` does not fall within the
    /// record's month. The input record is never altered.
    pub fn set_day(&self, date: Date, hours: u64) -> (r: Result<DailyRecord, TimesheetError>)
        requires
            self.wf(),
        ensures
            match r {
                Ok(rec) => {
                    &&& date.valid()
                    &&& date.year == self.year
                    &&& date.month == self.month
                    &&& rec.wf()
                    &&& rec.year == self.year
                    &&& rec.month == self.month
                    &&& rec.hours@ == self.hours@.update(date.day - 1, hours)
                    &&& rec.hours@[date.day - 1] == hours
                    &&& forall|i: int|
                        0 <= i < self.hours@.len() && i != date.day - 1 ==> rec.hours@[i]
                            == self.hours@[i]
                },
                Err(e) => {
                    &&& e == TimesheetError::OutOfRange
                    &&& !(date.valid() && date.year == self.year && date.month == self.month)
                },
            },
    {
        if date.year == self.year && date.month == self.month && 1 <= date.day && (
        date.day as usize) <= self.hours.len() {
            let mut new_hours: Vec<u64> = Vec::new();
            let mut i: usize = 0;
            while i < self.hours.len()
                invariant
                    i <= self.hours@.len(),
                    new_hours@ == self.hours@.take(i as int),
                decreases self.hours@.len() - i,
            {
                let v = self.hours[i];
                new_hours.push(v);
                assert(new_hours@ =~= self.hours@.take(i as int + 1));
                i = i + 1;
            }
            assert(self.hours@.take(self.hours@.len() as int) =~= self.hours@);
            new_hours.set((date.day - 1) as usize, hours);
            Ok(DailyRecord { year: self.year, month: self.month, hours: new_hours })
        } else {
            Err(TimesheetError::OutOfRange)
        }
    }
}

impl PartialEq for DailyRecord {
    /// Two records are equal exactly when month, year, and every day's hours
    /// match.
    fn eq(&self, other: &DailyRecord) -> (r: bool) {
        if self.year != other.year || self.month != other.month || self.hours.len()
            != other.hours.len() {
            return false;
        }
        let mut i: usize = 0;
        while i < self.hours.len()
            invariant
                i <= self.hours@.len(),
                self.hours@.len() == other.hours@.len(),
                forall|j: int| 0 <= j < i ==> self.hours@[j] == other.hours@[j],
            decreases self.hours@.len() - i,
        {
            if self.hours[i] != other.hours[i] {
                return false;
            }
            i = i + 1;
        }
        proof {
            assert(self.hours@ =~= other.hours@);
        }
        true
    }
}

impl vstd::std_specs::cmp::PartialEqSpecImpl for DailyRecord {
    open spec fn obeys_eq_spec() -> bool {
        true
    }

    open spec fn eq_spec(&self, other: &DailyRecord) -> bool {
        self.year == other.year && self.month == other.month && self.hours@ == other.hours@
    }
}

} // verus!
