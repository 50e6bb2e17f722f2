//! The on-disk codec for one project-month: a header line of comma-joined ISO
//! dates and a data line of comma-joined hour values, positionally aligned.

use vstd::prelude::*;

use crate::TimesheetError;
use crate::calendar::{days_in_month, days_in_month_spec, valid_ym};
use crate::digits::{
    all_digits, dec_of, dec_pad, dec_val, is_digit, lemma_dec_of_digits, lemma_dec_pad_digits,
    lemma_dec_val_of, push_decimal, push_decimal_padded, token_value, valid_token,
};
use crate::record::DailyRecord;
use crate::scan::{
    find_byte, find_byte_from, free_of, join_tokens, lemma_find_byte_some, lemma_join_free,
    lemma_join_push, lemma_split_first_sep, lemma_split_join, lemma_split_no_sep, split_on,
};

verus! {

pub const NEWLINE: u8 = 10;

pub const COMMA: u8 = 44;

pub const DASH: u8 = 45;

/// One `YYYY-MM-DD` date as the header line stores it.
pub open spec fn iso_date_spec(y: int, m: int, d: int) -> Seq<u8> {
    dec_pad(y, 4) + seq![DASH] + dec_pad(m, 2) + seq![DASH] + dec_pad(d, 2)
}

/// The header line: the month's dates, ascending, comma-joined.
pub open spec fn header_line_spec(y: int, m: int) -> Seq<u8> {
    join_tokens(
        Seq::new(days_in_month_spec(y, m) as nat, |i: int| iso_date_spec(y, m, i + 1)),
        COMMA,
    )
}

/// The data line: the hour values, comma-joined, in day order.
pub open spec fn hours_line_spec(h: Seq<u64>) -> Seq<u8> {
    join_tokens(Seq::new(h.len(), |i: int| dec_of(h[i] as int)), COMMA)
}

/// The full payload of a record's backing file: two newline-ended lines.
pub open spec fn encode_spec(r: DailyRecord) -> Seq<u8> {
    header_line_spec(r.year as int, r.month as int) + seq![NEWLINE] + hours_line_spec(r.hours@)
        + seq![NEWLINE]
}

/// The payload's second line: the bytes after the first newline, up to the
/// next newline or the end. `None` when the payload has no second line.
pub open spec fn line_two(data: Seq<u8>) -> Option<Seq<u8>> {
    match find_byte(data, NEWLINE) {
        None => None,
        Some(i) => {
            let rest = data.skip(i + 1);
            match find_byte(rest, NEWLINE) {
                None => Some(rest),
                Some(j) => Some(rest.take(j)),
            }
        },
    }
}

/// The hour values of a data line that carries exactly `days` decimal tokens;
/// `None` when the count or any token is wrong.
pub open spec fn parse_line_spec(line: Seq<u8>, days: int) -> Option<Seq<u64>> {
    let toks = split_on(line, COMMA);
    if toks.len() == days && (forall|i: int|
        0 <= i < toks.len() ==> valid_token(#[trigger] toks[i])) {
        Some(Seq::new(days as nat, |i: int| dec_val(toks[i]) as u64))
    } else {
        None
    }
}

/// What loading a stored payload for month `m` of year `y` yields: the hour
/// values when the payload has two lines and the data line carries one valid
/// value per calendar day of that month, `None` otherwise.
pub open spec fn parse_spec(y: int, m: int, data: Seq<u8>) -> Option<Seq<u64>> {
    match line_two(data) {
        None => None,
        Some(line) => parse_line_spec(line, days_in_month_spec(y, m)),
    }
}

/// Splits `line` at commas into its fields.
fn split_commas(line: &Vec<u8>) -> (toks: Vec<Vec<u8>>)
    ensures
        toks@.map_values(|t: Vec<u8>| t@) == split_on(line@, COMMA),
{
    let ghost gl = line@;
    let mut toks: Vec<Vec<u8>> = Vec::new();
    let mut pos: usize = 0;
    proof {
        assert(gl.skip(0) =~= gl);
        assert(toks@.map_values(|t: Vec<u8>| t@) =~= Seq::<Seq<u8>>::empty());
    }
    loop
        invariant_except_break
            split_on(gl, COMMA) == toks@.map_values(|t: Vec<u8>| t@) + split_on(
                gl.skip(pos as int),
                COMMA,
            ),
        invariant
            pos <= gl.len(),
            gl == line@,
        ensures
            split_on(gl, COMMA) == toks@.map_values(|t: Vec<u8>| t@),
        decreases gl.len() - pos,
    {
        let ghost old_toks = toks@;
        let llen = line.len();
        let found = find_byte_from(line, COMMA, pos);
        let end = match found {
            Some(k) => k,
            None => line.len(),
        };
        let mut tok: Vec<u8> = Vec::new();
        let mut j: usize = pos;
        while j < end
            invariant
                pos <= j <= end <= gl.len(),
                gl == line@,
                tok@ == gl.subrange(pos as int, j as int),
            decreases end - j,
        {
            let b = line[j];
            tok.push(b);
            assert(tok@ =~= gl.subrange(pos as int, j as int + 1));
            j = j + 1;
        }
        let ghost tv = tok@;
        toks.push(tok);
        proof {
            assert(toks@.map_values(|t: Vec<u8>| t@) =~= old_toks.map_values(|t: Vec<u8>| t@)
                .push(tv));
        }
        match found {
            Some(k) => {
                proof {
                    let suf = gl.skip(pos as int);
                    assert(suf[k - pos] == gl[k as int]);
                    assert forall|i: int| 0 <= i < k - pos implies suf[i] != COMMA by {
                        assert(suf[i] == gl[pos + i]);
                    }
                    lemma_split_first_sep(suf, COMMA, k - pos);
                    assert(suf.take(k - pos) =~= tv);
                    assert(suf.skip(k - pos + 1) =~= gl.skip(k + 1));
                    assert(old_toks.map_values(|t: Vec<u8>| t@) + (seq![tv] + split_on(
                        gl.skip(k + 1),
                        COMMA,
                    )) =~= toks@.map_values(|t: Vec<u8>| t@) + split_on(gl.skip(k + 1), COMMA));
                }
                assert(k < llen);
                pos = k + 1;
            },
            None => {
                proof {
                    let suf = gl.skip(pos as int);
                    assert forall|i: int| 0 <= i < suf.len() implies suf[i] != COMMA by {
                        assert(suf[i] == gl[pos + i]);
                    }
                    lemma_split_no_sep(suf, COMMA);
                    assert(suf =~= tv);
                    assert(old_toks.map_values(|t: Vec<u8>| t@) + seq![tv] =~= toks@.map_values(
                        |t: Vec<u8>| t@,
                    ));
                }
                break ;
            },
        }
    }
    toks
}

/// Parses a data line against the month's day count.
fn parse_line(line: &Vec<u8>, days: u32) -> (r: Option<Vec<u64>>)
    ensures
        match r {
            Some(v) => parse_line_spec(line@, days as int) == Some(v@),
            None => parse_line_spec(line@, days as int) == None::<Seq<u64>>,
        },
{
    let ghost stoks = split_on(line@, COMMA);
    let toks = split_commas(line);
    if toks.len() != days as usize {
        return None;
    }
    let mut vals: Vec<u64> = Vec::new();
    let mut i: usize = 0;
    while i < toks.len()
        invariant
            i <= toks@.len(),
            toks@.map_values(|t: Vec<u8>| t@) == stoks,
            stoks == split_on(line@, COMMA),
            toks@.len() == days,
            vals@.len() == i,
            forall|j: int|
                0 <= j < i ==> valid_token(#[trigger] stoks[j]) && vals@[j] as int == dec_val(
                    stoks[j],
                ),
        decreases toks@.len() - i,
    {
        let t = &toks[i];
        assert(t@ == stoks[i as int]);
        match token_value(t) {
            Some(v) => {
                vals.push(v);
            },
            None => {
                assert(!valid_token(stoks[i as int]));
                return None;
            },
        }
        i = i + 1;
    }
    proof {
        assert(vals@ =~= Seq::new(days as nat, |j: int| dec_val(stoks[j]) as u64));
    }
    Some(vals)
}

/// Parses a stored payload into the record for month `month` of `year`. Fails
/// with `CorruptFormat` when the payload lacks the two-line structure, or when
/// the data line's value count differs from the month's day count, or when a
/// value is not a non-negative integer that fits the stored width. The header
/// line's dates are trusted as-is; only their count's twin, the data line, is
/// validated.
pub fn parse_record(year: u32, month: u32, data: &Vec<u8>) -> (r: Result<
    DailyRecord,
    TimesheetError,
>)
    requires
        valid_ym(year as int, month as int),
    ensures
        match parse_spec(year as int, month as int, data@) {
            Some(h) => {
                &&& r matches Ok(rec)
                &&& rec.wf()
                &&& rec.year == year
                &&& rec.month == month
                &&& rec.hours@ == h
            },
            None => r matches Err(e) && e == TimesheetError::CorruptFormat,
        },
{
    proof {
        assert(data@.skip(0) =~= data@);
    }
    let dlen = data.len();
    let i1 = match find_byte_from(data, NEWLINE, 0) {
        None => {
            return Err(TimesheetError::CorruptFormat);
        },
        Some(i) => i,
    };
    assert(i1 < dlen);
    let start = i1 + 1;
    let found2 = find_byte_from(data, NEWLINE, start);
    let end = match found2 {
        Some(j) => j,
        None => data.len(),
    };
    let mut line: Vec<u8> = Vec::new();
    let mut k: usize = start;
    while k < end
        invariant
            start <= k <= end <= data@.len(),
            line@ == data@.subrange(start as int, k as int),
        decreases end - k,
    {
        let b = data[k];
        line.push(b);
        assert(line@ =~= data@.subrange(start as int, k as int + 1));
        k = k + 1;
    }
    proof {
        let rest = data@.skip(start as int);
        match found2 {
            Some(j) => {
                assert(line@ =~= rest.take(j - start));
            },
            None => {
                assert(line@ =~= rest);
            },
        }
        assert(line_two(data@) == Some(line@));
    }
    let days = days_in_month(year, month);
    match parse_line(&line, days) {
        Some(vals) => Ok(DailyRecord { year, month, hours: vals }),
        None => Err(TimesheetError::CorruptFormat),
    }
}

/// The store's load, after the unverified shell has read the backing file:
/// a present payload is parsed; a missing one yields the fresh record with
/// zero hours on every day of the month.
pub fn load_record(year: u32, month: u32, payload: Option<&Vec<u8>>) -> (r: Result<
    DailyRecord,
    TimesheetError,
>)
    requires
        valid_ym(year as int, month as int),
    ensures
        match payload {
            None => {
                &&& r matches Ok(rec)
                &&& rec.wf()
                &&& rec.year == year
                &&& rec.month == month
                &&& rec.hours@.len() == days_in_month_spec(year as int, month as int)
                &&& forall|i: int| 0 <= i < rec.hours@.len() ==> rec.hours@[i] == 0
            },
            Some(data) => match parse_spec(year as int, month as int, data@) {
                Some(h) => {
                    &&& r matches Ok(rec)
                    &&& rec.wf()
                    &&& rec.year == year
                    &&& rec.month == month
                    &&& rec.hours@ == h
                },
                None => r matches Err(e) && e == TimesheetError::CorruptFormat,
            },
        },
{
    match payload {
        None => Ok(DailyRecord::new(year, month)),
        Some(data) => parse_record(year, month, data),
    }
}

/// Serializes a record into the full payload of its backing file,
/// unconditionally and in ascending date order, whatever mutations preceded.
pub fn encode_record(r: &DailyRecord) -> (out: Vec<u8>)
    requires
        r.wf(),
    ensures
        out@ == encode_spec(*r),
{
    let y = r.year;
    let m = r.month;
    let days = days_in_month(y, m);
    let ghost dates = Seq::new(
        days as nat,
        |i: int| iso_date_spec(y as int, m as int, i + 1),
    );
    let mut out: Vec<u8> = Vec::new();
    let mut d: u32 = 1;
    proof {
        assert(dates.take(0) =~= Seq::<Seq<u8>>::empty());
    }
    while d <= days
        invariant
            1 <= d <= days + 1,
            days == days_in_month_spec(y as int, m as int),
            valid_ym(y as int, m as int),
            dates == Seq::new(days as nat, |i: int| iso_date_spec(y as int, m as int, i + 1)),
            out@ == join_tokens(dates.take(d as int - 1), COMMA),
        decreases days + 1 - d,
    {
        let ghost prev = out@;
        if d > 1 {
            out.push(COMMA);
        }
        push_decimal_padded(&mut out, y as u64, 4);
        out.push(DASH);
        push_decimal_padded(&mut out, m as u64, 2);
        out.push(DASH);
        push_decimal_padded(&mut out, d as u64, 2);
        proof {
            let di = dates[d as int - 1];
            assert(di == iso_date_spec(y as int, m as int, d as int));
            if d == 1 {
                assert(out@ =~= di);
                assert(dates.take(1) =~= seq![di]);
                assert(join_tokens(dates.take(1), COMMA) == di);
            } else {
                let taken = dates.take(d as int - 1);
                lemma_join_push(taken, COMMA, di);
                assert(dates.take(d as int) =~= taken.push(di));
                assert(out@ =~= join_tokens(taken, COMMA) + seq![COMMA] + di);
            }
        }
        d = d + 1;
    }
    proof {
        assert(dates.take(days as int) =~= dates);
    }
    let ghost hdr = header_line_spec(y as int, m as int);
    assert(out@ == hdr);
    out.push(NEWLINE);
    let ghost htoks = Seq::new(r.hours@.len(), |i: int| dec_of(r.hours@[i] as int));
    proof {
        assert(htoks.take(0) =~= Seq::<Seq<u8>>::empty());
    }
    let mut i: usize = 0;
    while i < r.hours.len()
        invariant
            i <= r.hours@.len(),
            htoks == Seq::new(r.hours@.len(), |j: int| dec_of(r.hours@[j] as int)),
            hdr == header_line_spec(y as int, m as int),
            out@ == hdr + seq![NEWLINE] + join_tokens(htoks.take(i as int), COMMA),
        decreases r.hours@.len() - i,
    {
        if i > 0 {
            out.push(COMMA);
        }
        let v = r.hours[i];
        push_decimal(&mut out, v);
        proof {
            let ti = htoks[i as int];
            assert(ti == dec_of(r.hours@[i as int] as int));
            if i == 0 {
                assert(htoks.take(1) =~= seq![ti]);
                assert(join_tokens(htoks.take(1), COMMA) == ti);
                assert(out@ =~= hdr + seq![NEWLINE] + ti);
            } else {
                let taken = htoks.take(i as int);
                lemma_join_push(taken, COMMA, ti);
                assert(htoks.take(i as int + 1) =~= taken.push(ti));
                assert(out@ =~= hdr + seq![NEWLINE] + (join_tokens(taken, COMMA) + seq![COMMA]
                    + ti));
            }
        }
        i = i + 1;
    }
    proof {
        assert(htoks.take(r.hours@.len() as int) =~= htoks);
    }
    out.push(NEWLINE);
    proof {
        assert(out@ =~= encode_spec(*r));
    }
    out
}

proof fn lemma_free_concat(a: Seq<u8>, c: Seq<u8>, b: u8)
    requires
        free_of(a, b),
        free_of(c, b),
    ensures
        free_of(a + c, b),
{
    assert forall|i: int| 0 <= i < (a + c).len() implies (a + c)[i] != b by {
        if i < a.len() {
            assert((a + c)[i] == a[i]);
        } else {
            assert((a + c)[i] == c[i - a.len()]);
        }
    }
}

proof fn lemma_digits_free(t: Seq<u8>)
    requires
        all_digits(t),
    ensures
        free_of(t, NEWLINE),
        free_of(t, COMMA),
{
    assert forall|i: int| 0 <= i < t.len() implies t[i] != NEWLINE && t[i] != COMMA by {
        assert(is_digit(t[i]));
    }
}

proof fn lemma_iso_date_free(y: int, m: int, d: int)
    requires
        y >= 0,
        m >= 0,
        d >= 0,
    ensures
        free_of(iso_date_spec(y, m, d), NEWLINE),
{
    lemma_dec_pad_digits(y, 4);
    lemma_dec_pad_digits(m, 2);
    lemma_dec_pad_digits(d, 2);
    lemma_digits_free(dec_pad(y, 4));
    lemma_digits_free(dec_pad(m, 2));
    lemma_digits_free(dec_pad(d, 2));
    assert(free_of(seq![DASH], NEWLINE));
    lemma_free_concat(dec_pad(y, 4), seq![DASH], NEWLINE);
    lemma_free_concat(dec_pad(y, 4) + seq![DASH], dec_pad(m, 2), NEWLINE);
    lemma_free_concat(dec_pad(y, 4) + seq![DASH] + dec_pad(m, 2), seq![DASH], NEWLINE);
    lemma_free_concat(
        dec_pad(y, 4) + seq![DASH] + dec_pad(m, 2) + seq![DASH],
        dec_pad(d, 2),
        NEWLINE,
    );
}

/// Round trip: the payload that `encode_record` writes for a well-formed
/// record parses back to exactly that record's hour values, so a save
/// followed by a load restores the record.
pub proof fn lemma_save_load_round_trip(r: DailyRecord)
    requires
        r.wf(),
    ensures
        parse_spec(r.year as int, r.month as int, encode_spec(r)) == Some(r.hours@),
{
    let y = r.year as int;
    let m = r.month as int;
    let h = r.hours@;
    let days = days_in_month_spec(y, m);
    let dates = Seq::new(days as nat, |i: int| iso_date_spec(y, m, i + 1));
    let htoks = Seq::new(h.len(), |i: int| dec_of(h[i] as int));
    let hdr = header_line_spec(y, m);
    let hl = hours_line_spec(h);
    let data = encode_spec(r);

    assert forall|i: int| 0 <= i < dates.len() implies free_of(#[trigger] dates[i], NEWLINE) by {
        lemma_iso_date_free(y, m, i + 1);
    }
    lemma_join_free(dates, COMMA, NEWLINE);
    assert(free_of(hdr, NEWLINE));

    assert forall|i: int| 0 <= i < htoks.len() implies free_of(#[trigger] htoks[i], NEWLINE)
        && free_of(#[trigger] htoks[i], COMMA) by {
        lemma_dec_of_digits(h[i] as int);
        lemma_digits_free(dec_of(h[i] as int));
    }
    lemma_join_free(htoks, COMMA, NEWLINE);
    assert(free_of(hl, NEWLINE));

    let n1 = hdr.len() as int;
    assert(data[n1] == NEWLINE);
    assert forall|i: int| 0 <= i < n1 implies data[i] != NEWLINE by {
        assert(data[i] == hdr[i]);
    }
    lemma_find_byte_some(data, NEWLINE, n1);

    let rest = data.skip(n1 + 1);
    assert(rest =~= hl + seq![NEWLINE]);
    let n2 = hl.len() as int;
    assert(rest[n2] == NEWLINE);
    assert forall|i: int| 0 <= i < n2 implies rest[i] != NEWLINE by {
        assert(rest[i] == hl[i]);
    }
    lemma_find_byte_some(rest, NEWLINE, n2);
    assert(rest.take(n2) =~= hl);
    assert(line_two(data) == Some(hl));

    lemma_split_join(htoks, COMMA);
    assert(split_on(hl, COMMA) == htoks);
    assert forall|i: int| 0 <= i < htoks.len() implies valid_token(#[trigger] htoks[i]) by {
        lemma_dec_of_digits(h[i] as int);
        lemma_dec_val_of(h[i] as int);
    }
    assert forall|i: int| 0 <= i < h.len() implies dec_val(htoks[i]) as u64 == h[i] by {
        lemma_dec_val_of(h[i] as int);
    }
    assert(Seq::new(days as nat, |i: int| dec_val(split_on(hl, COMMA)[i]) as u64) =~= h);
    assert(parse_line_spec(hl, days) == Some(h));
}

} // verus!
