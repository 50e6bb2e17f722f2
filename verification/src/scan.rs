//! Byte scanning: finding a separator, splitting on it, and joining tokens
//! back, with the lemmas that make splitting undo joining.

use vstd::prelude::*;

verus! {

/// `b` occurs nowhere in `t`.
pub open spec fn free_of(t: Seq<u8>, b: u8) -> bool {
    forall|i: int| 0 <= i < t.len() ==> t[i] != b
}

/// The index of the first occurrence of `b` in `s`, if any.
pub open spec fn find_byte(s: Seq<u8>, b: u8) -> Option<int>
    decreases s.len(),
{
    if s.len() == 0 {
        None
    } else if s[0] == b {
        Some(0)
    } else {
        match find_byte(s.drop_first(), b) {
            Some(i) => Some(i + 1),
            None => None,
        }
    }
}

/// The fields of `s` between occurrences of `sep`: always one more field than
/// there are separators, so never empty.
pub open spec fn split_on(s: Seq<u8>, sep: u8) -> Seq<Seq<u8>>
    decreases s.len(),
{
    if s.len() == 0 {
        seq![Seq::<u8>::empty()]
    } else if s[0] == sep {
        seq![Seq::<u8>::empty()] + split_on(s.drop_first(), sep)
    } else {
        let rest = split_on(s.drop_first(), sep);
        seq![seq![s[0]] + rest[0]] + rest.drop_first()
    }
}

/// The tokens of `ts` joined with single `sep` bytes between them.
pub open spec fn join_tokens(ts: Seq<Seq<u8>>, sep: u8) -> Seq<u8>
    decreases ts.len(),
{
    if ts.len() == 0 {
        Seq::<u8>::empty()
    } else if ts.len() == 1 {
        ts[0]
    } else {
        ts[0] + seq![sep] + join_tokens(ts.drop_first(), sep)
    }
}

pub proof fn lemma_split_on_len(s: Seq<u8>, sep: u8)
    ensures
        split_on(s, sep).len() >= 1,
    decreases s.len(),
{
    if s.len() > 0 {
        lemma_split_on_len(s.drop_first(), sep);
    }
}

/// A separator-free string splits into itself alone.
pub proof fn lemma_split_no_sep(s: Seq<u8>, sep: u8)
    requires
        free_of(s, sep),
    ensures
        split_on(s, sep) == seq![s],
    decreases s.len(),
{
    if s.len() == 0 {
        assert(s =~= Seq::<u8>::empty());
        assert(split_on(s, sep) =~~= seq![s]);
    } else {
        assert(s[0] != sep);
        assert(free_of(s.drop_first(), sep));
        lemma_split_no_sep(s.drop_first(), sep);
        let rest = split_on(s.drop_first(), sep);
        assert(rest[0] == s.drop_first());
        assert(seq![s[0]] + rest[0] =~= s);
        assert(split_on(s, sep) =~~= seq![s]);
    }
}

/// Splitting takes the prefix before the first separator as the first field.
pub proof fn lemma_split_first_sep(s: Seq<u8>, sep: u8, k: int)
    requires
        0 <= k < s.len(),
        s[k] == sep,
        forall|i: int| 0 <= i < k ==> s[i] != sep,
    ensures
        split_on(s, sep) == seq![s.take(k)] + split_on(s.skip(k + 1), sep),
    decreases k,
{
    if k == 0 {
        assert(s.take(0) =~= Seq::<u8>::empty());
        assert(s.skip(1) =~= s.drop_first());
        assert(split_on(s, sep) =~~= seq![s.take(0)] + split_on(s.skip(1), sep));
    } else {
        assert(s[0] != sep);
        let s1 = s.drop_first();
        assert forall|i: int| 0 <= i < k - 1 implies s1[i] != sep by {
            assert(s1[i] == s[i + 1]);
        }
        assert(s1[k - 1] == sep);
        lemma_split_first_sep(s1, sep, k - 1);
        let rest = split_on(s1, sep);
        lemma_split_on_len(s1.skip(k), sep);
        assert(rest[0] == s1.take(k - 1));
        assert(rest.drop_first() =~= split_on(s1.skip(k), sep));
        assert(seq![s[0]] + s1.take(k - 1) =~= s.take(k));
        assert(s1.skip(k) =~= s.skip(k + 1));
        assert(split_on(s, sep) =~~= seq![s.take(k)] + split_on(s.skip(k + 1), sep));
    }
}

/// Joining one more token appends a separator and the token.
pub proof fn lemma_join_push(ts: Seq<Seq<u8>>, sep: u8, t: Seq<u8>)
    requires
        ts.len() >= 1,
    ensures
        join_tokens(ts.push(t), sep) == join_tokens(ts, sep) + seq![sep] + t,
    decreases ts.len(),
{
    let p = ts.push(t);
    if ts.len() == 1 {
        assert(p.drop_first() =~~= seq![t]);
        assert(join_tokens(p.drop_first(), sep) == t);
        assert(p[0] == ts[0]);
        assert(join_tokens(p, sep) == ts[0] + seq![sep] + t);
    } else {
        assert(p.drop_first() =~~= ts.drop_first().push(t));
        lemma_join_push(ts.drop_first(), sep, t);
        assert(p[0] == ts[0]);
        assert(join_tokens(p, sep) == ts[0] + seq![sep] + (join_tokens(ts.drop_first(), sep)
            + seq![sep] + t));
        assert(ts[0] + seq![sep] + (join_tokens(ts.drop_first(), sep) + seq![sep] + t) =~= (ts[0]
            + seq![sep] + join_tokens(ts.drop_first(), sep)) + seq![sep] + t);
    }
}

/// Splitting undoes joining when no token holds the separator.
pub proof fn lemma_split_join(ts: Seq<Seq<u8>>, sep: u8)
    requires
        ts.len() >= 1,
        forall|i: int| 0 <= i < ts.len() ==> free_of(#[trigger] ts[i], sep),
    ensures
        split_on(join_tokens(ts, sep), sep) == ts,
    decreases ts.len(),
{
    if ts.len() == 1 {
        lemma_split_no_sep(ts[0], sep);
        assert(seq![ts[0]] =~= ts);
    } else {
        let t0 = ts[0];
        let rest = ts.drop_first();
        let j = join_tokens(ts, sep);
        let k = t0.len() as int;
        assert(j == t0 + seq![sep] + join_tokens(rest, sep));
        assert(j[k] == sep);
        assert forall|i: int| 0 <= i < k implies j[i] != sep by {
            assert(j[i] == t0[i]);
        }
        lemma_split_first_sep(j, sep, k);
        assert(j.take(k) =~= t0);
        assert(j.skip(k + 1) =~= join_tokens(rest, sep));
        assert forall|i: int| 0 <= i < rest.len() implies free_of(#[trigger] rest[i], sep) by {
            assert(rest[i] == ts[i + 1]);
        }
        lemma_split_join(rest, sep);
        assert(seq![t0] + rest =~= ts);
    }
}

/// A join holds no byte that neither its tokens nor its separator hold.
pub proof fn lemma_join_free(ts: Seq<Seq<u8>>, sep: u8, b: u8)
    requires
        sep != b,
        forall|i: int| 0 <= i < ts.len() ==> free_of(#[trigger] ts[i], b),
    ensures
        free_of(join_tokens(ts, sep), b),
    decreases ts.len(),
{
    if ts.len() == 0 {
    } else if ts.len() == 1 {
        assert(free_of(ts[0], b));
    } else {
        let rest = ts.drop_first();
        assert forall|i: int| 0 <= i < rest.len() implies free_of(#[trigger] rest[i], b) by {
            assert(rest[i] == ts[i + 1]);
        }
        lemma_join_free(rest, sep, b);
        let j = join_tokens(ts, sep);
        let t0 = ts[0];
        assert(free_of(t0, b));
        assert forall|i: int| 0 <= i < j.len() implies j[i] != b by {
            if i < t0.len() {
                assert(j[i] == t0[i]);
            } else if i == t0.len() {
                assert(j[i] == sep);
            } else {
                assert(j[i] == join_tokens(rest, sep)[i - t0.len() - 1]);
            }
        }
    }
}

pub proof fn lemma_find_byte_none(s: Seq<u8>, b: u8)
    requires
        free_of(s, b),
    ensures
        find_byte(s, b) == None::<int>,
    decreases s.len(),
{
    if s.len() > 0 {
        assert(free_of(s.drop_first(), b));
        lemma_find_byte_none(s.drop_first(), b);
    }
}

pub proof fn lemma_find_byte_some(s: Seq<u8>, b: u8, k: int)
    requires
        0 <= k < s.len(),
        s[k] == b,
        forall|i: int| 0 <= i < k ==> s[i] != b,
    ensures
        find_byte(s, b) == Some(k),
    decreases k,
{
    if k > 0 {
        let s1 = s.drop_first();
        assert forall|i: int| 0 <= i < k - 1 implies s1[i] != b by {
            assert(s1[i] == s[i + 1]);
        }
        assert(s1[k - 1] == b);
        lemma_find_byte_some(s1, b, k - 1);
    }
}

/// The index of the first occurrence of `b` in `data` at or after `start`.
pub fn find_byte_from(data: &Vec<u8>, b: u8, start: usize) -> (r: Option<usize>)
    requires
        start <= data@.len(),
    ensures
        match r {
            Some(k) => {
                &&& start <= k < data@.len()
                &&& data@[k as int] == b
                &&& forall|j: int| start <= j < k ==> data@[j] != b
                &&& find_byte(data@.skip(start as int), b) == Some(k - start)
            },
            None => {
                &&& forall|j: int| start <= j < data@.len() ==> data@[j] != b
                &&& find_byte(data@.skip(start as int), b) == None::<int>
            },
        },
{
    let ghost s = data@.skip(start as int);
    let mut i: usize = start;
    while i < data.len()
        invariant
            start <= i <= data@.len(),
            s == data@.skip(start as int),
            forall|j: int| start <= j < i ==> data@[j] != b,
        decreases data@.len() - i,
    {
        if data[i] == b {
            proof {
                assert(s[i - start] == data@[i as int]);
                assert forall|j: int| 0 <= j < i - start implies s[j] != b by {
                    assert(s[j] == data@[start + j]);
                }
                lemma_find_byte_some(s, b, i - start);
            }
            return Some(i);
        }
        i = i + 1;
    }
    proof {
        assert forall|j: int| 0 <= j < s.len() implies s[j] != b by {
            assert(s[j] == data@[start + j]);
        }
        lemma_find_byte_none(s, b);
    }
    None
}

} // verus!
