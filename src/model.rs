//! The mathematical model of the loader: what a case record is, how a year is
//! read from text, and how records are grouped into terms.
use vstd::prelude::*;

verus! {

/// A case record as plain values.
pub struct CaseModel {
    pub id: Seq<char>,
    pub name: Seq<char>,
    pub majority_votes: u8,
    pub minority_votes: u8,
}

/// A term as plain values: its year and its cases in arrival order.
pub struct TermModel {
    pub year: u32,
    pub cases: Seq<CaseModel>,
}

pub open spec fn is_digit(c: char) -> bool {
    '0' <= c && c <= '9'
}

pub open spec fn all_digits(s: Seq<char>) -> bool {
    forall|i: int| 0 <= i < s.len() ==> is_digit(#[trigger] s[i])
}

/// The number that a string of decimal digits denotes.
pub open spec fn digits_value(s: Seq<char>) -> nat
    decreases s.len(),
{
    if s.len() == 0 {
        0
    } else {
        digits_value(s.drop_last()) * 10 + ((s.last() as u32) - ('0' as u32)) as nat
    }
}

/// The digits of a decimal numeral, after an optional leading `+`.
pub open spec fn unsigned_digits(s: Seq<char>) -> Seq<char> {
    if s.len() > 0 && s[0] == '+' {
        s.drop_first()
    } else {
        s
    }
}

/// The value of an unsigned 32-bit decimal numeral: an optional `+`, then one
/// or more ASCII digits, denoting at most `u32::MAX`. Anything else has none.
pub open spec fn decimal_u32(s: Seq<char>) -> Option<u32> {
    let d = unsigned_digits(s);
    if d.len() > 0 && all_digits(d) && digits_value(d) <= u32::MAX {
        Some(digits_value(d) as u32)
    } else {
        None
    }
}

/// The distinct values of `ys`, each where it first occurs.
pub open spec fn first_seen(ys: Seq<u32>) -> Seq<u32>
    decreases ys.len(),
{
    if ys.len() == 0 {
        Seq::empty()
    } else {
        let p = first_seen(ys.drop_last());
        if p.contains(ys.last()) {
            p
        } else {
            p.push(ys.last())
        }
    }
}

pub open spec fn years_of(rows: Seq<(u32, CaseModel)>) -> Seq<u32> {
    rows.map_values(|r: (u32, CaseModel)| r.0)
}

/// The cases of the rows whose year is `y`, in row order.
pub open spec fn cases_in(rows: Seq<(u32, CaseModel)>, y: u32) -> Seq<CaseModel>
    decreases rows.len(),
{
    if rows.len() == 0 {
        Seq::empty()
    } else {
        let p = cases_in(rows.drop_last(), y);
        if rows.last().0 == y {
            p.push(rows.last().1)
        } else {
            p
        }
    }
}

/// One term per distinct year, in order of first appearance, each holding the
/// cases of exactly the rows of its year.
pub open spec fn grouped(rows: Seq<(u32, CaseModel)>) -> Seq<TermModel> {
    first_seen(years_of(rows)).map_values(|y: u32| TermModel { year: y, cases: cases_in(rows, y) })
}

pub proof fn lemma_digits_value_prefix(s: Seq<char>, j: int)
    requires
        0 <= j <= s.len(),
        all_digits(s),
    ensures
        digits_value(s.take(j)) <= digits_value(s),
    decreases s.len(),
{
    if j < s.len() {
        assert(s.drop_last().take(j) =~= s.take(j));
        lemma_digits_value_prefix(s.drop_last(), j);
    } else {
        assert(s.take(j) =~= s);
    }
}

pub proof fn lemma_first_seen_contains(ys: Seq<u32>, y: u32)
    ensures
        first_seen(ys).contains(y) <==> ys.contains(y),
    decreases ys.len(),
{
    if ys.len() > 0 {
        lemma_first_seen_contains(ys.drop_last(), y);
        let p = first_seen(ys.drop_last());
        if ys.drop_last().contains(y) {
            let i = choose|i: int| 0 <= i < ys.drop_last().len() && ys.drop_last()[i] == y;
            assert(ys[i] == y);
        }
        if ys.contains(y) && ys.last() != y {
            let i = choose|i: int| 0 <= i < ys.len() && ys[i] == y;
            assert(ys.drop_last()[i] == y);
        }
        if ys.last() == y {
            assert(ys[ys.len() - 1] == y);
        }
        if !p.contains(ys.last()) {
            let q = p.push(ys.last());
            assert(q[p.len() as int] == ys.last());
            if q.contains(y) && y != ys.last() {
                let i = choose|i: int| 0 <= i < q.len() && q[i] == y;
                assert(p[i] == y);
            }
            if p.contains(y) {
                let i = choose|i: int| 0 <= i < p.len() && p[i] == y;
                assert(q[i] == y);
            }
        }
    }
}

pub proof fn lemma_push_contains(s: Seq<u32>, x: u32, y: u32)
    ensures
        s.push(x).contains(y) <==> (s.contains(y) || x == y),
{
    let t = s.push(x);
    assert(t[s.len() as int] == x);
    if s.contains(y) {
        let i = choose|i: int| 0 <= i < s.len() && s[i] == y;
        assert(t[i] == y);
    }
    if t.contains(y) && x != y {
        let i = choose|i: int| 0 <= i < t.len() && t[i] == y;
        assert(s[i] == y);
    }
}

pub proof fn lemma_first_seen_distinct(ys: Seq<u32>)
    ensures
        first_seen(ys).no_duplicates(),
    decreases ys.len(),
{
    if ys.len() > 0 {
        lemma_first_seen_distinct(ys.drop_last());
    }
}

pub proof fn lemma_cases_in_absent(rows: Seq<(u32, CaseModel)>, y: u32)
    requires
        !years_of(rows).contains(y),
    ensures
        cases_in(rows, y) == Seq::<CaseModel>::empty(),
    decreases rows.len(),
{
    if rows.len() > 0 {
        assert(years_of(rows)[rows.len() - 1] == rows.last().0);
        if years_of(rows.drop_last()).contains(y) {
            let i = choose|i: int| 0 <= i < rows.len() - 1 && years_of(rows.drop_last())[i] == y;
            assert(years_of(rows)[i] == y);
        }
        lemma_cases_in_absent(rows.drop_last(), y);
    }
}

/// Grouping rows by year yields one term for each distinct year, no year
/// twice, in order of first appearance, and each term holds the cases of
/// exactly the rows whose year is the term's year, in row order.
pub proof fn lemma_grouped_by_year(rows: Seq<(u32, CaseModel)>)
    ensures
        grouped(rows).map_values(|t: TermModel| t.year) == first_seen(years_of(rows)),
        grouped(rows).map_values(|t: TermModel| t.year).no_duplicates(),
        grouped(rows).map_values(|t: TermModel| t.year).to_set() == years_of(rows).to_set(),
        grouped(rows).len() == years_of(rows).to_set().len(),
        forall|k: int|
            0 <= k < grouped(rows).len() ==> (#[trigger] grouped(rows)[k]).cases == cases_in(
                rows,
                grouped(rows)[k].year,
            ),
{
    let ys = years_of(rows);
    let fs = first_seen(ys);
    assert(grouped(rows).map_values(|t: TermModel| t.year) =~= fs);
    lemma_first_seen_distinct(ys);
    assert forall|y: u32| fs.to_set().contains(y) <==> ys.to_set().contains(y) by {
        lemma_first_seen_contains(ys, y);
    }
    assert(fs.to_set() =~= ys.to_set());
    fs.unique_seq_to_set();
}

/// The number of cases over all terms.
pub open spec fn case_count(ts: Seq<TermModel>) -> nat
    decreases ts.len(),
{
    if ts.len() == 0 {
        0
    } else {
        case_count(ts.drop_last()) + ts.last().cases.len()
    }
}

pub proof fn lemma_case_count_update(ts: Seq<TermModel>, k: int, t: TermModel)
    requires
        0 <= k < ts.len(),
    ensures
        case_count(ts.update(k, t)) + ts[k].cases.len() == case_count(ts) + t.cases.len(),
    decreases ts.len(),
{
    if k == ts.len() - 1 {
        assert(ts.update(k, t).drop_last() =~= ts.drop_last());
    } else {
        assert(ts.update(k, t).drop_last() =~= ts.drop_last().update(k, t));
        lemma_case_count_update(ts.drop_last(), k, t);
    }
}

/// Grouping loses and repeats no row: the terms hold as many cases in all as
/// there are rows.
pub proof fn lemma_grouped_case_count(rows: Seq<(u32, CaseModel)>)
    ensures
        case_count(grouped(rows)) == rows.len(),
    decreases rows.len(),
{
    if rows.len() > 0 {
        let r0 = rows.drop_last();
        let (y, c) = rows.last();
        lemma_grouped_case_count(r0);
        assert(years_of(rows).drop_last() =~= years_of(r0));
        assert(years_of(rows).last() == y);
        let fs0 = first_seen(years_of(r0));
        lemma_first_seen_contains(years_of(r0), y);
        lemma_first_seen_distinct(years_of(r0));
        assert forall|y2: u32| y2 != y implies cases_in(rows, y2) == cases_in(r0, y2) by {}
        assert(cases_in(rows, y) == cases_in(r0, y).push(c));
        if fs0.contains(y) {
            let k = choose|k: int| 0 <= k < fs0.len() && fs0[k] == y;
            let t = TermModel { year: y, cases: cases_in(r0, y).push(c) };
            assert forall|j: int| 0 <= j < fs0.len() && j != k implies fs0[j] != y by {}
            assert(grouped(rows) =~= grouped(r0).update(k, t));
            lemma_case_count_update(grouped(r0), k, t);
        } else {
            lemma_cases_in_absent(r0, y);
            assert forall|j: int| 0 <= j < fs0.len() implies fs0[j] != y by {
                if fs0[j] == y {
                    assert(fs0.contains(y));
                }
            }
            assert(grouped(rows) =~= grouped(r0).push(TermModel { year: y, cases: seq![c] }));
            assert(grouped(rows).drop_last() =~= grouped(r0));
        }
    }
}

} // verus!
