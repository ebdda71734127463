//! Comparing numbers and texts gives what their order says.
use crate::vector_op::compare::{
    is_false, is_not_false, is_not_true, is_not_unknown, is_true, is_unknown, str_eq, str_ge, str_gt,
    str_le, str_lt, str_ne, text_order, total_order_eq, total_order_ge, total_order_gt,
    total_order_le, total_order_lt, total_order_ne, ConvertError,
};
use crate::batch::row::Compared;
use std::fmt::Debug;
use vstd::prelude::*;
use vstd::std_specs::convert::TryIntoSpec;

verus! {

/// The results of all comparisons of two values.
pub struct AllCompared<B> {
    pub eq: B,
    pub ne: B,
    pub lt: B,
    pub le: B,
    pub gt: B,
    pub ge: B,
}

/// The results are those of the comparisons of the two values as numbers.
pub open spec fn compared_as_numbers<T1, T2>(
    l: T1,
    r: T2,
    all: AllCompared<Result<bool, ConvertError>>,
) -> bool where T1: TryInto<i64> + Debug, T2: TryInto<i64> + Debug {
    &&& call_ensures(total_order_eq::<T1, T2, i64>, (l, r), all.eq)
    &&& call_ensures(total_order_ne::<T1, T2, i64>, (l, r), all.ne)
    &&& call_ensures(total_order_lt::<T1, T2, i64>, (l, r), all.lt)
    &&& call_ensures(total_order_le::<T1, T2, i64>, (l, r), all.le)
    &&& call_ensures(total_order_gt::<T1, T2, i64>, (l, r), all.gt)
    &&& call_ensures(total_order_ge::<T1, T2, i64>, (l, r), all.ge)
}

/// Values that turn into numbers compare as these numbers do.
pub proof fn lemma_numbers_compare<T1, T2>(
    l: T1,
    r: T2,
    x: i64,
    y: i64,
    all: AllCompared<Result<bool, ConvertError>>,
) where T1: TryInto<i64> + Debug, T2: TryInto<i64> + Debug
    requires
        T1::obeys_try_into_spec(),
        T2::obeys_try_into_spec(),
        l.try_into_spec() matches Ok(a) && a == x,
        r.try_into_spec() matches Ok(b) && b == y,
        compared_as_numbers(l, r, all),
    ensures
        all.eq matches Ok(b) && b == (x == y),
        all.ne matches Ok(b) && b == (x != y),
        all.lt matches Ok(b) && b == (x < y),
        all.le matches Ok(b) && b == (x <= y),
        all.gt matches Ok(b) && b == (x > y),
        all.ge matches Ok(b) && b == (x >= y),
{
}

/// Where a value does not turn into a number, every comparison fails on it, on the left one before the right one.
pub proof fn lemma_numbers_needed<T1, T2>(
    l: T1,
    r: T2,
    all: AllCompared<Result<bool, ConvertError>>,
) where T1: TryInto<i64> + Debug, T2: TryInto<i64> + Debug
    requires
        T1::obeys_try_into_spec(),
        T2::obeys_try_into_spec(),
        l.try_into_spec() is Err || r.try_into_spec() is Err,
        compared_as_numbers(l, r, all),
    ensures
        ({
            let e = if l.try_into_spec() is Err {
                ConvertError::Left
            } else {
                ConvertError::Right
            };
            &&& all.eq matches Err(f) && f == e
            &&& all.ne matches Err(f) && f == e
            &&& all.lt matches Err(f) && f == e
            &&& all.le matches Err(f) && f == e
            &&& all.gt matches Err(f) && f == e
            &&& all.ge matches Err(f) && f == e
        }),
{
}

/// The first text stands before the second: they agree up to a place, and there the first has ended or has the
/// smaller character.
pub open spec fn text_before(l: Seq<char>, r: Seq<char>) -> bool {
    exists|k: int| #[trigger] parts_at(l, r, k)
}

/// The texts agree before the place, and there the first has ended or has the smaller character.
pub open spec fn parts_at(l: Seq<char>, r: Seq<char>, k: int) -> bool {
    &&& 0 <= k <= l.len() && k < r.len()
    &&& l.take(k) == r.take(k)
    &&& k < l.len() ==> l[k] < r[k]
}

proof fn lemma_text_before(l: Seq<char>, r: Seq<char>)
    ensures
        text_order(l, r) == Compared::Less ==> text_before(l, r),
        text_order(l, r) == Compared::Greater ==> text_before(r, l),
        text_order(l, r) == Compared::Equal ==> l == r,
    decreases l.len(),
{
    if l.len() == 0 && r.len() == 0 {
        assert(l =~= r);
    } else if l.len() == 0 {
        assert(l.take(0) =~= r.take(0));
        assert(parts_at(l, r, 0));
    } else if r.len() == 0 {
        assert(l.take(0) =~= r.take(0));
        assert(parts_at(r, l, 0));
    } else if l[0] != r[0] {
        assert(l.take(0) =~= r.take(0));
        if l[0] < r[0] {
            assert(parts_at(l, r, 0));
        } else {
            assert(parts_at(r, l, 0));
        }
    } else {
        let a = l.skip(1);
        let b = r.skip(1);
        lemma_text_before(a, b);
        if text_before(a, b) {
            let k = choose|k: int| #[trigger] parts_at(a, b, k);
            lemma_parts_later(l, r, k);
        }
        if text_before(b, a) {
            let k = choose|k: int| #[trigger] parts_at(b, a, k);
            lemma_parts_later(r, l, k);
        }
        if a == b {
            assert(l =~= seq![l[0]] + a);
            assert(r =~= seq![r[0]] + b);
        }
    }
}

proof fn lemma_parts_later(l: Seq<char>, r: Seq<char>, k: int)
    requires
        l.len() > 0,
        r.len() > 0,
        l[0] == r[0],
        parts_at(l.skip(1), r.skip(1), k),
    ensures
        parts_at(l, r, k + 1),
{
    let a = l.skip(1);
    let b = r.skip(1);
    assert forall|i: int| 0 <= i < k + 1 implies #[trigger] l[i] == r[i] by {
        if i > 0 {
            assert(a.take(k)[i - 1] == b.take(k)[i - 1]);
            assert(a[i - 1] == l[i] && b[i - 1] == r[i]);
        }
    }
    assert(l.take(k + 1) =~= r.take(k + 1));
    if k + 1 < l.len() {
        assert(a[k] == l[k + 1] && b[k] == r[k + 1]);
    }
}

proof fn lemma_not_both_before(l: Seq<char>, r: Seq<char>)
    ensures
        !(text_before(l, r) && text_before(r, l)),
        text_before(l, r) ==> l != r,
{
    if text_before(l, r) {
        let k = choose|k: int| #[trigger] parts_at(l, r, k);
        if l == r {
            assert(k < l.len());
        }
        if text_before(r, l) {
            let m = choose|m: int| #[trigger] parts_at(r, l, m);
            if k < m {
                assert(k < l.len());
                assert(r.take(m)[k] == l.take(m)[k]);
            } else if m < k {
                assert(l.take(k)[m] == r.take(k)[m]);
            } else {
                assert(l[k] < r[k]);
            }
        }
    }
}

/// Texts compare by the first character in which they differ, and one that goes on is greater than one that has
/// ended.
pub proof fn lemma_texts_compare(l: &str, r: &str, all: AllCompared<Result<bool, ConvertError>>)
    requires
        call_ensures(str_eq, (l, r), all.eq),
        call_ensures(str_ne, (l, r), all.ne),
        call_ensures(str_lt, (l, r), all.lt),
        call_ensures(str_le, (l, r), all.le),
        call_ensures(str_gt, (l, r), all.gt),
        call_ensures(str_ge, (l, r), all.ge),
    ensures
        all.eq matches Ok(b) && b == (l@ == r@),
        all.ne matches Ok(b) && b == (l@ != r@),
        all.lt matches Ok(b) && b == text_before(l@, r@),
        all.le matches Ok(b) && b == (text_before(l@, r@) || l@ == r@),
        all.gt matches Ok(b) && b == text_before(r@, l@),
        all.ge matches Ok(b) && b == (text_before(r@, l@) || l@ == r@),
{
    lemma_text_before(l@, r@);
    lemma_not_both_before(l@, r@);
    lemma_not_both_before(r@, l@);
}

/// A truth value is true, false or unknown, one of the three, and each question asks for one of them or for the two
/// others.
pub proof fn lemma_truth_asked(
    v: Option<bool>,
    t: Result<Option<bool>, ConvertError>,
    not_t: Result<Option<bool>, ConvertError>,
    f: Result<Option<bool>, ConvertError>,
    not_f: Result<Option<bool>, ConvertError>,
    u: Result<Option<bool>, ConvertError>,
    not_u: Result<Option<bool>, ConvertError>,
)
    requires
        call_ensures(is_true, (v,), t),
        call_ensures(is_not_true, (v,), not_t),
        call_ensures(is_false, (v,), f),
        call_ensures(is_not_false, (v,), not_f),
        call_ensures(is_unknown, (v,), u),
        call_ensures(is_not_unknown, (v,), not_u),
    ensures
        t matches Ok(Some(a)) && (not_t matches Ok(Some(b)) && a != b),
        f matches Ok(Some(a)) && (not_f matches Ok(Some(b)) && a != b),
        u matches Ok(Some(a)) && (not_u matches Ok(Some(b)) && a != b),
        (t matches Ok(Some(a)) && a) <==> (v matches Some(x) && x),
        (f matches Ok(Some(a)) && a) <==> (v matches Some(x) && !x),
        (u matches Ok(Some(a)) && a) <==> v is None,
{
}

} // verus!
