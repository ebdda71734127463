//! Comparisons and tests of truth.
use crate::batch::row::Compared;
use std::cmp::Ordering;
use std::fmt::Debug;
use vstd::prelude::*;
use vstd::std_specs::cmp::PartialEqSpec;
use vstd::std_specs::cmp::PartialOrdSpec;
use vstd::std_specs::convert::TryIntoSpec;

verus! {

/// Which of two values cannot be turned into the type in which they are compared.
#[derive(Clone, Copy, Debug, PartialEq, Eq, Structural)]
pub enum ConvertError {
    Left,
    Right,
}

/// The conversions may give the two values.
pub open spec fn is_pair<T1: TryInto<T3>, T2: TryInto<T3>, T3>(l: T1, r: T2, a: T3, b: T3) -> bool {
    call_ensures(T1::try_into, (l,), Ok(a)) && call_ensures(T2::try_into, (r,), Ok(b))
}

/// Turns both values into the type in which they are compared.
fn convert<T1, T2, T3>(l: T1, r: T2) -> (res: Result<(T3, T3), ConvertError>) where
    T1: TryInto<T3> + Debug,
    T2: TryInto<T3> + Debug,

    ensures
        T1::obeys_try_into_spec() && T2::obeys_try_into_spec() ==> match (
            l.try_into_spec(),
            r.try_into_spec(),
        ) {
            (Ok(a), Ok(b)) => res == Ok::<(T3, T3), ConvertError>((a, b)),
            (Ok(_), Err(_)) => res == Err::<(T3, T3), ConvertError>(ConvertError::Right),
            (Err(_), _) => res == Err::<(T3, T3), ConvertError>(ConvertError::Left),
        },
        match res {
            Ok((a, b)) => is_pair::<T1, T2, T3>(l, r, a, b),
            Err(ConvertError::Left) => exists|e: T1::Error| #[trigger]
                call_ensures(T1::try_into, (l,), Err(e)),
            Err(ConvertError::Right) => exists|e: T2::Error| #[trigger]
                call_ensures(T2::try_into, (r,), Err(e)),
        },
{
    let a: T3 = match l.try_into() {
        Ok(a) => a,
        Err(_) => {
            return Err(ConvertError::Left);
        },
    };
    let b: T3 = match r.try_into() {
        Ok(b) => b,
        Err(_) => {
            return Err(ConvertError::Right);
        },
    };
    Ok((a, b))
}

/// The values are compared for equality, once both are turned into the given type.
pub open spec fn is_eq<T1, T2, T3>(l: T1, r: T2, res: Result<bool, ConvertError>) -> bool where
    T1: TryInto<T3>,
    T2: TryInto<T3>,
    T3: Ord,
 {
    &&& T1::obeys_try_into_spec() && T2::obeys_try_into_spec() ==> match (
        l.try_into_spec(),
        r.try_into_spec(),
    ) {
        (Ok(a), Ok(b)) => res is Ok && (T3::obeys_eq_spec() ==> res == Ok::<bool, ConvertError>(
            a.eq_spec(&b),
        )),
        (Ok(_), Err(_)) => res == Err::<bool, ConvertError>(ConvertError::Right),
        (Err(_), _) => res == Err::<bool, ConvertError>(ConvertError::Left),
    }
    &&& match res {
        Ok(v) => exists|a: T3, b: T3| #[trigger]
            is_pair::<T1, T2, T3>(l, r, a, b) && call_ensures(T3::eq, (&a, &b), v),
        Err(ConvertError::Left) => exists|e: T1::Error| #[trigger]
            call_ensures(T1::try_into, (l,), Err(e)),
        Err(ConvertError::Right) => exists|e: T2::Error| #[trigger]
            call_ensures(T2::try_into, (r,), Err(e)),
    }
}

/// Whether the values are equal, once both are turned into the given type.
pub fn total_order_eq<T1, T2, T3>(l: T1, r: T2) -> (res: Result<bool, ConvertError>) where
    T1: TryInto<T3> + Debug,
    T2: TryInto<T3> + Debug,
    T3: Ord,

    ensures
        is_eq::<T1, T2, T3>(l, r, res),
{
    match convert::<T1, T2, T3>(l, r) {
        Ok((a, b)) => Ok(a == b),
        Err(e) => Err(e),
    }
}

/// The values are compared for difference, once both are turned into the given type.
pub open spec fn is_ne<T1, T2, T3>(l: T1, r: T2, res: Result<bool, ConvertError>) -> bool where
    T1: TryInto<T3>,
    T2: TryInto<T3>,
    T3: Ord,
 {
    &&& T1::obeys_try_into_spec() && T2::obeys_try_into_spec() ==> match (
        l.try_into_spec(),
        r.try_into_spec(),
    ) {
        (Ok(a), Ok(b)) => res is Ok && (T3::obeys_eq_spec() ==> res == Ok::<bool, ConvertError>(
            !a.eq_spec(&b),
        )),
        (Ok(_), Err(_)) => res == Err::<bool, ConvertError>(ConvertError::Right),
        (Err(_), _) => res == Err::<bool, ConvertError>(ConvertError::Left),
    }
    &&& match res {
        Ok(v) => exists|a: T3, b: T3| #[trigger]
            is_pair::<T1, T2, T3>(l, r, a, b) && call_ensures(T3::ne, (&a, &b), v),
        Err(ConvertError::Left) => exists|e: T1::Error| #[trigger]
            call_ensures(T1::try_into, (l,), Err(e)),
        Err(ConvertError::Right) => exists|e: T2::Error| #[trigger]
            call_ensures(T2::try_into, (r,), Err(e)),
    }
}

/// Whether the values are different, once both are turned into the given type.
pub fn total_order_ne<T1, T2, T3>(l: T1, r: T2) -> (res: Result<bool, ConvertError>) where
    T1: TryInto<T3> + Debug,
    T2: TryInto<T3> + Debug,
    T3: Ord,

    ensures
        is_ne::<T1, T2, T3>(l, r, res),
{
    match convert::<T1, T2, T3>(l, r) {
        Ok((a, b)) => Ok(a != b),
        Err(e) => Err(e),
    }
}

/// What `total_order_ne` returns is the opposite of what `total_order_eq` returns on the same values, and
/// the one fails where the other does, on the same value. This holds of types whose conversions and whose
/// equality always give the same result.
pub proof fn lemma_ne_is_not_eq<T1, T2, T3>(
    l: T1,
    r: T2,
    eq: Result<bool, ConvertError>,
    ne: Result<bool, ConvertError>,
) where T1: TryInto<T3> + Debug, T2: TryInto<T3> + Debug, T3: Ord
    requires
        T1::obeys_try_into_spec(),
        T2::obeys_try_into_spec(),
        T3::obeys_eq_spec(),
        is_eq::<T1, T2, T3>(l, r, eq),
        is_ne::<T1, T2, T3>(l, r, ne),
    ensures
        match eq {
            Ok(b) => ne == Ok::<bool, ConvertError>(!b),
            Err(e) => ne == Err::<bool, ConvertError>(e),
        },
{
}

/// The values are compared for descending order or equal, once both are turned into the given type.
pub open spec fn is_ge<T1, T2, T3>(l: T1, r: T2, res: Result<bool, ConvertError>) -> bool where
    T1: TryInto<T3>,
    T2: TryInto<T3>,
    T3: Ord,
 {
    &&& T1::obeys_try_into_spec() && T2::obeys_try_into_spec() ==> match (
        l.try_into_spec(),
        r.try_into_spec(),
    ) {
        (Ok(a), Ok(b)) => res is Ok && (T3::obeys_partial_cmp_spec() ==> res == Ok::<bool, ConvertError>(
            (a.partial_cmp_spec(&b) == Some(Ordering::Greater) || a.partial_cmp_spec(&b) == Some(Ordering::Equal)),
        )),
        (Ok(_), Err(_)) => res == Err::<bool, ConvertError>(ConvertError::Right),
        (Err(_), _) => res == Err::<bool, ConvertError>(ConvertError::Left),
    }
    &&& match res {
        Ok(v) => exists|a: T3, b: T3| #[trigger]
            is_pair::<T1, T2, T3>(l, r, a, b) && call_ensures(T3::ge, (&a, &b), v),
        Err(ConvertError::Left) => exists|e: T1::Error| #[trigger]
            call_ensures(T1::try_into, (l,), Err(e)),
        Err(ConvertError::Right) => exists|e: T2::Error| #[trigger]
            call_ensures(T2::try_into, (r,), Err(e)),
    }
}

/// Whether the values are in descending order or equal, once both are turned into the given type.
pub fn total_order_ge<T1, T2, T3>(l: T1, r: T2) -> (res: Result<bool, ConvertError>) where
    T1: TryInto<T3> + Debug,
    T2: TryInto<T3> + Debug,
    T3: Ord,

    ensures
        is_ge::<T1, T2, T3>(l, r, res),
{
    match convert::<T1, T2, T3>(l, r) {
        Ok((a, b)) => Ok(a >= b),
        Err(e) => Err(e),
    }
}

/// The values are compared for descending order, once both are turned into the given type.
pub open spec fn is_gt<T1, T2, T3>(l: T1, r: T2, res: Result<bool, ConvertError>) -> bool where
    T1: TryInto<T3>,
    T2: TryInto<T3>,
    T3: Ord,
 {
    &&& T1::obeys_try_into_spec() && T2::obeys_try_into_spec() ==> match (
        l.try_into_spec(),
        r.try_into_spec(),
    ) {
        (Ok(a), Ok(b)) => res is Ok && (T3::obeys_partial_cmp_spec() ==> res == Ok::<bool, ConvertError>(
            (a.partial_cmp_spec(&b) == Some(Ordering::Greater)),
        )),
        (Ok(_), Err(_)) => res == Err::<bool, ConvertError>(ConvertError::Right),
        (Err(_), _) => res == Err::<bool, ConvertError>(ConvertError::Left),
    }
    &&& match res {
        Ok(v) => exists|a: T3, b: T3| #[trigger]
            is_pair::<T1, T2, T3>(l, r, a, b) && call_ensures(T3::gt, (&a, &b), v),
        Err(ConvertError::Left) => exists|e: T1::Error| #[trigger]
            call_ensures(T1::try_into, (l,), Err(e)),
        Err(ConvertError::Right) => exists|e: T2::Error| #[trigger]
            call_ensures(T2::try_into, (r,), Err(e)),
    }
}

/// Whether the values are in descending order, once both are turned into the given type.
pub fn total_order_gt<T1, T2, T3>(l: T1, r: T2) -> (res: Result<bool, ConvertError>) where
    T1: TryInto<T3> + Debug,
    T2: TryInto<T3> + Debug,
    T3: Ord,

    ensures
        is_gt::<T1, T2, T3>(l, r, res),
{
    match convert::<T1, T2, T3>(l, r) {
        Ok((a, b)) => Ok(a > b),
        Err(e) => Err(e),
    }
}

/// The values are compared for ascending order or equal, once both are turned into the given type.
pub open spec fn is_le<T1, T2, T3>(l: T1, r: T2, res: Result<bool, ConvertError>) -> bool where
    T1: TryInto<T3>,
    T2: TryInto<T3>,
    T3: Ord,
 {
    &&& T1::obeys_try_into_spec() && T2::obeys_try_into_spec() ==> match (
        l.try_into_spec(),
        r.try_into_spec(),
    ) {
        (Ok(a), Ok(b)) => res is Ok && (T3::obeys_partial_cmp_spec() ==> res == Ok::<bool, ConvertError>(
            (a.partial_cmp_spec(&b) == Some(Ordering::Less) || a.partial_cmp_spec(&b) == Some(Ordering::Equal)),
        )),
        (Ok(_), Err(_)) => res == Err::<bool, ConvertError>(ConvertError::Right),
        (Err(_), _) => res == Err::<bool, ConvertError>(ConvertError::Left),
    }
    &&& match res {
        Ok(v) => exists|a: T3, b: T3| #[trigger]
            is_pair::<T1, T2, T3>(l, r, a, b) && call_ensures(T3::le, (&a, &b), v),
        Err(ConvertError::Left) => exists|e: T1::Error| #[trigger]
            call_ensures(T1::try_into, (l,), Err(e)),
        Err(ConvertError::Right) => exists|e: T2::Error| #[trigger]
            call_ensures(T2::try_into, (r,), Err(e)),
    }
}

/// Whether the values are in ascending order or equal, once both are turned into the given type.
pub fn total_order_le<T1, T2, T3>(l: T1, r: T2) -> (res: Result<bool, ConvertError>) where
    T1: TryInto<T3> + Debug,
    T2: TryInto<T3> + Debug,
    T3: Ord,

    ensures
        is_le::<T1, T2, T3>(l, r, res),
{
    match convert::<T1, T2, T3>(l, r) {
        Ok((a, b)) => Ok(a <= b),
        Err(e) => Err(e),
    }
}

/// The values are compared for ascending order, once both are turned into the given type.
pub open spec fn is_lt<T1, T2, T3>(l: T1, r: T2, res: Result<bool, ConvertError>) -> bool where
    T1: TryInto<T3>,
    T2: TryInto<T3>,
    T3: Ord,
 {
    &&& T1::obeys_try_into_spec() && T2::obeys_try_into_spec() ==> match (
        l.try_into_spec(),
        r.try_into_spec(),
    ) {
        (Ok(a), Ok(b)) => res is Ok && (T3::obeys_partial_cmp_spec() ==> res == Ok::<bool, ConvertError>(
            (a.partial_cmp_spec(&b) == Some(Ordering::Less)),
        )),
        (Ok(_), Err(_)) => res == Err::<bool, ConvertError>(ConvertError::Right),
        (Err(_), _) => res == Err::<bool, ConvertError>(ConvertError::Left),
    }
    &&& match res {
        Ok(v) => exists|a: T3, b: T3| #[trigger]
            is_pair::<T1, T2, T3>(l, r, a, b) && call_ensures(T3::lt, (&a, &b), v),
        Err(ConvertError::Left) => exists|e: T1::Error| #[trigger]
            call_ensures(T1::try_into, (l,), Err(e)),
        Err(ConvertError::Right) => exists|e: T2::Error| #[trigger]
            call_ensures(T2::try_into, (r,), Err(e)),
    }
}

/// Whether the values are in ascending order, once both are turned into the given type.
pub fn total_order_lt<T1, T2, T3>(l: T1, r: T2) -> (res: Result<bool, ConvertError>) where
    T1: TryInto<T3> + Debug,
    T2: TryInto<T3> + Debug,
    T3: Ord,

    ensures
        is_lt::<T1, T2, T3>(l, r, res),
{
    match convert::<T1, T2, T3>(l, r) {
        Ok((a, b)) => Ok(a < b),
        Err(e) => Err(e),
    }
}

/// How two texts compare: by the first character in which they differ, and else by their lengths.
pub open spec fn text_order(l: Seq<char>, r: Seq<char>) -> Compared
    decreases l.len(),
{
    if l.len() == 0 && r.len() == 0 {
        Compared::Equal
    } else if l.len() == 0 {
        Compared::Less
    } else if r.len() == 0 {
        Compared::Greater
    } else if l[0] < r[0] {
        Compared::Less
    } else if r[0] < l[0] {
        Compared::Greater
    } else {
        text_order(l.skip(1), r.skip(1))
    }
}

/// The characters of a text.
fn characters(text: &str) -> (res: Vec<char>)
    ensures
        res@ == text@,
{
    let mut res: Vec<char> = Vec::new();
    for c in it: text.chars()
        invariant
            it.seq() == text@,
            res@ == text@.take(it.index() as int),
    {
        let ghost i: int = it.index() as int;
        res.push(c);
        assert(res@ =~= text@.take(i + 1));
    }
    assert(text@.take(text@.len() as int) =~= text@);
    res
}

/// How two texts compare.
fn compare_texts(l: &str, r: &str) -> (res: Compared)
    ensures
        res == text_order(l@, r@),
{
    let a: Vec<char> = characters(l);
    let b: Vec<char> = characters(r);
    let mut i: usize = 0;
    assert(l@.skip(0) =~= l@);
    assert(r@.skip(0) =~= r@);
    while i < a.len() && i < b.len()
        invariant
            i <= a.len(),
            i <= b.len(),
            a@ == l@,
            b@ == r@,
            text_order(l@, r@) == text_order(a@.skip(i as int), b@.skip(i as int)),
        decreases a.len() - i,
    {
        assert(a@.skip(i as int)[0] == a@[i as int]);
        if a[i] < b[i] {
            return Compared::Less;
        }
        if b[i] < a[i] {
            return Compared::Greater;
        }
        assert(a@.skip(i as int).skip(1) =~= a@.skip(i + 1));
        assert(b@.skip(i as int).skip(1) =~= b@.skip(i + 1));
        i = i + 1;
    }
    if i < a.len() {
        Compared::Greater
    } else if i < b.len() {
        Compared::Less
    } else {
        Compared::Equal
    }
}

/// Whether two texts are the same.
pub fn str_eq(l: &str, r: &str) -> (res: Result<bool, ConvertError>)
    ensures
        res == Ok::<bool, ConvertError>(text_order(l@, r@) == Compared::Equal),
{
    match compare_texts(l, r) {
        Compared::Equal => Ok(true),
        _ => Ok(false),
    }
}

/// Whether two texts differ.
pub fn str_ne(l: &str, r: &str) -> (res: Result<bool, ConvertError>)
    ensures
        res == Ok::<bool, ConvertError>(text_order(l@, r@) != Compared::Equal),
{
    match compare_texts(l, r) {
        Compared::Equal => Ok(false),
        _ => Ok(true),
    }
}

/// Whether two texts are in descending order or the same.
pub fn str_ge(l: &str, r: &str) -> (res: Result<bool, ConvertError>)
    ensures
        res == Ok::<bool, ConvertError>(text_order(l@, r@) != Compared::Less),
{
    match compare_texts(l, r) {
        Compared::Less => Ok(false),
        _ => Ok(true),
    }
}

/// Whether two texts are in descending order.
pub fn str_gt(l: &str, r: &str) -> (res: Result<bool, ConvertError>)
    ensures
        res == Ok::<bool, ConvertError>(text_order(l@, r@) == Compared::Greater),
{
    match compare_texts(l, r) {
        Compared::Greater => Ok(true),
        _ => Ok(false),
    }
}

/// Whether two texts are in ascending order or the same.
pub fn str_le(l: &str, r: &str) -> (res: Result<bool, ConvertError>)
    ensures
        res == Ok::<bool, ConvertError>(text_order(l@, r@) != Compared::Greater),
{
    match compare_texts(l, r) {
        Compared::Greater => Ok(false),
        _ => Ok(true),
    }
}

/// Whether two texts are in ascending order.
pub fn str_lt(l: &str, r: &str) -> (res: Result<bool, ConvertError>)
    ensures
        res == Ok::<bool, ConvertError>(text_order(l@, r@) == Compared::Less),
{
    match compare_texts(l, r) {
        Compared::Less => Ok(true),
        _ => Ok(false),
    }
}

/// The value is known and true.
pub fn is_true(v: Option<bool>) -> (res: Result<Option<bool>, ConvertError>)
    ensures
        res == Ok::<Option<bool>, ConvertError>(Some(v == Some(true))),
{
    Ok(Some(matches!(v, Some(true))))
}

/// The value is false or not known.
pub fn is_not_true(v: Option<bool>) -> (res: Result<Option<bool>, ConvertError>)
    ensures
        res == Ok::<Option<bool>, ConvertError>(Some(v != Some(true))),
{
    Ok(Some(!matches!(v, Some(true))))
}

/// The value is known and false.
pub fn is_false(v: Option<bool>) -> (res: Result<Option<bool>, ConvertError>)
    ensures
        res == Ok::<Option<bool>, ConvertError>(Some(v == Some(false))),
{
    Ok(Some(matches!(v, Some(false))))
}

/// The value is true or not known.
pub fn is_not_false(v: Option<bool>) -> (res: Result<Option<bool>, ConvertError>)
    ensures
        res == Ok::<Option<bool>, ConvertError>(Some(v != Some(false))),
{
    Ok(Some(!matches!(v, Some(false))))
}

/// The value is not known.
pub fn is_unknown(v: Option<bool>) -> (res: Result<Option<bool>, ConvertError>)
    ensures
        res == Ok::<Option<bool>, ConvertError>(Some(v is None)),
{
    Ok(Some(v.is_none()))
}

/// The value is known.
pub fn is_not_unknown(v: Option<bool>) -> (res: Result<Option<bool>, ConvertError>)
    ensures
        res == Ok::<Option<bool>, ConvertError>(Some(v is Some)),
{
    Ok(Some(v.is_some()))
}

/// Texts are the same exactly if they compare as equal.
pub proof fn lemma_text_equal(l: Seq<char>, r: Seq<char>)
    ensures
        text_order(l, r) == Compared::Equal <==> l == r,
    decreases l.len(),
{
    if l.len() > 0 && r.len() > 0 && l[0] == r[0] {
        lemma_text_equal(l.skip(1), r.skip(1));
        if l.skip(1) == r.skip(1) {
            assert(l =~= seq![l[0]] + l.skip(1));
            assert(r =~= seq![r[0]] + r.skip(1));
        }
    } else if l.len() == 0 && r.len() == 0 {
        assert(l =~= r);
    }
}

/// Two texts compare the other way round when they change places.
pub proof fn lemma_text_reversed(l: Seq<char>, r: Seq<char>)
    ensures
        text_order(l, r) == Compared::Less <==> text_order(r, l) == Compared::Greater,
        text_order(l, r) == Compared::Equal <==> text_order(r, l) == Compared::Equal,
        text_order(l, r) == Compared::Greater <==> text_order(r, l) == Compared::Less,
    decreases l.len(),
{
    if l.len() > 0 && r.len() > 0 && l[0] == r[0] {
        lemma_text_reversed(l.skip(1), r.skip(1));
    }
}

/// The order of texts is transitive.
pub proof fn lemma_text_transitive(a: Seq<char>, b: Seq<char>, c: Seq<char>)
    requires
        text_order(a, b) == Compared::Less,
        text_order(b, c) == Compared::Less,
    ensures
        text_order(a, c) == Compared::Less,
    decreases a.len(),
{
    if a.len() > 0 && b.len() > 0 && c.len() > 0 && a[0] == b[0] && b[0] == c[0] {
        lemma_text_transitive(a.skip(1), b.skip(1), c.skip(1));
    }
}

} // verus!
