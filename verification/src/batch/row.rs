//! Rows of values, and how they are ordered.
use vstd::prelude::*;

verus! {

/// A row of values that may be missing.
#[derive(Debug)]
pub struct Row {
    pub values: Vec<Option<i64>>,
}

impl View for Row {
    type V = Seq<Option<i64>>;

    open spec fn view(&self) -> Seq<Option<i64>> {
        self.values@
    }
}

impl Clone for Row {
    fn clone(&self) -> (res: Row)
        ensures
            res@ == self@,
    {
        Row { values: copy_values(&self.values) }
    }
}

/// Copies a list of values.
pub fn copy_values(values: &Vec<Option<i64>>) -> (res: Vec<Option<i64>>)
    ensures
        res@ == values@,
{
    let mut res: Vec<Option<i64>> = Vec::new();
    let mut i: usize = 0;
    while i < values.len()
        invariant
            i <= values.len(),
            res@ == values@.take(i as int),
        decreases values.len() - i,
    {
        res.push(values[i]);
        i = i + 1;
        assert(res@ =~= values@.take(i as int));
    }
    assert(values@.take(i as int) =~= values@);
    res
}

/// A chunk of rows, some of which may be invisible.
#[derive(Debug)]
pub struct DataChunk {
    pub rows: Vec<Row>,
    pub visibility: Vec<bool>,
}

impl DataChunk {
    /// Every row has a visibility.
    pub open spec fn wf(&self) -> bool {
        self.rows@.len() == self.visibility@.len()
    }

    /// The row is there and visible.
    pub open spec fn visible(&self, i: int) -> bool {
        0 <= i < self.rows@.len() && self.visibility@[i]
    }

    /// The first visible row from the given one on.
    pub open spec fn next_visible(&self, from: int) -> Option<int>
        decreases self.rows@.len() - from,
    {
        if from < 0 || from >= self.rows@.len() {
            None
        } else if self.visibility@[from] {
            Some(from)
        } else {
            self.next_visible(from + 1)
        }
    }

    /// The first visible row from the given one on.
    pub fn next_visible_row_idx(&self, row_idx: usize) -> (res: Option<usize>)
        requires
            self.wf(),
        ensures
            match res {
                Some(i) => self.next_visible(row_idx as int) == Some(i as int) && row_idx <= i
                    < self.rows@.len() && self.visible(i as int) && forall|j: int|
                    row_idx <= j < i ==> !self.visible(j),
                None => self.next_visible(row_idx as int) is None && forall|j: int|
                    row_idx <= j ==> !self.visible(j),
            },
    {
        let mut i: usize = row_idx;
        while i < self.rows.len()
            invariant
                self.wf(),
                row_idx <= i,
                self.next_visible(row_idx as int) == self.next_visible(i as int),
                forall|j: int| row_idx <= j < i ==> !self.visible(j),
            decreases self.rows.len() - i,
        {
            if self.visibility[i] {
                return Some(i);
            }
            i = i + 1;
        }
        None
    }
}

/// Whether missing values come after all others or before them.
#[derive(Clone, Copy, Debug, PartialEq, Eq, Structural)]
pub enum NullsAre {
    Largest,
    Smallest,
}

/// How a column is ordered.
#[derive(Clone, Copy, Debug, PartialEq, Eq, Structural)]
pub struct ColumnOrder {
    pub column_index: usize,
    pub is_descending: bool,
    pub nulls_are: NullsAre,
}

/// How two values or rows compare.
#[derive(Clone, Copy, Debug, PartialEq, Eq, Structural)]
pub enum Compared {
    Less,
    Equal,
    Greater,
}

/// The other way round.
pub open spec fn reversed(c: Compared) -> Compared {
    match c {
        Compared::Less => Compared::Greater,
        Compared::Equal => Compared::Equal,
        Compared::Greater => Compared::Less,
    }
}

/// How two values compare in ascending order.
pub open spec fn values_compared(a: Option<i64>, b: Option<i64>, nulls_are: NullsAre) -> Compared {
    match (a, b) {
        (Some(x), Some(y)) => if x < y {
            Compared::Less
        } else if x == y {
            Compared::Equal
        } else {
            Compared::Greater
        },
        (None, None) => Compared::Equal,
        (None, Some(_)) => if nulls_are == NullsAre::Largest {
            Compared::Greater
        } else {
            Compared::Less
        },
        (Some(_), None) => if nulls_are == NullsAre::Largest {
            Compared::Less
        } else {
            Compared::Greater
        },
    }
}

/// How two rows compare on one column.
pub open spec fn column_compared(a: Seq<Option<i64>>, b: Seq<Option<i64>>, order: ColumnOrder) -> Compared {
    let c = values_compared(
        a[order.column_index as int],
        b[order.column_index as int],
        order.nulls_are,
    );
    if order.is_descending {
        reversed(c)
    } else {
        c
    }
}

/// How two rows compare: by the first column that tells them apart.
pub open spec fn rows_compared(
    a: Seq<Option<i64>>,
    b: Seq<Option<i64>>,
    orders: Seq<ColumnOrder>,
) -> Compared
    decreases orders.len(),
{
    if orders.len() == 0 {
        Compared::Equal
    } else {
        let c = column_compared(a, b, orders[0]);
        if c == Compared::Equal {
            rows_compared(a, b, orders.skip(1))
        } else {
            c
        }
    }
}

/// The first row does not come after the second.
pub open spec fn not_after(a: Seq<Option<i64>>, b: Seq<Option<i64>>, orders: Seq<ColumnOrder>) -> bool {
    rows_compared(a, b, orders) != Compared::Greater
}

/// Of two rows that are compared the other way round, the result is the other way round.
pub proof fn lemma_compared_reversed(
    a: Seq<Option<i64>>,
    b: Seq<Option<i64>>,
    orders: Seq<ColumnOrder>,
)
    ensures
        rows_compared(b, a, orders) == reversed(rows_compared(a, b, orders)),
    decreases orders.len(),
{
    if orders.len() > 0 {
        lemma_compared_reversed(a, b, orders.skip(1));
    }
}

/// The order of rows is transitive, and rows that compare as equal compare alike with all others.
pub proof fn lemma_compared_transitive(
    a: Seq<Option<i64>>,
    b: Seq<Option<i64>>,
    c: Seq<Option<i64>>,
    orders: Seq<ColumnOrder>,
)
    ensures
        not_after(a, b, orders) && not_after(b, c, orders) ==> not_after(a, c, orders),
        rows_compared(a, b, orders) == Compared::Equal ==> rows_compared(a, c, orders)
            == rows_compared(b, c, orders),
    decreases orders.len(),
{
    if orders.len() > 0 {
        lemma_compared_transitive(a, b, c, orders.skip(1));
    }
}

/// How two values compare in ascending order.
fn compare_values(a: Option<i64>, b: Option<i64>, nulls_are: NullsAre) -> (res: Compared)
    ensures
        res == values_compared(a, b, nulls_are),
{
    match (a, b) {
        (Some(x), Some(y)) => if x < y {
            Compared::Less
        } else if x == y {
            Compared::Equal
        } else {
            Compared::Greater
        },
        (None, None) => Compared::Equal,
        (None, Some(_)) => if nulls_are == NullsAre::Largest {
            Compared::Greater
        } else {
            Compared::Less
        },
        (Some(_), None) => if nulls_are == NullsAre::Largest {
            Compared::Less
        } else {
            Compared::Greater
        },
    }
}

/// The columns that rows are ordered by are there.
pub open spec fn has_columns(row: Seq<Option<i64>>, orders: Seq<ColumnOrder>) -> bool {
    forall|i: int| 0 <= i < orders.len() ==> (#[trigger] orders[i]).column_index < row.len()
}

/// How two rows compare.
pub fn compare_rows(a: &Row, b: &Row, orders: &Vec<ColumnOrder>) -> (res: Compared)
    requires
        has_columns(a@, orders@),
        has_columns(b@, orders@),
    ensures
        res == rows_compared(a@, b@, orders@),
{
    let mut i: usize = 0;
    assert(orders@.skip(0) =~= orders@);
    while i < orders.len()
        invariant
            i <= orders.len(),
            has_columns(a@, orders@),
            has_columns(b@, orders@),
            rows_compared(a@, b@, orders@) == rows_compared(a@, b@, orders@.skip(i as int)),
        decreases orders.len() - i,
    {
        let order = orders[i];
        assert(orders@[i as int].column_index < a@.len());
        assert(orders@.skip(i as int)[0] == order);
        assert(orders@.skip(i as int).skip(1) =~= orders@.skip(i + 1));
        let c = compare_values(
            a.values[order.column_index],
            b.values[order.column_index],
            order.nulls_are,
        );
        match c {
            Compared::Less => {
                return if order.is_descending {
                    Compared::Greater
                } else {
                    Compared::Less
                };
            },
            Compared::Greater => {
                return if order.is_descending {
                    Compared::Less
                } else {
                    Compared::Greater
                };
            },
            Compared::Equal => {},
        }
        i = i + 1;
    }
    assert(orders@.skip(i as int) =~= Seq::<ColumnOrder>::empty());
    Compared::Equal
}

} // verus!
