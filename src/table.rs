//! The tabular model that every stage of the pipeline reads and produces.
use vstd::prelude::*;

verus! {

/// The semantic type that inference gives a column.
#[derive(Clone, Copy, Debug, PartialEq, Eq, Structural)]
pub enum ColumnType {
    Integer,
    Float,
    Text,
}

/// A named column; `None` is a null cell.
#[derive(Clone, Debug)]
pub struct Column {
    pub name: String,
    pub kind: ColumnType,
    pub values: Vec<Option<String>>,
}

/// Named columns of equal length, in display order.
#[derive(Clone, Debug)]
pub struct Table {
    pub columns: Vec<Column>,
    pub height: usize,
}

/// Structural failures that abort an operation.
#[derive(Clone, Debug, PartialEq, Eq)]
pub enum PipelineError {
    KeyNotFound(String),
    ColumnNotFound(String),
}

pub open spec fn cell_view(c: Option<String>) -> Option<Seq<char>> {
    match c {
        Some(s) => Some(s@),
        None => None,
    }
}

pub open spec fn names_of(cols: Seq<Column>) -> Seq<Seq<char>> {
    cols.map_values(|c: Column| c.name@)
}

/// The first position of `x` in `s`.
pub open spec fn first_index<A>(s: Seq<A>, x: A) -> Option<int>
    decreases s.len(),
{
    if s.len() == 0 {
        None
    } else {
        match first_index(s.drop_last(), x) {
            Some(i) => Some(i),
            None => if s.last() == x {
                Some(s.len() - 1)
            } else {
                None
            },
        }
    }
}

pub proof fn lemma_first_index_found<A>(s: Seq<A>, x: A)
    ensures
        match first_index(s, x) {
            Some(i) => 0 <= i < s.len() && s[i] == x && forall|k: int| 0 <= k < i ==> s[k] != x,
            None => forall|k: int| 0 <= k < s.len() ==> s[k] != x,
        },
    decreases s.len(),
{
    if s.len() > 0 {
        lemma_first_index_found(s.drop_last(), x);
        assert(forall|k: int| 0 <= k < s.len() - 1 ==> s.drop_last()[k] == s[k]);
    }
}

pub proof fn lemma_first_index_is<A>(s: Seq<A>, x: A, i: int)
    requires
        0 <= i < s.len(),
        s[i] == x,
        forall|k: int| 0 <= k < i ==> s[k] != x,
    ensures
        first_index(s, x) == Some(i),
{
    lemma_first_index_found(s, x);
}

impl Table {
    pub open spec fn wf(&self) -> bool {
        forall|c: int| 0 <= c < self.columns.len() ==> (#[trigger] self.columns@[c]).values.len() == self.height
    }

    pub open spec fn names(&self) -> Seq<Seq<char>> {
        names_of(self.columns@)
    }

    pub open spec fn cell(&self, c: int, r: int) -> Option<Seq<char>> {
        cell_view(self.columns@[c].values@[r])
    }

    pub open spec fn width(&self) -> nat {
        self.columns.len() as nat
    }

    /// The number of rows.
    pub fn row_count(&self) -> (r: usize)
        ensures
            r == self.height,
    {
        self.height
    }

    /// The position of the first column called `name`.
    pub fn column_position(&self, name: &String) -> (r: Option<usize>)
        ensures
            match r {
                Some(i) => first_index(self.names(), name@) == Some(i as int),
                None => first_index(self.names(), name@) is None,
            },
    {
        let mut i: usize = 0;
        while i < self.columns.len()
            invariant
                0 <= i <= self.columns.len(),
                first_index(self.names().subrange(0, i as int), name@) is None,
            decreases self.columns.len() - i,
        {
            let ghost pre = self.names().subrange(0, i + 1);
            assert(pre.drop_last() =~= self.names().subrange(0, i as int));
            if self.columns[i].name == *name {
                proof {
                    assert(self.names()[i as int] == name@);
                    assert forall|k: int| 0 <= k < i implies self.names()[k] != name@ by {
                        lemma_first_index_found(self.names().subrange(0, i as int), name@);
                        assert(self.names().subrange(0, i as int)[k] == self.names()[k]);
                    }
                    lemma_first_index_is(self.names(), name@, i as int);
                }
                return Some(i);
            }
            i += 1;
        }
        assert(self.names().subrange(0, i as int) =~= self.names());
        None
    }
}

pub fn copy_cell(c: &Option<String>) -> (r: Option<String>)
    ensures
        cell_view(r) == cell_view(*c),
{
    match c {
        Some(s) => Some(s.clone()),
        None => None,
    }
}

/// Two cells hold the same text; nulls match nothing.
pub open spec fn cells_match(a: Option<Seq<char>>, b: Option<Seq<char>>) -> bool {
    a is Some && b is Some && a == b
}

pub fn same_cell(a: &Option<String>, b: &Option<String>) -> (r: bool)
    ensures
        r == cells_match(cell_view(*a), cell_view(*b)),
{
    match (a, b) {
        (Some(x), Some(y)) => *x == *y,
        _ => false,
    }
}

} // verus!
