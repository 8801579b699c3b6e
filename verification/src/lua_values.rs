//! The shape decisions of Lua value conversion: how many returned values
//! become one script value, and how a Lua table becomes a map or a list.
use vstd::prelude::*;

verus! {

/// Several returned values as one: nothing, the single value, or a tuple.
pub enum MultiShape<T> {
    Unit,
    One(T),
    Many(Vec<T>),
}

/// Zero values are unit, one value is itself, more are a tuple of all of
/// them in order.
pub fn multi_value_shape<T>(values: Vec<T>) -> (shape: MultiShape<T>)
    ensures
        values@.len() == 0 ==> shape is Unit,
        values@.len() == 1 ==> shape == MultiShape::One(values@[0]),
        values@.len() > 1 ==> (shape matches MultiShape::Many(all) && all@ == values@),
{
    let mut values = values;
    if values.len() == 0 {
        MultiShape::Unit
    } else if values.len() == 1 {
        match values.pop() {
            Some(v) => MultiShape::One(v),
            None => MultiShape::Unit,
        }
    } else {
        MultiShape::Many(values)
    }
}

/// A Lua table key as the conversion reads it: its text when it is a
/// string, its integer value when it has one, and its type name.
pub struct TableKey {
    pub text: Option<String>,
    pub index: Option<i64>,
    pub kind: String,
}

/// A converted Lua table: string-keyed entries, or values ordered by their
/// integer keys.
pub enum TableShape<V> {
    Dict(Vec<(String, V)>),
    List(Vec<V>),
}

/// Why a table does not convert.
pub enum TableError<E> {
    /// A key is neither a string (while others are not all strings) nor an
    /// integer; carries the key's type name.
    UnsupportedKey(String),
    /// A value did not convert.
    Value(E),
}

/// `out` holds the pairs of `s` ordered by ascending key, pairs with equal
/// keys keeping their order in `s`.
pub open spec fn stably_sorted_by_key<V>(s: Seq<(i64, V)>, out: Seq<(i64, V)>) -> bool {
    &&& out.len() == s.len()
    &&& forall|i: int, j: int| 0 <= i <= j < out.len() ==> #[trigger] out[i].0 <= #[trigger] out[j].0
    &&& forall|k: i64| #[trigger] with_key(out, k) == with_key(s, k)
}

/// The pairs of `s` whose key is `k`, in order.
pub open spec fn with_key<V>(s: Seq<(i64, V)>, k: i64) -> Seq<(i64, V)> {
    s.filter(|e: (i64, V)| e.0 == k)
}

/// Sorts `pairs` by key with std's stable sort.
///
/// Trusted: `slice::sort_by_key` is documented to sort in ascending key
/// order while preserving the initial order of equal elements; the contract
/// states exactly that.
#[verifier::external_body]
fn sort_pairs_by_key<V>(pairs: &mut Vec<(i64, V)>)
    ensures
        stably_sorted_by_key(old(pairs)@, final(pairs)@),
{
    pairs.sort_by_key(|p| p.0);
}

/// Every key of `entries` has text.
pub open spec fn all_text_keys<V, E>(entries: Seq<(TableKey, Result<V, E>)>) -> bool {
    forall|i: int| 0 <= i < entries.len() ==> (#[trigger] entries[i]).0.text is Some
}

/// Entry `i` stops the conversion: its value failed, or, when not every key
/// has text, its key has no integer value.
pub open spec fn entry_fails<V, E>(entries: Seq<(TableKey, Result<V, E>)>, i: int) -> bool {
    ||| entries[i].1 is Err
    ||| !all_text_keys(entries) && entries[i].0.index is None
}

/// `i` is the first entry that stops the conversion.
pub open spec fn first_failure<V, E>(entries: Seq<(TableKey, Result<V, E>)>, i: int) -> bool {
    &&& 0 <= i < entries.len()
    &&& entry_fails(entries, i)
    &&& forall|j: int| 0 <= j < i ==> !entry_fails(entries, j)
}

/// The error of the first failing entry `e`: its key's when the key is the
/// problem, checked first, else its value's.
pub open spec fn failure_of<V, E>(all_text: bool, e: (TableKey, Result<V, E>)) -> TableError<E> {
    if !all_text && e.0.index is None {
        TableError::UnsupportedKey(e.0.kind)
    } else {
        TableError::Value(e.1->Err_0)
    }
}

/// The `(index, value)` pairs of entries whose keys and values all convert.
pub open spec fn indexed_values<V, E>(entries: Seq<(TableKey, Result<V, E>)>) -> Seq<(i64, V)> {
    entries.map_values(|e: (TableKey, Result<V, E>)| (e.0.index->Some_0, e.1->Ok_0))
}

/// Shapes the converted entries of a Lua table, in table order. An empty
/// table is an empty list. When every key is a string, the table is a map
/// of the entries. Otherwise every key must have an integer value and the
/// table is the list of values ordered by key, equal keys in table order.
/// The first entry whose key (checked first) or value fails decides the
/// error.
pub fn lua_table_shape<V, E>(entries: Vec<(TableKey, Result<V, E>)>) -> (res: Result<
    TableShape<V>,
    TableError<E>,
>)
    ensures
        entries@.len() == 0 ==> (res matches Ok(TableShape::List(l)) && l@.len() == 0),
        entries@.len() > 0 ==> {
            let all_text = all_text_keys(entries@);
            if exists|i: int| first_failure(entries@, i) {
                exists|i: int|
                    first_failure(entries@, i) && res == Err::<TableShape<V>, TableError<E>>(
                        failure_of(all_text, entries@[i]),
                    )
            } else if all_text {
                res matches Ok(TableShape::Dict(m)) && m@.len() == entries@.len() && forall|i: int|
                    0 <= i < m@.len() ==> #[trigger] m@[i] == (
                        entries@[i].0.text->Some_0,
                        entries@[i].1->Ok_0,
                    )
            } else {
                res matches Ok(TableShape::List(l)) && exists|sorted: Seq<(i64, V)>|
                    stably_sorted_by_key(indexed_values(entries@), sorted) && l@ == sorted.map_values(
                        |p: (i64, V)| p.1,
                    )
            }
        },
{
    let n = entries.len();
    if n == 0 {
        return Ok(TableShape::List(Vec::new()));
    }
    let mut all_text = true;
    let mut i: usize = 0;
    while i < n
        invariant
            n == entries@.len(),
            i <= n,
            all_text == (forall|j: int| 0 <= j < i ==> (#[trigger] entries@[j]).0.text is Some),
        decreases n - i,
    {
        if entries[i].0.text.is_none() {
            all_text = false;
        }
        i = i + 1;
    }
    assert(all_text == all_text_keys(entries@));
    let mut k: usize = 0;
    while k < n
        invariant
            n == entries@.len(),
            k <= n,
            all_text == all_text_keys(entries@),
            forall|j: int| 0 <= j < k ==> !entry_fails(entries@, j),
        decreases n - k,
    {
        let key_fails = !all_text && entries[k].0.index.is_none();
        if key_fails || entries[k].1.is_err() {
            let ghost before = entries@;
            assert(first_failure(before, k as int));
            let mut entries = entries;
            let (key, value) = entries.remove(k);
            if key_fails {
                return Err(TableError::UnsupportedKey(key.kind));
            }
            match value {
                Err(e) => {
                    return Err(TableError::Value(e));
                },
                Ok(_) => {
                    return unreached();
                },
            }
        }
        k = k + 1;
    }
    assert forall|i: int| !first_failure(entries@, i) by {}
    let ghost orig = entries@;
    let mut rest = entries;
    let mut rev_map: Vec<(String, V)> = Vec::new();
    let mut rev_pairs: Vec<(i64, V)> = Vec::new();
    while rest.len() > 0
        invariant
            n == orig.len(),
            rest@.len() + (if all_text { rev_map@.len() } else { rev_pairs@.len() }) == n,
            rest@ == orig.take(rest@.len() as int),
            all_text == all_text_keys(orig),
            forall|j: int| 0 <= j < n ==> !entry_fails(orig, j),
            all_text ==> rev_pairs@.len() == 0 && forall|j: int|
                0 <= j < rev_map@.len() ==> #[trigger] rev_map@[j] == (
                    orig[n - 1 - j].0.text->Some_0,
                    orig[n - 1 - j].1->Ok_0,
                ),
            !all_text ==> rev_map@.len() == 0 && forall|j: int|
                0 <= j < rev_pairs@.len() ==> #[trigger] rev_pairs@[j] == (
                    orig[n - 1 - j].0.index->Some_0,
                    orig[n - 1 - j].1->Ok_0,
                ),
        decreases rest@.len(),
    {
        let ghost at = rest@.len() - 1;
        proof {
            assert(rest@[at] == orig[at]);
            assert(!entry_fails(orig, at));
            assert(all_text ==> orig[at].0.text is Some);
        }
        let e = rest.pop();
        match e {
            Some((key, Ok(v))) => {
                if all_text {
                    match key.text {
                        Some(t) => rev_map.push((t, v)),
                        None => {
                            return unreached();
                        },
                    }
                } else {
                    match key.index {
                        Some(ix) => rev_pairs.push((ix, v)),
                        None => {
                            return unreached();
                        },
                    }
                }
            },
            _ => {
                return unreached();
            },
        }
        assert(rest@ =~= orig.take(rest@.len() as int));
    }
    if all_text {
        let mut map: Vec<(String, V)> = Vec::new();
        while rev_map.len() > 0
            invariant
                n == orig.len(),
                rev_map@.len() + map@.len() == n,
                forall|j: int| 0 <= j < rev_map@.len() ==> #[trigger] rev_map@[j] == (
                    orig[n - 1 - j].0.text->Some_0,
                    orig[n - 1 - j].1->Ok_0,
                ),
                forall|j: int| 0 <= j < map@.len() ==> #[trigger] map@[j] == (
                    orig[j].0.text->Some_0,
                    orig[j].1->Ok_0,
                ),
            decreases rev_map@.len(),
        {
            match rev_map.pop() {
                Some(p) => map.push(p),
                None => {},
            }
        }
        Ok(TableShape::Dict(map))
    } else {
        let mut pairs: Vec<(i64, V)> = Vec::new();
        while rev_pairs.len() > 0
            invariant
                n == orig.len(),
                rev_pairs@.len() + pairs@.len() == n,
                forall|j: int| 0 <= j < rev_pairs@.len() ==> #[trigger] rev_pairs@[j] == (
                    orig[n - 1 - j].0.index->Some_0,
                    orig[n - 1 - j].1->Ok_0,
                ),
                forall|j: int| 0 <= j < pairs@.len() ==> #[trigger] pairs@[j] == (
                    orig[j].0.index->Some_0,
                    orig[j].1->Ok_0,
                ),
            decreases rev_pairs@.len(),
        {
            match rev_pairs.pop() {
                Some(p) => pairs.push(p),
                None => {},
            }
        }
        assert(pairs@ =~= indexed_values(orig));
        let ghost unsorted = pairs@;
        sort_pairs_by_key(&mut pairs);
        let ghost sorted = pairs@;
        let mut rev_values: Vec<V> = Vec::new();
        while pairs.len() > 0
            invariant
                pairs@.len() + rev_values@.len() == sorted.len(),
                pairs@ == sorted.take(pairs@.len() as int),
                forall|j: int| 0 <= j < rev_values@.len() ==> #[trigger] rev_values@[j]
                    == sorted[sorted.len() - 1 - j].1,
            decreases pairs@.len(),
        {
            match pairs.pop() {
                Some(p) => rev_values.push(p.1),
                None => {},
            }
            assert(pairs@ =~= sorted.take(pairs@.len() as int));
        }
        let mut values: Vec<V> = Vec::new();
        while rev_values.len() > 0
            invariant
                rev_values@.len() + values@.len() == sorted.len(),
                forall|j: int| 0 <= j < rev_values@.len() ==> #[trigger] rev_values@[j]
                    == sorted[sorted.len() - 1 - j].1,
                forall|j: int| 0 <= j < values@.len() ==> #[trigger] values@[j] == sorted[j].1,
            decreases rev_values@.len(),
        {
            match rev_values.pop() {
                Some(v) => values.push(v),
                None => {},
            }
        }
        assert(values@ =~= sorted.map_values(|p: (i64, V)| p.1));
        Ok(TableShape::List(values))
    }
}

} // verus!
