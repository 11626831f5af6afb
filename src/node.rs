use vstd::prelude::*;

verus! {

/// A document tree value.
#[derive(Debug, PartialEq, Eq)]
pub enum Node {
    Object(Vec<(String, Node)>),
    Array(Vec<Node>),
    Str(String),
    Number(String),
    Bool(bool),
    Null,
}

/// The mathematical model of a [`Node`].
pub enum Doc {
    Object(Seq<(Seq<char>, Doc)>),
    Array(Seq<Doc>),
    Str(Seq<char>),
    Number(Seq<char>),
    Bool(bool),
    Null,
}

impl Node {
    pub open spec fn view(self) -> Doc
        decreases self,
    {
        match self {
            Node::Object(es) => Doc::Object(
                Seq::new(
                    es@.len(),
                    |i: int|
                        if 0 <= i < es@.len() {
                            (es@[i].0@, es@[i].1.view())
                        } else {
                            (Seq::empty(), Doc::Null)
                        },
                ),
            ),
            Node::Array(items) => Doc::Array(
                Seq::new(
                    items@.len(),
                    |i: int|
                        if 0 <= i < items@.len() {
                            items@[i].view()
                        } else {
                            Doc::Null
                        },
                ),
            ),
            Node::Str(s) => Doc::Str(s@),
            Node::Number(s) => Doc::Number(s@),
            Node::Bool(b) => Doc::Bool(b),
            Node::Null => Doc::Null,
        }
    }
}


impl Doc {
    /// Every object in the tree has pairwise distinct keys.
    pub open spec fn wf(self) -> bool
        decreases self,
    {
        match self {
            Doc::Object(es) => {
                &&& forall|i: int, j: int|
                    0 <= i < j < es.len() ==> #[trigger] es[i].0 != #[trigger] es[j].0
                &&& forall|i: int| 0 <= i < es.len() ==> (#[trigger] es[i]).1.wf()
            },
            Doc::Array(items) => forall|i: int| 0 <= i < items.len() ==> (#[trigger] items[i]).wf(),
            _ => true,
        }
    }
}

/// The keys of a sequence of entries, in order.
pub open spec fn keys_of<V>(es: Seq<(Seq<char>, V)>) -> Seq<Seq<char>> {
    es.map_values(|e: (Seq<char>, V)| e.0)
}

/// The first position of `k` in `keys`, or -1 when `k` does not occur.
pub open spec fn position_of(keys: Seq<Seq<char>>, k: Seq<char>) -> int {
    if exists|i: int| 0 <= i < keys.len() && first_at(keys, k, i) {
        choose|i: int| 0 <= i < keys.len() && first_at(keys, k, i)
    } else {
        -1
    }
}

/// `k` stands at `i` in `keys` and nowhere before.
pub open spec fn first_at(keys: Seq<Seq<char>>, k: Seq<char>, i: int) -> bool {
    &&& keys[i] == k
    &&& forall|j: int| 0 <= j < i ==> keys[j] != k
}

pub proof fn lemma_position_of(keys: Seq<Seq<char>>, k: Seq<char>, i: int)
    requires
        0 <= i < keys.len(),
        first_at(keys, k, i),
    ensures
        position_of(keys, k) == i,
{
    let p = position_of(keys, k);
    assert(0 <= p < keys.len() && first_at(keys, k, p));
    if p < i {
        assert(keys[p] == k);
    } else if i < p {
        assert(keys[i] == k);
    }
}

pub proof fn lemma_position_none(keys: Seq<Seq<char>>, k: Seq<char>)
    requires
        forall|j: int| 0 <= j < keys.len() ==> keys[j] != k,
    ensures
        position_of(keys, k) == -1,
{
}

/// A key that is absent has position -1; a present one has a position.
pub proof fn lemma_position_absent(keys: Seq<Seq<char>>, k: Seq<char>, j: int)
    requires
        0 <= j < keys.len(),
        keys[j] == k,
    ensures
        position_of(keys, k) >= 0,
    decreases j,
{
    if exists|j0: int| 0 <= j0 < j && keys[j0] == k {
        let j0 = choose|j0: int| 0 <= j0 < j && keys[j0] == k;
        lemma_position_absent(keys, k, j0);
    } else {
        assert(first_at(keys, k, j));
    }
}

/// After appending a new key, it is found at the end.
pub proof fn lemma_position_push<V>(es: Seq<(Seq<char>, V)>, k: Seq<char>, x: V)
    requires
        position_of(keys_of(es), k) == -1,
    ensures
        position_of(keys_of(es.push((k, x))), k) == es.len(),
{
    let keys = keys_of(es);
    let nkeys = keys_of(es.push((k, x)));
    assert(nkeys =~= keys.push(k));
    assert forall|j: int| 0 <= j < es.len() implies nkeys[j] != k by {
        if keys[j] == k {
            lemma_position_absent(keys, k, j);
        }
    }
    lemma_position_of(nkeys, k, es.len() as int);
}

/// Replacing the value under a present key keeps its position.
pub proof fn lemma_position_update<V>(es: Seq<(Seq<char>, V)>, k: Seq<char>, x: V)
    requires
        position_of(keys_of(es), k) >= 0,
    ensures
        position_of(keys_of(es.update(position_of(keys_of(es), k), (k, x))), k) == position_of(
            keys_of(es),
            k,
        ),
{
    let i = position_of(keys_of(es), k);
    lemma_position_range(keys_of(es), k);
    assert(keys_of(es.update(i, (k, x))) =~= keys_of(es));
}

/// Appending an entry under another key does not move a key's position.
pub proof fn lemma_position_push_other<V>(
    es: Seq<(Seq<char>, V)>,
    k: Seq<char>,
    x: V,
    k2: Seq<char>,
)
    requires
        k2 != k,
    ensures
        position_of(keys_of(es.push((k, x))), k2) == position_of(keys_of(es), k2),
{
    let keys = keys_of(es);
    let nkeys = keys_of(es.push((k, x)));
    assert(nkeys =~= keys.push(k));
    let j = position_of(keys, k2);
    lemma_position_range(keys, k2);
    if j >= 0 {
        assert(first_at(keys, k2, j));
        assert(first_at(nkeys, k2, j));
        lemma_position_of(nkeys, k2, j);
    } else {
        assert forall|a: int| 0 <= a < nkeys.len() implies nkeys[a] != k2 by {
            if a < keys.len() && keys[a] == k2 {
                lemma_position_absent(keys, k2, a);
            }
        }
        lemma_position_none(nkeys, k2);
    }
}

pub proof fn lemma_position_range(keys: Seq<Seq<char>>, k: Seq<char>)
    ensures
        -1 <= position_of(keys, k) < keys.len(),
        position_of(keys, k) >= 0 ==> keys[position_of(keys, k)] == k,
{
}

/// The position of the first entry of `es` whose key is `k`.
pub fn find_key<V>(es: &Vec<(String, V)>, k: &String) -> (r: Option<usize>)
    ensures
        match r {
            Some(i) => i < es@.len() && position_of(
                es@.map_values(|e: (String, V)| e.0@),
                k@,
            ) == i as int,
            None => position_of(es@.map_values(|e: (String, V)| e.0@), k@) == -1,
        },
{
    let ghost keys = es@.map_values(|e: (String, V)| e.0@);
    let mut i: usize = 0;
    while i < es.len()
        invariant
            i <= es@.len(),
            keys == es@.map_values(|e: (String, V)| e.0@),
            forall|j: int| 0 <= j < i ==> keys[j] != k@,
        decreases es@.len() - i,
    {
        if es[i].0 == *k {
            proof {
                lemma_position_of(keys, k@, i as int);
            }
            return Some(i);
        }
        i = i + 1;
    }
    proof {
        lemma_position_none(keys, k@);
    }
    None
}

} // verus!
