//! JSON values: reading them, merging them, and writing them.

use serde_json::Value;

use vstd::prelude::*;

use crate::order;

verus! {

// ---------------------------------------------------------------------------
// The model
// ---------------------------------------------------------------------------

/// A JSON value. The entries of a table are in the order of their keys.
#[verifier::ext_equal]
pub enum Tree {
    Null,
    Bool(bool),
    Number(Seq<char>),
    Text(Seq<char>),
    List(Seq<Tree>),
    Table(Seq<(Seq<char>, Tree)>),
}

/// The value of the first entry with the key `key`.
pub open spec fn lookup(entries: Seq<(Seq<char>, Tree)>, key: Seq<char>) -> Option<Tree>
    decreases entries.len(),
{
    if entries.len() == 0 {
        None
    } else if entries[0].0 == key {
        Some(entries[0].1)
    } else {
        lookup(entries.skip(1), key)
    }
}

impl Tree {
    /// The member `key` of a table; nothing else has members.
    pub open spec fn get(self, key: Seq<char>) -> Option<Tree> {
        match self {
            Tree::Table(entries) => lookup(entries, key),
            _ => None,
        }
    }
}

/// The keys are in strictly ascending order.
pub open spec fn keys_ascend(entries: Seq<(Seq<char>, Tree)>) -> bool {
    forall|i: int, j: int|
        0 <= i < j < entries.len() ==> order::before(
            order::text_rank((#[trigger] entries[i]).0),
            order::text_rank((#[trigger] entries[j]).0),
        )
}

/// Every table, at any depth, has its keys in strictly ascending order.
pub open spec fn tidy(tree: Tree) -> bool
    decreases tree,
{
    match tree {
        Tree::List(items) => forall|i: int| 0 <= i < items.len() ==> tidy(#[trigger] items[i]),
        Tree::Table(entries) => keys_ascend(entries) && forall|i: int|
            0 <= i < entries.len() ==> tidy((#[trigger] entries[i]).1),
        _ => true,
    }
}

/// `entries` with the value of `key` set to `value`.
pub open spec fn put(
    entries: Seq<(Seq<char>, Tree)>,
    key: Seq<char>,
    value: Tree,
) -> Seq<(Seq<char>, Tree)>
    decreases entries.len(),
{
    if entries.len() == 0 {
        seq![(key, value)]
    } else if entries[0].0 == key {
        seq![(key, value)] + entries.skip(1)
    } else if order::before(order::text_rank(key), order::text_rank(entries[0].0)) {
        seq![(key, value)] + entries
    } else {
        seq![entries[0]] + put(entries.skip(1), key, value)
    }
}

/// `overlay` merged into `base`. Tables merge key by key; every other value,
/// lists among them, is replaced wholesale.
pub open spec fn merged(base: Tree, overlay: Tree) -> Tree
    decreases overlay, 0int,
{
    match (base, overlay) {
        (Tree::Table(a), Tree::Table(b)) => Tree::Table(merged_entries(a, b)),
        _ => overlay,
    }
}

/// The entries `b` merged into the entries `a`, one after the other.
pub open spec fn merged_entries(
    a: Seq<(Seq<char>, Tree)>,
    b: Seq<(Seq<char>, Tree)>,
) -> Seq<(Seq<char>, Tree)>
    decreases b, 1int,
{
    if b.len() == 0 {
        a
    } else {
        let key = b[0].0;
        let value = match lookup(a, key) {
            Some(existing) => merged(existing, b[0].1),
            None => b[0].1,
        };
        merged_entries(put(a, key, value), b.subrange(1, b.len() as int))
    }
}

// ---------------------------------------------------------------------------
// Values
// ---------------------------------------------------------------------------

/// A JSON value.
#[derive(Debug)]
pub enum Json {
    Null,
    Bool(bool),
    Number(String),
    Text(String),
    List(Vec<Json>),
    /// The entries are in the order of their keys.
    Table(Vec<(String, Json)>),
}

/// What a JSON value is.
pub open spec fn tree_of_json(json: Json) -> Tree
    decreases json,
{
    match json {
        Json::Null => Tree::Null,
        Json::Bool(b) => Tree::Bool(b),
        Json::Number(s) => Tree::Number(s@),
        Json::Text(s) => Tree::Text(s@),
        Json::List(items) => Tree::List(
            Seq::new(
                items@.len(),
                |i: int|
                    if 0 <= i < items@.len() {
                        tree_of_json(items@[i])
                    } else {
                        Tree::Null
                    },
            ),
        ),
        Json::Table(entries) => Tree::Table(
            Seq::new(
                entries@.len(),
                |i: int|
                    if 0 <= i < entries@.len() {
                        (entries@[i].0@, tree_of_json(entries@[i].1))
                    } else {
                        (Seq::empty(), Tree::Null)
                    },
            ),
        ),
    }
}

impl View for Json {
    type V = Tree;

    open spec fn view(&self) -> Tree {
        tree_of_json(*self)
    }
}

/// The items of a list.
pub open spec fn trees(items: Seq<Json>) -> Seq<Tree> {
    items.map_values(|item: Json| item@)
}

/// The entries of a table.
pub open spec fn tree_entries(entries: Seq<(String, Json)>) -> Seq<(Seq<char>, Tree)> {
    entries.map_values(|entry: (String, Json)| (entry.0@, entry.1@))
}

/// A list is its items, a table its entries.
pub broadcast proof fn lemma_json_view(json: Json)
    ensures
        #![trigger json@]
        json matches Json::List(items) ==> json@ == Tree::List(trees(items@)),
        json matches Json::Table(entries) ==> json@ == Tree::Table(tree_entries(entries@)),
{
    match json {
        Json::List(items) => {
            assert(json@->List_0 =~= trees(items@));
        },
        Json::Table(entries) => {
            assert(json@->Table_0 =~= tree_entries(entries@));
        },
        _ => {},
    }
}

impl Json {
    /// The member `key` of a table; nothing else has members.
    pub fn get(&self, key: &str) -> (r: Option<&Json>)
        ensures
            r is Some <==> self@.get(key@) is Some,
            r matches Some(json) ==> self@.get(key@) == Some(json@),
    {
        broadcast use lemma_json_view;

        match self {
            Json::Table(entries) => {
                let ghost all = tree_entries(entries@);
                assert(all.skip(0) =~= all);
                let mut i: usize = 0;
                while i < entries.len()
                    invariant
                        i <= entries.len(),
                        all == tree_entries(entries@),
                        self@.get(key@) == lookup(all, key@),
                        lookup(all, key@) == lookup(all.skip(i as int), key@),
                    decreases entries.len() - i,
                {
                    assert(all.skip(i as int)[0] == (entries@[i as int].0@, entries@[i as int].1@));
                    assert(all.skip(i as int).skip(1) =~= all.skip(i + 1));
                    if crate::text::same(entries[i].0.as_str(), key) {
                        return Some(&entries[i].1);
                    }
                    i = i + 1;
                }
                None
            },
            _ => None,
        }
    }

    /// Another copy of the value.
    pub fn copy(&self) -> (r: Json)
        ensures
            r@ == self@,
        decreases self,
    {
        broadcast use lemma_json_view;

        match self {
            Json::Null => Json::Null,
            Json::Bool(b) => Json::Bool(*b),
            Json::Number(s) => Json::Number(s.clone()),
            Json::Text(s) => Json::Text(s.clone()),
            Json::List(items) => {
                let mut out: Vec<Json> = Vec::new();
                let mut i: usize = 0;
                while i < items.len()
                    invariant
                        i <= items.len(),
                        *self == Json::List(*items),
                        trees(out@) == trees(items@).take(i as int),
                    decreases items.len() - i,
                {
                    assert(self->List_0 == *items);
                    assert(decreases_to!(self => self->List_0));
                    let ghost done = trees(out@);
                    let item = items[i].copy();
                    out.push(item);
                    i = i + 1;
                    assert(trees(out@) =~= done.push(items@[i - 1]@));
                    assert(trees(items@).take(i as int) =~= done.push(items@[i - 1]@));
                }
                assert(trees(out@) =~= trees(items@));
                Json::List(out)
            },
            Json::Table(entries) => {
                let mut out: Vec<(String, Json)> = Vec::new();
                let mut i: usize = 0;
                while i < entries.len()
                    invariant
                        i <= entries.len(),
                        *self == Json::Table(*entries),
                        tree_entries(out@) == tree_entries(entries@).take(i as int),
                    decreases entries.len() - i,
                {
                    assert(self->Table_0 == *entries);
                    assert(decreases_to!(self => self->Table_0));
                    let ghost done = tree_entries(out@);
                    let value = entries[i].1.copy();
                    out.push((entries[i].0.clone(), value));
                    i = i + 1;
                    let ghost last = (entries@[i - 1].0@, entries@[i - 1].1@);
                    assert(tree_entries(out@) =~= done.push(last));
                    assert(tree_entries(entries@).take(i as int) =~= done.push(last));
                }
                assert(tree_entries(out@) =~= tree_entries(entries@));
                Json::Table(out)
            },
        }
    }
}

/// Where `key` stands or would have to stand among `entries`, and whether it
/// does.
fn find_entry(entries: &Vec<(String, Json)>, key: &String) -> (r: (usize, bool))
    ensures
        r.0 <= entries.len(),
        r.1 ==> r.0 < entries.len() && entries@[r.0 as int].0@ == key@ && lookup(
            tree_entries(entries@),
            key@,
        ) == Some(entries@[r.0 as int].1@),
        !r.1 ==> r.0 == entries.len() || order::before(
            order::text_rank(key@),
            order::text_rank(entries@[r.0 as int].0@),
        ),
        forall|k: int|
            0 <= k < r.0 ==> (#[trigger] entries@[k]).0@ != key@ && !order::before(
                order::text_rank(key@),
                order::text_rank(entries@[k].0@),
            ),
{
    let ghost all = tree_entries(entries@);
    assert(all.skip(0) =~= all);
    let mut i: usize = 0;
    while i < entries.len()
        invariant
            i <= entries.len(),
            all == tree_entries(entries@),
            lookup(all, key@) == lookup(all.skip(i as int), key@),
            forall|k: int|
                0 <= k < i ==> (#[trigger] entries@[k]).0@ != key@ && !order::before(
                    order::text_rank(key@),
                    order::text_rank(entries@[k].0@),
                ),
        decreases entries.len() - i,
    {
        assert(all.skip(i as int)[0] == (entries@[i as int].0@, entries@[i as int].1@));
        assert(all.skip(i as int).skip(1) =~= all.skip(i + 1));
        if entries[i].0 == *key {
            return (i, true);
        }
        if order::text_before(key.as_str(), entries[i].0.as_str()) {
            return (i, false);
        }
        i = i + 1;
    }
    (i, false)
}

/// Setting a key changes the entry that has it, or adds one at its place.
proof fn lemma_put(
    entries: Seq<(Seq<char>, Tree)>,
    key: Seq<char>,
    value: Tree,
    at: int,
    found: bool,
)
    requires
        0 <= at <= entries.len(),
        found ==> at < entries.len() && entries[at].0 == key,
        !found ==> at == entries.len() || (entries[at].0 != key && order::before(
            order::text_rank(key),
            order::text_rank(entries[at].0),
        )),
        forall|k: int|
            0 <= k < at ==> (#[trigger] entries[k]).0 != key && !order::before(
                order::text_rank(key),
                order::text_rank(entries[k].0),
            ),
    ensures
        put(entries, key, value) == if found {
            entries.update(at, (key, value))
        } else {
            entries.insert(at, (key, value))
        },
    decreases entries.len(),
{
    let target = if found {
        entries.update(at, (key, value))
    } else {
        entries.insert(at, (key, value))
    };
    if at == 0 {
        assert(put(entries, key, value) =~= target);
    } else {
        let rest = entries.skip(1);
        assert forall|k: int| 0 <= k < at - 1 implies (#[trigger] rest[k]).0 != key
            && !order::before(order::text_rank(key), order::text_rank(rest[k].0)) by {
            assert(rest[k] == entries[k + 1]);
        }
        lemma_put(rest, key, value, at - 1, found);
        assert(entries[0].0 != key);
        assert(put(entries, key, value) =~= target);
    }
}

/// A key that no entry has is not found.
pub proof fn lemma_lookup_absent(entries: Seq<(Seq<char>, Tree)>, key: Seq<char>)
    requires
        forall|k: int| 0 <= k < entries.len() ==> (#[trigger] entries[k]).0 != key,
    ensures
        lookup(entries, key) is None,
    decreases entries.len(),
{
    if entries.len() > 0 {
        assert(entries[0].0 != key);
        assert forall|k: int| 0 <= k < entries.skip(1).len() implies (
        #[trigger] entries.skip(1)[k]).0 != key by {
            assert(entries[k + 1].0 != key);
        }
        lemma_lookup_absent(entries.skip(1), key);
    }
}

/// The members of a tidy value are tidy.
pub proof fn lemma_tidy_member(tree: Tree, key: Seq<char>)
    requires
        tidy(tree),
    ensures
        tree.get(key) matches Some(member) ==> tidy(member),
{
    if let Tree::Table(entries) = tree {
        lemma_tidy_lookup(entries, key);
    }
}

proof fn lemma_tidy_lookup(entries: Seq<(Seq<char>, Tree)>, key: Seq<char>)
    requires
        forall|i: int| 0 <= i < entries.len() ==> tidy((#[trigger] entries[i]).1),
    ensures
        lookup(entries, key) matches Some(member) ==> tidy(member),
    decreases entries.len(),
{
    if entries.len() > 0 {
        assert(tidy(entries[0].1));
        assert forall|i: int| 0 <= i < entries.skip(1).len() implies tidy(
            (#[trigger] entries.skip(1)[i]).1,
        ) by {
            assert(entries.skip(1)[i] == entries[i + 1]);
        }
        lemma_tidy_lookup(entries.skip(1), key);
    }
}

/// The place of a key among ordered entries.
spec fn place_of(entries: Seq<(Seq<char>, Tree)>, key: Seq<char>, at: int, found: bool) -> bool {
    &&& 0 <= at <= entries.len()
    &&& found ==> at < entries.len() && entries[at].0 == key
    &&& !found ==> at == entries.len() || (entries[at].0 != key && order::before(
        order::text_rank(key),
        order::text_rank(entries[at].0),
    ))
    &&& forall|k: int|
        0 <= k < at ==> (#[trigger] entries[k]).0 != key && !order::before(
            order::text_rank(key),
            order::text_rank(entries[k].0),
        )
}

/// Ordered entries stay ordered when a key is set; where its place is taken by
/// a later key, it was not there.
proof fn lemma_put_ascends(
    entries: Seq<(Seq<char>, Tree)>,
    key: Seq<char>,
    value: Tree,
    at: int,
    found: bool,
)
    requires
        keys_ascend(entries),
        place_of(entries, key, at, found),
    ensures
        keys_ascend(put(entries, key, value)),
        !found ==> lookup(entries, key) is None,
{
    lemma_put(entries, key, value, at, found);
    let r = put(entries, key, value);
    let rank = order::text_rank(key);
    assert forall|k: int| 0 <= k < at implies order::before(
        order::text_rank((#[trigger] entries[k]).0),
        rank,
    ) by {
        order::lemma_before_total(order::text_rank(entries[k].0), rank);
        order::lemma_text_rank_differs(entries[k].0, key);
    }
    if !found {
        assert forall|k: int| at <= k < entries.len() implies order::before(
            rank,
            order::text_rank((#[trigger] entries[k]).0),
        ) by {
            if k > at {
                order::lemma_before_transitive(
                    rank,
                    order::text_rank(entries[at].0),
                    order::text_rank(entries[k].0),
                );
            }
        }
        order::lemma_before_irreflexive(rank);
        assert forall|k: int| 0 <= k < entries.len() implies (#[trigger] entries[k]).0 != key by {
            if k >= at {
                assert(order::before(rank, order::text_rank(entries[k].0)));
            }
        }
        lemma_lookup_absent(entries, key);
    }
    assert forall|i: int, j: int| 0 <= i < j < r.len() implies order::before(
        order::text_rank((#[trigger] r[i]).0),
        order::text_rank((#[trigger] r[j]).0),
    ) by {
        if found {
            assert(r[i].0 == entries[i].0);
            assert(r[j].0 == entries[j].0);
        } else {
            if i != at {
                assert(r[i] == entries[if i < at {
                    i
                } else {
                    i - 1
                }]);
            }
            if j != at {
                assert(r[j] == entries[if j < at {
                    j
                } else {
                    j - 1
                }]);
            }
        }
    }
}

/// Setting a key keeps every table in order.
proof fn lemma_put_tidy(
    entries: Seq<(Seq<char>, Tree)>,
    key: Seq<char>,
    value: Tree,
    at: int,
    found: bool,
)
    requires
        tidy(Tree::Table(entries)),
        tidy(value),
        place_of(entries, key, at, found),
    ensures
        tidy(Tree::Table(put(entries, key, value))),
{
    lemma_put_ascends(entries, key, value, at, found);
    lemma_put(entries, key, value, at, found);
    let r = put(entries, key, value);
    assert forall|i: int| 0 <= i < r.len() implies tidy((#[trigger] r[i]).1) by {
        if i != at {
            if found || i < at {
                assert(r[i] == entries[i]);
            } else {
                assert(r[i] == entries[i - 1]);
            }
        }
    }
}

/// Merges `overlay` into `base`. Tables merge key by key; every other value,
/// lists among them, is replaced wholesale.
pub fn deep_merge(base: Json, overlay: &Json) -> (r: Json)
    requires
        tidy(base@),
        tidy(overlay@),
    ensures
        r@ == merged(base@, overlay@),
        tidy(r@),
    decreases overlay,
{
    broadcast use lemma_json_view;

    match (base, overlay) {
        (Json::Table(entries), Json::Table(over)) => {
            let ghost b = tree_entries(over@);
            let ghost whole = merged_entries(tree_entries(entries@), b);
            let mut entries = entries;
            let mut i: usize = 0;
            assert(b.subrange(0, b.len() as int) =~= b);
            while i < over.len()
                invariant
                    i <= over.len(),
                    *overlay == Json::Table(*over),
                    b == tree_entries(over@),
                    tidy(Tree::Table(b)),
                    tidy(Tree::Table(tree_entries(entries@))),
                    merged_entries(
                        tree_entries(entries@),
                        b.subrange(i as int, b.len() as int),
                    ) == whole,
                decreases over.len() - i,
            {
                broadcast use lemma_json_view;

                let key = &over[i].0;
                let ghost a = tree_entries(entries@);
                let ghost rest = b.subrange(i as int, b.len() as int);
                assert(rest[0] == (key@, over@[i as int].1@));
                assert(rest.subrange(1, rest.len() as int) =~= b.subrange(
                    i + 1,
                    b.len() as int,
                ));
                let (at, found) = find_entry(&entries, key);
                proof {
                    assert forall|k: int| 0 <= k < at implies (#[trigger] a[k]).0 != key@
                        && !order::before(order::text_rank(key@), order::text_rank(a[k].0)) by {
                        assert(entries@[k].0@ != key@);
                    }
                    order::lemma_before_irreflexive(order::text_rank(key@));
                    assert(place_of(a, key@, at as int, found));
                    assert(b[i as int] == (key@, over@[i as int].1@));
                    assert(tidy(b[i as int].1));
                    if found {
                        assert(tidy(a[at as int].1));
                    }
                }
                if found {
                    let (_, existing) = entries.remove(at);
                    assert(overlay->Table_0 == *over);
                    assert(decreases_to!(overlay => overlay->Table_0));
                    let value = deep_merge(existing, &over[i].1);
                    proof {
                        lemma_put(a, key@, value@, at as int, true);
                        lemma_put_tidy(a, key@, value@, at as int, true);
                    }
                    entries.insert(at, (key.clone(), value));
                    assert(tree_entries(entries@) =~= put(a, key@, value@));
                } else {
                    let value = over[i].1.copy();
                    proof {
                        lemma_put(a, key@, value@, at as int, false);
                        lemma_put_ascends(a, key@, value@, at as int, false);
                        lemma_put_tidy(a, key@, value@, at as int, false);
                    }
                    entries.insert(at, (key.clone(), value));
                    assert(tree_entries(entries@) =~= put(a, key@, value@));
                }
                i = i + 1;
            }
            assert(b.subrange(i as int, b.len() as int) =~= Seq::empty());
            Json::Table(entries)
        },
        (base, _) => overlay.copy(),
    }
}

proof fn lemma_lookup_put(
    entries: Seq<(Seq<char>, Tree)>,
    key: Seq<char>,
    value: Tree,
    other: Seq<char>,
)
    ensures
        lookup(put(entries, key, value), other) == if other == key {
            Some(value)
        } else {
            lookup(entries, other)
        },
    decreases entries.len(),
{
    let r = put(entries, key, value);
    if entries.len() == 0 {
        assert(lookup(r.skip(1), other) is None);
    } else if entries[0].0 == key {
        assert(r.skip(1) =~= entries.skip(1));
    } else if order::before(order::text_rank(key), order::text_rank(entries[0].0)) {
        assert(r.skip(1) =~= entries);
    } else {
        lemma_lookup_put(entries.skip(1), key, value, other);
        assert(r.skip(1) =~= put(entries.skip(1), key, value));
        assert(r[0] == entries[0]);
    }
}

/// What a key is worth in a merged table: what both sides say is merged, what
/// one side says stays.
pub open spec fn merged_member(a: Option<Tree>, b: Option<Tree>) -> Option<Tree> {
    match (a, b) {
        (Some(x), Some(y)) => Some(merged(x, y)),
        (None, Some(y)) => Some(y),
        (x, None) => x,
    }
}

proof fn lemma_merged_entries(
    a: Seq<(Seq<char>, Tree)>,
    b: Seq<(Seq<char>, Tree)>,
    key: Seq<char>,
)
    requires
        keys_ascend(b),
    ensures
        lookup(merged_entries(a, b), key) == merged_member(lookup(a, key), lookup(b, key)),
    decreases b.len(),
{
    if b.len() > 0 {
        let first = b[0].0;
        let value = match lookup(a, first) {
            Some(existing) => merged(existing, b[0].1),
            None => b[0].1,
        };
        let rest = b.subrange(1, b.len() as int);
        assert(rest =~= b.skip(1));
        assert forall|i: int, j: int| 0 <= i < j < rest.len() implies order::before(
            order::text_rank((#[trigger] rest[i]).0),
            order::text_rank((#[trigger] rest[j]).0),
        ) by {
            assert(rest[i] == b[i + 1] && rest[j] == b[j + 1]);
        }
        lemma_merged_entries(put(a, first, value), rest, key);
        lemma_lookup_put(a, first, value, key);
        if key == first {
            assert forall|k: int| 0 <= k < rest.len() implies (#[trigger] rest[k]).0 != key by {
                assert(rest[k] == b[k + 1]);
                order::lemma_before_irreflexive(order::text_rank(first));
            }
            lemma_lookup_absent(rest, key);
        }
    }
}

/// Tables merge key by key: no key of either side is lost, and what both have
/// is merged in turn.
pub proof fn law_tables_merge_key_by_key(
    a: Seq<(Seq<char>, Tree)>,
    b: Seq<(Seq<char>, Tree)>,
    key: Seq<char>,
)
    requires
        keys_ascend(b),
    ensures
        merged(Tree::Table(a), Tree::Table(b)).get(key) == merged_member(
            lookup(a, key),
            lookup(b, key),
        ),
{
    lemma_merged_entries(a, b, key);
}

/// Everything but two tables is replaced wholesale, lists among them.
pub proof fn law_other_values_are_replaced(base: Tree, overlay: Tree)
    requires
        !(base is Table && overlay is Table),
    ensures
        merged(base, overlay) == overlay,
{
}

/// Entries ascend if each key comes before the next.
pub proof fn lemma_keys_ascend(entries: Seq<(Seq<char>, Tree)>)
    requires
        forall|i: int|
            0 <= i && i + 1 < entries.len() ==> order::before(
                order::text_rank((#[trigger] entries[i]).0),
                order::text_rank(entries[i + 1].0),
            ),
    ensures
        keys_ascend(entries),
    decreases entries.len(),
{
    if entries.len() > 1 {
        let rest = entries.drop_last();
        assert forall|i: int| 0 <= i && i + 1 < rest.len() implies order::before(
            order::text_rank((#[trigger] rest[i]).0),
            order::text_rank(rest[i + 1].0),
        ) by {
            assert(entries[i] == rest[i]);
        }
        lemma_keys_ascend(rest);
        let n = entries.len() - 1;
        assert forall|i: int, j: int| 0 <= i < j < entries.len() implies order::before(
            order::text_rank((#[trigger] entries[i]).0),
            order::text_rank((#[trigger] entries[j]).0),
        ) by {
            assert(entries[n - 1].0 == rest[n - 1].0);
            if j < n {
                assert(entries[i] == rest[i] && entries[j] == rest[j]);
            } else if i < n - 1 {
                assert(entries[i] == rest[i]);
                assert(order::before(
                    order::text_rank(rest[i].0),
                    order::text_rank(rest[n - 1].0),
                ));
                order::lemma_before_transitive(
                    order::text_rank(entries[i].0),
                    order::text_rank(entries[n - 1].0),
                    order::text_rank(entries[n].0),
                );
            }
        }
    }
}

// ---------------------------------------------------------------------------
// serde_json
// ---------------------------------------------------------------------------

/// A JSON value of `serde_json`.
#[verifier::external_type_specification]
#[verifier::external_body]
pub struct ExValue(Value);

/// What a `serde_json` value holds.
pub uninterp spec fn tree_of_value(value: Value) -> Tree;

/// What `serde_json::from_str` makes of a text: what it says, or the message
/// with which it is refused.
pub uninterp spec fn parsed(text: Seq<char>) -> Result<Tree, Seq<char>>;

/// `serde_json::from_str::<Value>`: succeeds or fails by the text alone, and
/// the value is what the text says.
#[verifier::external_body]
fn parse_value(text: &str) -> (r: Result<Value, String>)
    ensures
        match r {
            Ok(value) => parsed(text@) == Ok::<Tree, Seq<char>>(tree_of_value(value)),
            Err(complaint) => parsed(text@) == Err::<Tree, Seq<char>>(complaint@),
        },
{
    serde_json::from_str(text).map_err(|error| error.to_string())
}

/// The outermost layer of a value.
enum Node {
    Null,
    Bool(bool),
    Number(String),
    Text(String),
    List(Vec<Value>),
    Table(Vec<(String, Value)>),
}

/// What some values hold.
pub open spec fn value_trees(items: Seq<Value>) -> Seq<Tree> {
    items.map_values(|item: Value| tree_of_value(item))
}

/// What some entries hold.
pub open spec fn value_entries(entries: Seq<(String, Value)>) -> Seq<(Seq<char>, Tree)> {
    entries.map_values(|entry: (String, Value)| (entry.0@, tree_of_value(entry.1)))
}

/// The variants of `serde_json::Value`. An object hands out its entries in the
/// order of its keys, each key once: it is a `BTreeMap`.
#[verifier::external_body]
fn open_value(value: Value) -> (r: Node)
    ensures
        tree_of_value(value) == (match r {
            Node::Null => Tree::Null,
            Node::Bool(b) => Tree::Bool(b),
            Node::Number(s) => Tree::Number(s@),
            Node::Text(s) => Tree::Text(s@),
            Node::List(items) => Tree::List(value_trees(items@)),
            Node::Table(entries) => Tree::Table(value_entries(entries@)),
        }),
        r matches Node::Table(entries) ==> keys_ascend(value_entries(entries@)),
{
    match value {
        Value::Null => Node::Null,
        Value::Bool(b) => Node::Bool(b),
        Value::Number(n) => Node::Number(n.to_string()),
        Value::String(s) => Node::Text(s),
        Value::Array(items) => Node::List(items),
        Value::Object(entries) => Node::Table(entries.into_iter().collect()),
    }
}

/// A `serde_json` value as a value of our own.
fn from_value(value: Value) -> (r: Json)
    ensures
        r@ == tree_of_value(value),
        tidy(r@),
    decreases tree_of_value(value),
{
    broadcast use lemma_json_view;

    let ghost tree = tree_of_value(value);
    match open_value(value) {
        Node::Null => Json::Null,
        Node::Bool(b) => Json::Bool(b),
        Node::Number(s) => Json::Number(s),
        Node::Text(s) => Json::Text(s),
        Node::List(items) => {
            let ghost all = value_trees(items@);
            let mut rest = items;
            let mut out: Vec<Json> = Vec::new();
            while rest.len() > 0
                invariant
                    tree == tree_of_value(value),
                    tree == Tree::List(all),
                    trees(out@) + value_trees(rest@) == all,
                    forall|i: int| 0 <= i < out.len() ==> tidy((#[trigger] out@[i])@),
                decreases rest.len(),
            {
                let ghost before = rest@;
                let ghost done = trees(out@);
                let first = rest.remove(0);
                proof {
                    assert(tree->List_0 == all);
                    assert(decreases_to!(tree => tree->List_0));
                    assert(value_trees(before)[0] == tree_of_value(first));
                    assert(all[out@.len() as int] == tree_of_value(first));
                }
                let item = from_value(first);
                out.push(item);
                assert(trees(out@) =~= done.push(item@));
                assert(value_trees(before) =~= seq![item@] + value_trees(rest@));
                assert(trees(out@) + value_trees(rest@) =~= all);
            }
            assert(trees(out@) =~= all);
            assert forall|i: int| 0 <= i < all.len() implies tidy(#[trigger] all[i]) by {
                assert(tidy(out@[i]@));
            }
            Json::List(out)
        },
        Node::Table(entries) => {
            let ghost all = value_entries(entries@);
            let mut rest = entries;
            let mut out: Vec<(String, Json)> = Vec::new();
            while rest.len() > 0
                invariant
                    tree == tree_of_value(value),
                    tree == Tree::Table(all),
                    tree_entries(out@) + value_entries(rest@) == all,
                    forall|i: int| 0 <= i < out.len() ==> tidy((#[trigger] out@[i]).1@),
                decreases rest.len(),
            {
                let ghost before = rest@;
                let ghost done = tree_entries(out@);
                let (key, first) = rest.remove(0);
                proof {
                    assert(tree->Table_0 == all);
                    assert(decreases_to!(tree => tree->Table_0));
                    assert(value_entries(before)[0] == (key@, tree_of_value(first)));
                    assert(all[out@.len() as int] == (key@, tree_of_value(first)));
                    assert(decreases_to!(all => all[out@.len() as int]));
                    assert(decreases_to!(all[out@.len() as int] => all[out@.len() as int].1));
                }
                let item = from_value(first);
                out.push((key, item));
                assert(tree_entries(out@) =~= done.push((key@, item@)));
                assert(value_entries(before) =~= seq![(key@, item@)] + value_entries(rest@));
                assert(tree_entries(out@) + value_entries(rest@) =~= all);
            }
            assert(tree_entries(out@) =~= all);
            assert forall|i: int| 0 <= i < all.len() implies tidy((#[trigger] all[i]).1) by {
                assert(tidy(out@[i].1@));
            }
            Json::Table(out)
        },
    }
}

/// Reads a JSON text, or says why it is none.
pub fn parse(text: &str) -> (r: Result<Json, String>)
    ensures
        match r {
            Ok(json) => parsed(text@) == Ok::<Tree, Seq<char>>(json@) && tidy(json@),
            Err(complaint) => parsed(text@) == Err::<Tree, Seq<char>>(complaint@),
        },
{
    match parse_value(text) {
        Ok(value) => Ok(from_value(value)),
        Err(complaint) => Err(complaint),
    }
}

/// What `serde_json::to_string_pretty` makes of a value.
pub uninterp spec fn pretty(tree: Tree) -> Seq<char>;

/// `Value::from(i64)`: a whole number, which is written in decimal.
#[verifier::external_body]
pub(crate) fn number_value(n: i64) -> (r: Value)
    ensures
        tree_of_value(r) == Tree::Number(crate::numbers::decimal(n as int)),
{
    Value::from(n)
}

/// `Value::from(bool)`: a truth value.
#[verifier::external_body]
pub(crate) fn bool_value(b: bool) -> (r: Value)
    ensures
        tree_of_value(r) == Tree::Bool(b),
{
    Value::from(b)
}

/// `Value::from(&str)`: a text.
#[verifier::external_body]
pub(crate) fn text_value(s: &str) -> (r: Value)
    ensures
        tree_of_value(r) == Tree::Text(s@),
{
    Value::from(s)
}

/// `Value::from(Vec<Value>)`: a list of the values, in their order.
#[verifier::external_body]
pub(crate) fn list_value(items: Vec<Value>) -> (r: Value)
    ensures
        tree_of_value(r) == Tree::List(value_trees(items@)),
{
    Value::from(items)
}

/// `serde_json::Map` made of entries and held as an object. The entries are
/// kept in the order of their keys, which is the order they are given in.
#[verifier::external_body]
pub(crate) fn table_value(entries: Vec<(String, Value)>) -> (r: Value)
    requires
        keys_ascend(value_entries(entries@)),
    ensures
        tree_of_value(r) == Tree::Table(value_entries(entries@)),
{
    Value::Object(entries.into_iter().collect())
}

/// `serde_json::to_string_pretty` on a value: its text, by the value alone. A
/// value has only texts for keys, and writing to a string does not fail.
#[verifier::external_body]
pub(crate) fn to_pretty(value: &Value) -> (r: String)
    ensures
        r@ == pretty(tree_of_value(*value)),
{
    serde_json::to_string_pretty(value).unwrap_or_default()
}

/// A key gives what its first entry holds; what is no table gives nothing.
pub proof fn law_the_first_entry_of_a_key_counts(
    entries: Seq<(Seq<char>, Tree)>,
    key: Seq<char>,
    i: int,
)
    ensures
        0 <= i < entries.len() && entries[i].0 == key && (forall|k: int|
            0 <= k < i ==> (#[trigger] entries[k]).0 != key) ==> Tree::Table(entries).get(key)
            == Some(entries[i].1),
        (forall|k: int| 0 <= k < entries.len() ==> (#[trigger] entries[k]).0 != key)
            ==> Tree::Table(entries).get(key) is None,
    decreases entries.len(),
{
    if entries.len() > 0 && entries[0].0 != key {
        let rest = entries.skip(1);
        law_the_first_entry_of_a_key_counts(rest, key, i - 1);
        if 0 <= i < entries.len() && entries[i].0 == key && (forall|k: int|
            0 <= k < i ==> (#[trigger] entries[k]).0 != key) {
            assert(rest[i - 1] == entries[i]);
            assert forall|k: int| 0 <= k < i - 1 implies (#[trigger] rest[k]).0 != key by {
                assert(rest[k] == entries[k + 1]);
            }
        }
        if forall|k: int| 0 <= k < entries.len() ==> (#[trigger] entries[k]).0 != key {
            assert forall|k: int| 0 <= k < rest.len() implies (#[trigger] rest[k]).0 != key by {
                assert(rest[k] == entries[k + 1]);
            }
        }
    }
    if entries.len() > 0 && entries[0].0 == key {
        if 0 <= i < entries.len() && entries[i].0 == key && (forall|k: int|
            0 <= k < i ==> (#[trigger] entries[k]).0 != key) {
            if i > 0 {
                assert(entries[0].0 != key);
            }
        }
    }
}

/// In a merged table a key that one side has keeps its value; where both have it
/// the overlay decides, except that two tables merge in turn.
pub proof fn law_the_overlay_decides(
    a: Seq<(Seq<char>, Tree)>,
    b: Seq<(Seq<char>, Tree)>,
    key: Seq<char>,
)
    requires
        keys_ascend(b),
    ensures
        ({
            let x = Tree::Table(a).get(key);
            let y = Tree::Table(b).get(key);
            let r = merged(Tree::Table(a), Tree::Table(b)).get(key);
            &&& y is None ==> r == x
            &&& x is None && y is Some ==> r == y
            &&& x is Some && y is Some && !(x->0 is Table && y->0 is Table) ==> r == y
            &&& x is Some && y is Some && x->0 is Table && y->0 is Table ==> r is Some && r->0
                is Table && r->0 == merged(x->0, y->0)
        }),
{
    law_tables_merge_key_by_key(a, b, key);
}

proof fn lemma_place_exists(entries: Seq<(Seq<char>, Tree)>, key: Seq<char>, at: int) -> (r: (
    int,
    bool,
))
    requires
        0 <= at <= entries.len(),
        forall|k: int|
            0 <= k < at ==> (#[trigger] entries[k]).0 != key && !order::before(
                order::text_rank(key),
                order::text_rank(entries[k].0),
            ),
    ensures
        place_of(entries, key, r.0, r.1),
    decreases entries.len() - at,
{
    if at == entries.len() {
        (at, false)
    } else if entries[at].0 == key {
        (at, true)
    } else if order::before(order::text_rank(key), order::text_rank(entries[at].0)) {
        (at, false)
    } else {
        lemma_place_exists(entries, key, at + 1)
    }
}

proof fn lemma_merged_ascends(a: Seq<(Seq<char>, Tree)>, b: Seq<(Seq<char>, Tree)>)
    requires
        keys_ascend(a),
    ensures
        keys_ascend(merged_entries(a, b)),
    decreases b.len(),
{
    if b.len() > 0 {
        let key = b[0].0;
        let value = match lookup(a, key) {
            Some(existing) => merged(existing, b[0].1),
            None => b[0].1,
        };
        let (at, found) = lemma_place_exists(a, key, 0);
        lemma_put_ascends(a, key, value, at, found);
        lemma_merged_ascends(put(a, key, value), b.subrange(1, b.len() as int));
    }
}

/// A merged table keeps its keys in the order of their bytes, each once.
pub proof fn law_merged_tables_stay_in_order(
    a: Seq<(Seq<char>, Tree)>,
    b: Seq<(Seq<char>, Tree)>,
    i: int,
    j: int,
)
    requires
        forall|m: int, n: int|
            0 <= m < n < a.len() ==> order::text_precedes(
                (#[trigger] a[m]).0,
                (#[trigger] a[n]).0,
            ),
    ensures
        ({
            let r = merged(Tree::Table(a), Tree::Table(b));
            &&& r is Table
            &&& 0 <= i < j < (r->Table_0).len() ==> order::text_precedes(
                (r->Table_0)[i].0,
                (r->Table_0)[j].0,
            )
        }),
{
    assert forall|m: int, n: int| 0 <= m < n < a.len() implies order::before(
        order::text_rank((#[trigger] a[m]).0),
        order::text_rank((#[trigger] a[n]).0),
    ) by {
        order::law_texts_are_ordered_by_their_bytes(a[m].0, a[n].0);
    }
    lemma_merged_ascends(a, b);
    let r = merged_entries(a, b);
    if 0 <= i < j < r.len() {
        order::law_texts_are_ordered_by_their_bytes(r[i].0, r[j].0);
    }
}

} // verus!
