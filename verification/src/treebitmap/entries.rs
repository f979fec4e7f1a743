//! The entries of a tree, in depth-first order.
use vstd::prelude::*;
use crate::bits;
use crate::model;
use crate::treebitmap::node::TbNode;

verus! {

/// The entries of a node's own positions from `from` on; `path` leads to the node.
pub open spec fn own_entries<V>(node: TbNode<V>, path: Seq<bool>, from: int) -> Seq<
    (Seq<bool>, V),
>
    decreases 16 - from,
{
    if from >= 16 {
        Seq::empty()
    } else {
        (match bits::slot(node.internal, node.values@, from) {
            Some(value) => seq![(path + bits::heap_path(from), value)],
            None => Seq::empty(),
        }) + own_entries(node, path, from + 1)
    }
}

/// The entries below a node's children from nibble `from` on.
pub open spec fn child_entries<V>(node: TbNode<V>, depth: nat, path: Seq<bool>, from: int) -> Seq<
    (Seq<bool>, V),
>
    decreases depth, 16 - from,
{
    if from >= 16 || depth == 0 {
        Seq::empty()
    } else {
        (match bits::slot(node.external, node.children@, from) {
            Some(child) => tree_entries(child, (depth - 1) as nat, path + bits::nibble_bits(from)),
            None => Seq::empty(),
        }) + child_entries(node, depth, path, from + 1)
    }
}

/// All entries of a tree: those of the root node before those below its children.
pub open spec fn tree_entries<V>(node: TbNode<V>, depth: nat, path: Seq<bool>) -> Seq<
    (Seq<bool>, V),
>
    decreases depth, 17int,
{
    own_entries(node, path, 1) + child_entries(node, depth, path, 0)
}

/// Clear positions contribute nothing.
pub proof fn lemma_own_entries_skip<V>(node: TbNode<V>, path: Seq<bool>, from: int, to: int)
    requires
        from <= to <= 16,
        forall|i: int| from <= i < to ==> !#[trigger] bits::has_bit(node.internal, i),
    ensures
        own_entries(node, path, from) == own_entries(node, path, to),
    decreases to - from,
{
    if from < to {
        lemma_own_entries_skip(node, path, from + 1, to);
        assert(!bits::has_bit(node.internal, from));
        assert(own_entries(node, path, from) =~= own_entries(node, path, from + 1));
    }
}

/// Missing children contribute nothing.
pub proof fn lemma_child_entries_skip<V>(
    node: TbNode<V>,
    depth: nat,
    path: Seq<bool>,
    from: int,
    to: int,
)
    requires
        from <= to <= 16,
        forall|i: int| from <= i < to ==> !#[trigger] bits::has_bit(node.external, i),
    ensures
        child_entries(node, depth, path, from) == child_entries(node, depth, path, to),
    decreases to - from,
{
    if from < to {
        lemma_child_entries_skip(node, depth, path, from + 1, to);
        assert(!bits::has_bit(node.external, from));
        assert(child_entries(node, depth, path, from) =~= child_entries(
            node,
            depth,
            path,
            from + 1,
        ));
    }
}

/// How many steps a walk takes below a node's children from nibble `from` on: one to enter
/// each child and one to leave it.
pub open spec fn child_steps<V>(node: TbNode<V>, depth: nat, from: int) -> nat
    decreases depth, 16 - from,
{
    if from >= 16 || depth == 0 {
        0
    } else {
        (match bits::slot(node.external, node.children@, from) {
            Some(child) => 2 + child_steps(child, (depth - 1) as nat, 0),
            None => 0,
        }) + child_steps(node, depth, from + 1)
    }
}

/// Missing children take no steps.
pub proof fn lemma_child_steps_skip<V>(node: TbNode<V>, depth: nat, from: int, to: int)
    requires
        from <= to <= 16,
        forall|i: int| from <= i < to ==> !#[trigger] bits::has_bit(node.external, i),
    ensures
        child_steps(node, depth, from) == child_steps(node, depth, to),
    decreases to - from,
{
    if from < to {
        lemma_child_steps_skip(node, depth, from + 1, to);
        assert(!bits::has_bit(node.external, from));
    }
}

/// Where a node keeps a key: at one of its own positions, or, behind these, below the child
/// for the key's first nibble.
spec fn place(key: Seq<bool>) -> int {
    if key.len() < 4 {
        bits::heap_index(key)
    } else {
        16 + bits::nibble_value(key.take(4))
    }
}

/// Keys at an earlier place come earlier.
proof fn lemma_place_order(a: Seq<bool>, b: Seq<bool>)
    ensures
        1 <= place(a) < 32,
        a.len() < 4 <==> place(a) < 16,
        place(a) < place(b) ==> model::precedes(a, b),
{
    if a.len() < 4 {
        bits::lemma_heap_index_range(a);
    } else {
        bits::lemma_nibble_value(a.take(4));
    }
    if b.len() < 4 {
        bits::lemma_heap_index_range(b);
    } else {
        bits::lemma_nibble_value(b.take(4));
    }
}

/// `list` holds the entries of a tree that its root keeps at the places from `lo` up to, but
/// not at, `hi`: each once, in order, with `path` put in front of its key.
spec fn lists<V>(
    list: Seq<(Seq<bool>, V)>,
    node: TbNode<V>,
    path: Seq<bool>,
    lo: int,
    hi: int,
) -> bool {
    &&& forall|i: int| 0 <= i < list.len() ==> #[trigger] lists_entry(list[i], node, path, lo, hi)
    &&& forall|i: int, j: int|
        0 <= i < j < list.len() ==> model::precedes(
            (#[trigger] list[i]).0.skip(path.len() as int),
            (#[trigger] list[j]).0.skip(path.len() as int),
        )
    &&& forall|key: Seq<bool>|
        lo <= place(key) < hi && (#[trigger] node.find(key)) is Some ==> exists|i: int|
            0 <= i < list.len() && (#[trigger] list[i]).0 == path + key
}

spec fn lists_entry<V>(
    entry: (Seq<bool>, V),
    node: TbNode<V>,
    path: Seq<bool>,
    lo: int,
    hi: int,
) -> bool {
    let key = entry.0.skip(path.len() as int);
    &&& entry.0 == path + key
    &&& lo <= place(key) < hi
    &&& node.find(key) == Some(entry.1)
}

/// Lists of adjacent places join.
proof fn lemma_lists_join<V>(
    first: Seq<(Seq<bool>, V)>,
    second: Seq<(Seq<bool>, V)>,
    node: TbNode<V>,
    path: Seq<bool>,
    lo: int,
    mid: int,
    hi: int,
)
    requires
        lo <= mid <= hi,
        lists(first, node, path, lo, mid),
        lists(second, node, path, mid, hi),
    ensures
        lists(first + second, node, path, lo, hi),
{
    let list = first + second;
    let n = first.len() as int;
    assert forall|i: int| 0 <= i < list.len() implies #[trigger] lists_entry(
        list[i],
        node,
        path,
        lo,
        hi,
    ) by {
        if i < n {
            assert(lists_entry(first[i], node, path, lo, mid));
        } else {
            assert(lists_entry(second[i - n], node, path, mid, hi));
        }
    }
    assert forall|i: int, j: int| 0 <= i < j < list.len() implies model::precedes(
        (#[trigger] list[i]).0.skip(path.len() as int),
        (#[trigger] list[j]).0.skip(path.len() as int),
    ) by {
        if j < n {
            assert(list[i] == first[i] && list[j] == first[j]);
        } else if i >= n {
            assert(list[i] == second[i - n] && list[j] == second[j - n]);
        } else {
            assert(lists_entry(first[i], node, path, lo, mid));
            assert(lists_entry(second[j - n], node, path, mid, hi));
            lemma_place_order(
                list[i].0.skip(path.len() as int),
                list[j].0.skip(path.len() as int),
            );
        }
    }
    assert forall|key: Seq<bool>|
        lo <= place(key) < hi && (#[trigger] node.find(key)) is Some implies exists|i: int|
        0 <= i < list.len() && (#[trigger] list[i]).0 == path + key by {
        if place(key) < mid {
            let i = choose|i: int| 0 <= i < first.len() && (#[trigger] first[i]).0 == path + key;
            assert(list[i].0 == path + key);
        } else {
            let i = choose|i: int| 0 <= i < second.len() && (#[trigger] second[i]).0 == path + key;
            assert(list[n + i].0 == path + key);
        }
    }
}

/// The node's own entries are listed.
proof fn lemma_own_entries_list<V>(node: TbNode<V>, path: Seq<bool>, from: int)
    requires
        1 <= from <= 16,
    ensures
        lists(own_entries(node, path, from), node, path, from, 16),
    decreases 16 - from,
{
    if from < 16 {
        lemma_own_entries_list(node, path, from + 1);
        let key = bits::heap_path(from);
        let here = match bits::slot(node.internal, node.values@, from) {
            Some(value) => seq![(path + key, value)],
            None => Seq::empty(),
        };
        bits::lemma_heap_path_inverse(from);
        bits::lemma_heap_path_len(from);
        assert((path + key).skip(path.len() as int) =~= key);
        assert forall|other: Seq<bool>|
            place(other) == from && (#[trigger] node.find(other)) is Some implies exists|i: int|
            0 <= i < here.len() && (#[trigger] here[i]).0 == path + other by {
            lemma_place_order(other, other);
            bits::lemma_heap_index_inverse(other);
            assert(here[0].0 == path + other);
        }
        assert(lists(here, node, path, from, from + 1));
        lemma_lists_join(here, own_entries(node, path, from + 1), node, path, from, from + 1, 16);
    } else {
        assert(lists(own_entries(node, path, from), node, path, from, 16));
    }
}

/// The entries below the children are listed.
proof fn lemma_child_entries_list<V>(node: TbNode<V>, depth: nat, path: Seq<bool>, from: int)
    requires
        node.wf(depth),
        0 <= from <= 16,
    ensures
        lists(child_entries(node, depth, path, from), node, path, 16 + from, 32),
    decreases depth, 16 - from,
{
    bits::lemma_zero_bitmap(node.external);
    if from >= 16 || depth == 0 {
        assert forall|key: Seq<bool>| 16 + from <= place(key) < 32 implies (#[trigger] node.find(
            key,
        )) is None by {
            lemma_place_order(key, key);
        }
    } else {
        lemma_child_entries_list(node, depth, path, from + 1);
        let group = bits::nibble_bits(from);
        bits::lemma_nibble_bits(from);
        let here = match bits::slot(node.external, node.children@, from) {
            Some(child) => tree_entries(child, (depth - 1) as nat, path + group),
            None => Seq::empty(),
        };
        if bits::has_bit(node.external, from) {
            bits::lemma_slot_in_bounds(node.external, from);
            let child = bits::slot(node.external, node.children@, from)->Some_0;
            lemma_tree_entries_list(child, (depth - 1) as nat, path + group);
            lemma_lists_below(here, node, child, path, from);
        } else {
            assert forall|key: Seq<bool>| place(key) == 16 + from implies (#[trigger] node.find(
                key,
            )) is None by {
                lemma_place_order(key, key);
            }
            assert(lists(here, node, path, 16 + from, 16 + from + 1));
        }
        lemma_lists_join(
            here,
            child_entries(node, depth, path, from + 1),
            node,
            path,
            16 + from,
            16 + from + 1,
            32,
        );
    }
}

/// What lists a child lists one place of its parent.
proof fn lemma_lists_below<V>(
    list: Seq<(Seq<bool>, V)>,
    node: TbNode<V>,
    child: TbNode<V>,
    path: Seq<bool>,
    nib: int,
)
    requires
        0 <= nib < 16,
        bits::slot(node.external, node.children@, nib) == Some(child),
        lists(list, child, path + bits::nibble_bits(nib), 1, 32),
    ensures
        lists(list, node, path, 16 + nib, 16 + nib + 1),
{
    let group = bits::nibble_bits(nib);
    let n = path.len() as int;
    bits::lemma_nibble_bits(nib);
    assert forall|i: int| 0 <= i < list.len() implies {
        let key = (#[trigger] list[i]).0.skip(n);
        &&& lists_entry(list[i], node, path, 16 + nib, 16 + nib + 1)
        &&& key.len() >= 4
        &&& key.take(4) == group
        &&& key.skip(4) == list[i].0.skip((path + group).len() as int)
    } by {
        assert(lists_entry(list[i], child, path + group, 1, 32));
        let rest = list[i].0.skip((path + group).len() as int);
        let key = list[i].0.skip(n);
        assert(list[i].0 == (path + group) + rest);
        assert(key =~= group + rest);
        assert(list[i].0 =~= path + key);
        assert(key.take(4) =~= group);
        assert(key.skip(4) =~= rest);
    }
    assert forall|i: int| 0 <= i < list.len() implies #[trigger] lists_entry(
        list[i],
        node,
        path,
        16 + nib,
        16 + nib + 1,
    ) by {
        assert(list[i].0.skip(n).len() >= 4);
    }
    assert forall|i: int, j: int| 0 <= i < j < list.len() implies model::precedes(
        (#[trigger] list[i]).0.skip(n),
        (#[trigger] list[j]).0.skip(n),
    ) by {
        assert(model::precedes(
            list[i].0.skip((path + group).len() as int),
            list[j].0.skip((path + group).len() as int),
        ));
    }
    assert forall|key: Seq<bool>|
        place(key) == 16 + nib && (#[trigger] node.find(key)) is Some implies exists|i: int|
        0 <= i < list.len() && (#[trigger] list[i]).0 == path + key by {
        lemma_place_order(key, key);
        bits::lemma_nibble_value(key.take(4));
        let rest = key.skip(4);
        assert(child.find(rest) is Some);
        lemma_place_order(rest, rest);
        let i = choose|i: int|
            0 <= i < list.len() && (#[trigger] list[i]).0 == (path + group) + rest;
        assert((path + group) + rest =~= path + key);
        assert(list[i].0 == path + key);
    }
}

/// All entries of a tree are listed.
proof fn lemma_tree_entries_list<V>(node: TbNode<V>, depth: nat, path: Seq<bool>)
    requires
        node.wf(depth),
    ensures
        lists(tree_entries(node, depth, path), node, path, 1, 32),
    decreases depth, 17int,
{
    lemma_own_entries_list(node, path, 1);
    lemma_child_entries_list(node, depth, path, 0);
    lemma_lists_join(
        own_entries(node, path, 1),
        child_entries(node, depth, path, 0),
        node,
        path,
        1,
        16,
        32,
    );
}

/// The depth-first entries of a tree are a listing of the map that the tree stands for.
pub proof fn lemma_tree_listing<V>(node: TbNode<V>, depth: nat)
    requires
        node.wf(depth),
    ensures
        model::is_listing(tree_entries(node, depth, Seq::<bool>::empty()), node@),
{
    let empty = Seq::<bool>::empty();
    let list = tree_entries(node, depth, empty);
    lemma_tree_entries_list(node, depth, empty);
    assert forall|i: int| 0 <= i < list.len() implies (#[trigger] list[i]).0.skip(0) == list[i].0
        && node.find(list[i].0) == Some(list[i].1) by {
        assert(lists_entry(list[i], node, empty, 1, 32));
        assert(list[i].0.skip(0) =~= list[i].0);
    }
    assert forall|key: Seq<bool>| #[trigger] node@.contains_key(key) implies exists|i: int|
        0 <= i < list.len() && (#[trigger] list[i]).0 == key by {
        lemma_place_order(key, key);
        assert(node.find(key) is Some);
        let i = choose|i: int| 0 <= i < list.len() && (#[trigger] list[i]).0 == empty + key;
        assert(empty + key =~= key);
        assert(list[i].0 == key);
    }
}

} // verus!
