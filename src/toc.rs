use vstd::prelude::*;
use crate::data::{List, ListItem};

verus! {

/// `new` is the list `(ordered, items)` with `item` appended `depth` levels down, each
/// level through its last item. Where a level has no item yet, an item with no text and
/// an empty ordered list is put there first.
pub open spec fn inserted(ordered: bool, items: Seq<ListItem>, new: List, depth: nat, item: ListItem) -> bool
    decreases depth,
{
    if depth == 0 {
        new.ordered == ordered && new.items@ == items.push(item)
    } else {
        &&& new.ordered == ordered
        &&& new.items@.len() == (if items.len() == 0 { 1 } else { items.len() })
        &&& items.len() > 0 ==> new.items@.drop_last() == items.drop_last()
        &&& items.len() > 0 ==> new.items@.last().spans == items.last().spans
        &&& items.len() > 0 ==> inserted(
            items.last().list.ordered,
            items.last().list.items@,
            new.items@.last().list,
            (depth - 1) as nat,
            item,
        )
        &&& items.len() == 0 ==> new.items@.last().spans@.len() == 0
        &&& items.len() == 0 ==> inserted(
            true,
            Seq::empty(),
            new.items@.last().list,
            (depth - 1) as nat,
            item,
        )
    }
}

/// The item reached by going `depth` levels down through last items, then taking the
/// last item there.
pub open spec fn last_at_depth(list: List, depth: nat) -> Option<ListItem>
    decreases depth,
{
    if list.items@.len() == 0 {
        None
    } else if depth == 0 {
        Some(list.items@.last())
    } else {
        last_at_depth(list.items@.last().list, (depth - 1) as nat)
    }
}

/// Appends `item` to `list`, `depth` levels down through last items.
pub fn toc_push(list: &mut List, depth: u32, item: ListItem)
    ensures
        inserted(old(list).ordered, old(list).items@, *final(list), depth as nat, item),
    decreases depth,
{
    if depth == 0 {
        list.items.push(item);
        return;
    }
    let mut last = match list.items.pop() {
        Some(it) => it,
        None => ListItem { spans: Vec::new(), list: List::empty(true) },
    };
    let ghost before = last;
    proof {
        if old(list).items@.len() == 0 {
            assert(before.list.items@ =~= Seq::<ListItem>::empty());
        } else {
            assert(before == old(list).items@.last());
        }
    }
    toc_push(&mut last.list, depth - 1, item);
    list.items.push(last);
    proof {
        assert(list.items@.last() == last);
        if old(list).items@.len() > 0 {
            assert(list.items@.drop_last() =~= old(list).items@.drop_last());
        }
    }
}

/// An entry put `depth` levels down stands exactly `depth` levels below the root: the
/// last item reached through `depth` levels of last items is that entry.
pub proof fn lemma_inserted_depth(ordered: bool, items: Seq<ListItem>, new: List, depth: nat, item: ListItem)
    requires
        inserted(ordered, items, new, depth, item),
    ensures
        last_at_depth(new, depth) == Some(item),
    decreases depth,
{
    if depth > 0 {
        if items.len() > 0 {
            lemma_inserted_depth(
                items.last().list.ordered,
                items.last().list.items@,
                new.items@.last().list,
                (depth - 1) as nat,
                item,
            );
        } else {
            lemma_inserted_depth(true, Seq::empty(), new.items@.last().list, (depth - 1) as nat, item);
        }
    }
}

/// The item reached through `path`: `path[0]` indexes `items`, each further index the
/// items of the list below the item reached so far.
pub open spec fn item_in(items: Seq<ListItem>, path: Seq<int>) -> Option<ListItem>
    decreases path.len(),
{
    if path.len() == 0 || !(0 <= path[0] < items.len()) {
        None
    } else if path.len() == 1 {
        Some(items[path[0]])
    } else {
        item_in(items[path[0]].list.items@, path.drop_first())
    }
}

/// Appending an entry keeps every item reached before on the same path, with the same
/// text.
pub proof fn lemma_inserted_keeps(ordered: bool, items: Seq<ListItem>, new: List, depth: nat, item: ListItem, path: Seq<int>)
    requires
        inserted(ordered, items, new, depth, item),
        item_in(items, path) is Some,
    ensures
        item_in(new.items@, path) is Some,
        item_in(new.items@, path)->0.spans == item_in(items, path)->0.spans,
    decreases path.len(),
{
    let i = path[0];
    if depth == 0 {
        assert(new.items@[i] == items[i]);
    } else {
        if i < items.len() - 1 {
            assert(new.items@[i] == new.items@.drop_last()[i]);
            assert(items[i] == items.drop_last()[i]);
        } else if path.len() > 1 {
            lemma_inserted_keeps(
                items.last().list.ordered,
                items.last().list.items@,
                new.items@.last().list,
                (depth - 1) as nat,
                item,
                path.drop_first(),
            );
        }
    }
}

/// An appended entry is reached through a path of `depth + 1` indices.
pub proof fn lemma_inserted_path(ordered: bool, items: Seq<ListItem>, new: List, depth: nat, item: ListItem)
    requires
        inserted(ordered, items, new, depth, item),
    ensures
        exists|path: Seq<int>| path.len() == depth + 1 && #[trigger] item_in(new.items@, path) == Some(item),
    decreases depth,
{
    let last = new.items@.len() - 1;
    if depth == 0 {
        let path = seq![last];
        assert(item_in(new.items@, path) == Some(item));
    } else {
        let (o2, i2) = if items.len() > 0 {
            (items.last().list.ordered, items.last().list.items@)
        } else {
            (true, Seq::<ListItem>::empty())
        };
        lemma_inserted_path(o2, i2, new.items@.last().list, (depth - 1) as nat, item);
        let sub = choose|p: Seq<int>| p.len() == depth && #[trigger] item_in(new.items@.last().list.items@, p) == Some(item);
        let path = seq![last] + sub;
        assert(path.drop_first() =~= sub);
        assert(item_in(new.items@, path) == Some(item));
    }
}

} // verus!
