//! A map from page ids to pages, kept in the order of the ids.

use vstd::prelude::*;

use crate::storage::page::{Page, PageId};

verus! {

/// Pages by id. Walking the map goes through the pages in file order.
#[derive(Debug)]
pub struct PageMap {
    entries: Vec<(PageId, Page)>,
}

/// Whether the ids in a list strictly increase.
pub open spec fn ascending(list: Seq<(PageId, Seq<u8>)>) -> bool {
    forall|i: int, j: int| 0 <= i < j < list.len() ==> (#[trigger] list[i]).0.0 < (#[trigger]
    list[j]).0.0
}

/// Whether `list` holds `id`.
pub open spec fn has_id(list: Seq<(PageId, Seq<u8>)>, id: PageId) -> bool {
    exists|i: int| 0 <= i < list.len() && (#[trigger] list[i]).0 == id
}

/// The map that a list with distinct ids stands for.
pub open spec fn map_of(list: Seq<(PageId, Seq<u8>)>) -> Map<PageId, Seq<u8>> {
    Map::new(
        |id: PageId| has_id(list, id),
        |id: PageId| list[choose|i: int| 0 <= i < list.len() && (#[trigger] list[i]).0 == id].1,
    )
}

/// Whether `list` is the map's entries in the order of their ids.
pub open spec fn lists(list: Seq<(PageId, Seq<u8>)>, map: Map<PageId, Seq<u8>>) -> bool {
    ascending(list) && map_of(list) == map
}

/// The entries of a finite map in the order of their ids.
pub open spec fn listed(map: Map<PageId, Seq<u8>>) -> Seq<(PageId, Seq<u8>)> {
    choose|list: Seq<(PageId, Seq<u8>)>| lists(list, map)
}

/// In an ascending list, an entry is what its map holds under its id.
pub proof fn lemma_entry_in_map(list: Seq<(PageId, Seq<u8>)>, i: int)
    requires
        ascending(list),
        0 <= i < list.len(),
    ensures
        map_of(list).contains_key(list[i].0),
        map_of(list)[list[i].0] == list[i].1,
{
    let id = list[i].0;
    assert(has_id(list, id));
    let j = choose|j: int| 0 <= j < list.len() && (#[trigger] list[j]).0 == id;
    if i < j {
        assert(list[i].0.0 < list[j].0.0);
    } else if j < i {
        assert(list[j].0.0 < list[i].0.0);
    }
}

/// A map has only one ascending list of its entries.
pub proof fn lemma_list_unique(a: Seq<(PageId, Seq<u8>)>, b: Seq<(PageId, Seq<u8>)>)
    requires
        ascending(a),
        ascending(b),
        map_of(a) == map_of(b),
    ensures
        a == b,
    decreases a.len(),
{
    assert forall|i: int| 0 <= i < a.len() implies has_id(b, (#[trigger] a[i]).0) by {
        lemma_entry_in_map(a, i);
    }
    assert forall|i: int| 0 <= i < b.len() implies has_id(a, (#[trigger] b[i]).0) by {
        lemma_entry_in_map(b, i);
    }
    if a.len() == 0 {
        if b.len() > 0 {
            assert(has_id(a, b[0].0));
        }
        assert(a =~= b);
    } else if b.len() == 0 {
        assert(has_id(b, a[0].0));
    } else {
        // The last entries have the greatest id of all.
        let x = a.last().0;
        let y = b.last().0;
        assert(has_id(b, x) && has_id(a, y));
        assert(x.0 <= y.0) by {
            let j = choose|j: int| 0 <= j < b.len() && (#[trigger] b[j]).0 == x;
            if j < b.len() - 1 {
                assert(b[j].0.0 < b[b.len() - 1].0.0);
            }
        }
        assert(y.0 <= x.0) by {
            let j = choose|j: int| 0 <= j < a.len() && (#[trigger] a[j]).0 == y;
            if j < a.len() - 1 {
                assert(a[j].0.0 < a[a.len() - 1].0.0);
            }
        }
        lemma_entry_in_map(a, a.len() - 1);
        lemma_entry_in_map(b, b.len() - 1);
        lemma_drop_last(a);
        lemma_drop_last(b);
        lemma_list_unique(a.drop_last(), b.drop_last());
        assert(a =~= a.drop_last().push(a.last()));
        assert(b =~= b.drop_last().push(b.last()));
    }
}

/// Without its last entry, an ascending list stands for the map without that
/// entry.
pub proof fn lemma_drop_last(list: Seq<(PageId, Seq<u8>)>)
    requires
        ascending(list),
        list.len() > 0,
    ensures
        ascending(list.drop_last()),
        map_of(list.drop_last()) == map_of(list).remove(list.last().0),
        map_of(list) == map_of(list.drop_last()).insert(list.last().0, list.last().1),
        !map_of(list.drop_last()).contains_key(list.last().0),
{
    let front = list.drop_last();
    let last = list.last().0;
    assert(ascending(front)) by {
        assert forall|i: int, j: int| 0 <= i < j < front.len() implies (#[trigger] front[i]).0.0 < (
        #[trigger] front[j]).0.0 by {
            assert(list[i].0.0 < list[j].0.0);
        }
    }
    assert forall|id: PageId| has_id(front, id) == (has_id(list, id) && id != last) by {
        if has_id(front, id) {
            let i = choose|i: int| 0 <= i < front.len() && (#[trigger] front[i]).0 == id;
            assert(list[i].0 == id);
            assert(list[i].0.0 < list[list.len() - 1].0.0);
        }
        if has_id(list, id) && id != last {
            let i = choose|i: int| 0 <= i < list.len() && (#[trigger] list[i]).0 == id;
            assert(front[i].0 == id);
        }
    }
    assert forall|id: PageId| has_id(front, id) implies map_of(front)[id] == map_of(list)[id] by {
        let i = choose|i: int| 0 <= i < front.len() && (#[trigger] front[i]).0 == id;
        lemma_entry_in_map(front, i);
        lemma_entry_in_map(list, i);
    }
    lemma_entry_in_map(list, list.len() - 1);
    assert(map_of(front) =~= map_of(list).remove(last));
    assert(map_of(list) =~= map_of(front).insert(last, list.last().1));
}

/// A list has as many entries as its map.
pub proof fn lemma_list_len(list: Seq<(PageId, Seq<u8>)>)
    requires
        ascending(list),
    ensures
        map_of(list).dom().finite(),
        map_of(list).dom().len() == list.len(),
    decreases list.len(),
{
    if list.len() == 0 {
        assert forall|id: PageId| !has_id(list, id) by {}
        assert(map_of(list).dom() =~= Set::empty());
    } else {
        lemma_drop_last(list);
        lemma_list_len(list.drop_last());
        assert(map_of(list).dom() =~= map_of(list.drop_last()).dom().insert(list.last().0));
    }
}

/// Replacing the page of an entry replaces it in the map.
pub proof fn lemma_replaced(list: Seq<(PageId, Seq<u8>)>, at: int, page: Seq<u8>)
    requires
        ascending(list),
        0 <= at < list.len(),
    ensures
        ascending(list.update(at, (list[at].0, page))),
        map_of(list.update(at, (list[at].0, page))) == map_of(list).insert(list[at].0, page),
{
    let id = list[at].0;
    let new = list.update(at, (id, page));
    assert(ascending(new)) by {
        assert forall|i: int, j: int| 0 <= i < j < new.len() implies (#[trigger] new[i]).0.0 < (
        #[trigger] new[j]).0.0 by {
            assert(list[i].0.0 < list[j].0.0);
        }
    }
    lemma_entry_in_map(list, at);
    lemma_entry_in_map(new, at);
    assert forall|other: PageId| has_id(new, other) == has_id(list, other) && (has_id(list, other)
        && other != id ==> map_of(new)[other] == map_of(list)[other]) by {
        if has_id(new, other) {
            let i = choose|i: int| 0 <= i < new.len() && (#[trigger] new[i]).0 == other;
            assert(list[i].0 == other);
        }
        if has_id(list, other) {
            let i = choose|i: int| 0 <= i < list.len() && (#[trigger] list[i]).0 == other;
            assert(new[i].0 == other);
            lemma_entry_in_map(list, i);
            lemma_entry_in_map(new, i);
        }
    }
    assert(map_of(new) =~= map_of(list).insert(id, page));
}

/// Putting an entry where its id belongs adds it to the map.
pub proof fn lemma_inserted(list: Seq<(PageId, Seq<u8>)>, at: int, id: PageId, page: Seq<u8>)
    requires
        ascending(list),
        0 <= at <= list.len(),
        forall|i: int| 0 <= i < at ==> (#[trigger] list[i]).0.0 < id.0,
        forall|i: int| at <= i < list.len() ==> (#[trigger] list[i]).0.0 > id.0,
    ensures
        ascending(list.insert(at, (id, page))),
        map_of(list.insert(at, (id, page))) == map_of(list).insert(id, page),
{
    let new = list.insert(at, (id, page));
    assert(forall|i: int| 0 <= i < at ==> new[i] == list[i]);
    assert(forall|i: int| at < i < new.len() ==> new[i] == list[i - 1]);
    assert(new[at] == (id, page));
    assert(ascending(new)) by {
        assert forall|i: int, j: int| 0 <= i < j < new.len() implies (#[trigger] new[i]).0.0 < (
        #[trigger] new[j]).0.0 by {
            let x = if i < at {
                list[i]
            } else {
                list[i - 1]
            };
            let y = if j < at {
                list[j]
            } else {
                list[j - 1]
            };
            assert(i != at ==> new[i] == x);
            assert(j != at ==> new[j] == y);
        }
    }
    lemma_entry_in_map(new, at);
    assert forall|other: PageId| has_id(new, other) == (has_id(list, other) || other == id) && (
    has_id(list, other) && other != id ==> map_of(new)[other] == map_of(list)[other]) by {
        if has_id(new, other) && other != id {
            let i = choose|i: int| 0 <= i < new.len() && (#[trigger] new[i]).0 == other;
            let k = if i < at {
                i
            } else {
                i - 1
            };
            assert(list[k].0 == other);
        }
        if has_id(list, other) {
            let i = choose|i: int| 0 <= i < list.len() && (#[trigger] list[i]).0 == other;
            let k = if i < at {
                i
            } else {
                i + 1
            };
            assert(new[k].0 == other);
            lemma_entry_in_map(list, i);
            lemma_entry_in_map(new, k);
        }
    }
    assert(map_of(new) =~= map_of(list).insert(id, page));
}

/// Every finite map has an ascending list of its entries.
pub proof fn lemma_listed(map: Map<PageId, Seq<u8>>)
    requires
        map.dom().finite(),
    ensures
        lists(listed(map), map),
    decreases map.dom().len(),
{
    if map.dom().len() == 0 {
        let list = Seq::<(PageId, Seq<u8>)>::empty();
        assert forall|id: PageId| !has_id(list, id) by {}
        assert(map_of(list) =~= map);
        assert(lists(list, map));
    } else {
        let id = map.dom().choose();
        let smaller = map.remove(id);
        lemma_listed(smaller);
        let list = listed(smaller);
        let at = lemma_place(list, id);
        assert(!has_id(list, id)) by {
            assert(!smaller.contains_key(id));
        }
        assert forall|i: int| at <= i < list.len() implies (#[trigger] list[i]).0.0 > id.0 by {
            assert(list[i].0 != id);
        }
        lemma_inserted(list, at, id, map[id]);
        assert(smaller.insert(id, map[id]) =~= map);
        assert(lists(list.insert(at, (id, map[id])), map));
    }
}

/// Where an id belongs in an ascending list.
proof fn lemma_place(list: Seq<(PageId, Seq<u8>)>, id: PageId) -> (at: int)
    requires
        ascending(list),
    ensures
        0 <= at <= list.len(),
        forall|i: int| 0 <= i < at ==> (#[trigger] list[i]).0.0 < id.0,
        forall|i: int| at <= i < list.len() ==> (#[trigger] list[i]).0.0 >= id.0,
    decreases list.len(),
{
    if list.len() == 0 {
        0
    } else if list.last().0.0 < id.0 {
        assert forall|i: int| 0 <= i < list.len() implies (#[trigger] list[i]).0.0 < id.0 by {
            if i < list.len() - 1 {
                assert(list[i].0.0 < list[list.len() - 1].0.0);
            }
        }
        list.len() as int
    } else {
        let front = list.drop_last();
        lemma_drop_last(list);
        let at = lemma_place(front, id);
        assert forall|i: int| 0 <= i < at implies (#[trigger] list[i]).0.0 < id.0 by {
            assert(front[i] == list[i]);
        }
        assert forall|i: int| at <= i < list.len() implies (#[trigger] list[i]).0.0 >= id.0 by {
            if i < front.len() {
                assert(front[i] == list[i]);
            }
        }
        at
    }
}

impl PageMap {
    /// The entries, with each page as its bytes.
    pub closed spec fn list(self) -> Seq<(PageId, Seq<u8>)> {
        Seq::new(self.entries@.len(), |i: int| (self.entries@[i].0, self.entries@[i].1@))
    }

    /// The entries are in order.
    pub closed spec fn wf(self) -> bool {
        ascending(self.list())
    }
}

impl View for PageMap {
    type V = Map<PageId, Seq<u8>>;

    open spec fn view(&self) -> Map<PageId, Seq<u8>> {
        map_of(self.list())
    }
}

impl PageMap {
    /// The entries of a well-formed map are its view's, in order.
    pub proof fn lemma_list(&self)
        requires
            self.wf(),
        ensures
            ascending(self.list()),
            self.list() == listed(self@),
    {
        assert(lists(self.list(), self@));
        lemma_list_unique(self.list(), listed(self@));
    }

    /// Returns an empty map.
    pub fn new() -> (map: Self)
        ensures
            map.wf(),
            map@ == Map::<PageId, Seq<u8>>::empty(),
    {
        let map = PageMap { entries: Vec::new() };
        assert forall|id: PageId| !has_id(map.list(), id) by {}
        assert(map@ =~= Map::<PageId, Seq<u8>>::empty());
        map
    }

    /// Number of pages in the map.
    pub fn len(&self) -> (len: usize)
        ensures
            len == self.list().len(),
    {
        self.entries.len()
    }

    /// The entry at position `i` in the order of the ids.
    pub fn entry(&self, i: usize) -> (entry: (PageId, &Page))
        requires
            i < self.list().len(),
        ensures
            (entry.0, entry.1@) == self.list()[i as int],
    {
        (self.entries[i].0, &self.entries[i].1)
    }

    /// The position of `id`, or where it would go.
    fn position(&self, id: PageId) -> (found: (usize, bool))
        requires
            self.wf(),
        ensures
            found.0 <= self.list().len(),
            forall|i: int| 0 <= i < found.0 ==> (#[trigger] self.list()[i]).0.0 < id.0,
            forall|i: int|
                found.0 <= i < self.list().len() ==> (#[trigger] self.list()[i]).0.0 >= id.0,
            found.1 <==> has_id(self.list(), id),
            found.1 ==> found.0 < self.list().len() && self.list()[found.0 as int].0 == id,
    {
        let ghost list = self.list();
        let mut low: usize = 0;
        let mut high: usize = self.entries.len();
        while low < high
            invariant
                list == self.list(),
                ascending(list),
                low <= high <= self.entries.len() == list.len(),
                forall|i: int| 0 <= i < low ==> (#[trigger] list[i]).0.0 < id.0,
                forall|i: int| high <= i < list.len() ==> (#[trigger] list[i]).0.0 >= id.0,
            decreases high - low,
        {
            let mid: usize = low + (high - low) / 2;
            let ghost at_mid = list[mid as int];
            if self.entries[mid].0.0 < id.0 {
                low = mid + 1;
            } else {
                high = mid;
            }
        }
        let present: bool = low < self.entries.len() && self.entries[low].0.0 == id.0;
        proof {
            if low < list.len() {
                let at_low = list[low as int];
                if at_low.0.0 != id.0 {
                    assert forall|i: int| 0 <= i < list.len() implies (#[trigger] list[i]).0
                        != id by {
                        if i > low {
                            assert(at_low.0.0 < list[i].0.0);
                        }
                    }
                }
            }
        }
        (low, present)
    }

    /// The page under `id`.
    pub fn get(&self, id: PageId) -> (page: Option<&Page>)
        requires
            self.wf(),
        ensures
            match page {
                Some(page) => self@.contains_key(id) && page@ == self@[id],
                None => !self@.contains_key(id),
            },
    {
        let (at, present) = self.position(id);
        if present {
            proof {
                lemma_entry_in_map(self.list(), at as int);
            }
            Some(&self.entries[at].1)
        } else {
            None
        }
    }

    /// The page under `id`, writable.
    pub fn get_mut(&mut self, id: PageId) -> (page: Option<&mut Page>)
        requires
            old(self).wf(),
        ensures
            final(self).wf(),
            match page {
                Some(page) => {
                    &&& old(self)@.contains_key(id)
                    &&& page@ == old(self)@[id]
                    &&& final(self)@ == old(self)@.insert(id, final(page)@)
                },
                None => !old(self)@.contains_key(id) && final(self)@ == old(self)@,
            },
    {
        let (at, present) = self.position(id);
        if present {
            let ghost before = self.list();
            proof {
                lemma_entry_in_map(before, at as int);
            }
            let page = &mut self.entries[at].1;
            proof {
                lemma_replaced(before, at as int, final(page)@);
                assert(after_borrow(*self).list() =~= before.update(at as int, (id, final(page)@)));
            }
            Some(page)
        } else {
            None
        }
    }

    /// The page at position `i` in the order of the ids, writable.
    pub fn entry_mut(&mut self, i: usize) -> (page: &mut Page)
        requires
            old(self).wf(),
            i < old(self).list().len(),
        ensures
            final(self).wf(),
            page@ == old(self).list()[i as int].1,
            final(self).list() == old(self).list().update(
                i as int,
                (old(self).list()[i as int].0, final(page)@),
            ),
    {
        let ghost before = self.list();
        let page = &mut self.entries[i].1;
        proof {
            lemma_replaced(before, i as int, final(page)@);
            assert(after_borrow(*self).list() =~= before.update(
                i as int,
                (before[i as int].0, final(page)@),
            ));
        }
        page
    }

    /// Puts `page` under `id`, replacing what was there.
    pub fn insert(&mut self, id: PageId, page: Page)
        requires
            old(self).wf(),
        ensures
            final(self).wf(),
            final(self)@ == old(self)@.insert(id, page@),
    {
        let (at, present) = self.position(id);
        let ghost before = self.list();
        if present {
            proof {
                lemma_replaced(before, at as int, page@);
            }
            let slot = &mut self.entries[at].1;
            *slot = page;
            assert(self.list() =~= before.update(at as int, (id, page@)));
        } else {
            proof {
                assert forall|i: int| at <= i < before.len() implies (#[trigger] before[i]).0.0
                    > id.0 by {
                    assert(before[i].0 != id);
                }
                lemma_inserted(before, at as int, id, page@);
            }
            self.entries.insert(at, (id, page));
            assert(self.list() =~= before.insert(at as int, (id, page@)));
        }
    }

    /// Takes the map apart, the page with the greatest id first, so that
    /// popping goes through the pages in file order.
    pub fn into_reversed(self) -> (pages: Vec<(PageId, Page)>)
        ensures
            page_list(pages@) == self.list().reverse(),
    {
        let mut entries = self.entries;
        let ghost all = entries@;
        let mut pages: Vec<(PageId, Page)> = Vec::with_capacity(entries.len());
        while entries.len() > 0
            invariant
                entries@ == all.take(entries@.len() as int),
                entries@.len() <= all.len(),
                pages@.len() == all.len() - entries@.len(),
                forall|i: int| 0 <= i < pages@.len() ==> pages@[i] == all[all.len() - 1 - i],
            decreases entries@.len(),
        {
            let ghost before = entries@;
            if let Some(entry) = entries.pop() {
                pages.push(entry);
                assert(entries@ =~= all.take(entries@.len() as int));
            }
        }
        assert(page_list(pages@) =~= self.list().reverse());
        pages
    }
}

/// A list of pages, with each page as its bytes.
pub open spec fn page_list(pages: Seq<(PageId, Page)>) -> Seq<(PageId, Seq<u8>)> {
    Seq::new(pages.len(), |i: int| (pages[i].0, pages[i].1@))
}

} // verus!
