//! Where an item goes among those that did not know of it.

use crate::list::{Order, ROOT_ORDER};
use crate::list::external_txn::{RemoteId, RemoteOp};
use crate::list::laws::new_orders;
use crate::list::model::{is_before_item, place_after, place_before, DocState};
use crate::list::names::name_behind;
use crate::list::span::YjsSpan;
use crate::list::text::{
    items_before, law_insert_keeps_order, lemma_text_around, lemma_text_len, orders, span_orders,
    spliced,
};
use crate::list::valid::{fresh, lemma_place_before, lemma_place_unique, lemma_row_inserted, row_ok};
use crate::range_tree::cursor::Place;
use crate::range_tree::homes::{distinct, has_item, holds};
use crate::range_tree::mutations::inserted;
use crate::range_tree::runs::{entries_ok, entry_ok, items_len};
use crate::rle::simple_rle::item_of_key;
use crate::splitable_span::MergableSpan;
use vstd::prelude::*;

verus! {

/// In a row of items, `x` is left of `y`. The root is left of all items.
pub open spec fn is_left_of(row: Seq<u32>, x: u32, y: u32) -> bool {
    &&& y != ROOT_ORDER
    &&& x == ROOT_ORDER || exists|i: int, j: int|
        0 <= i < j < row.len() && #[trigger] row[i] == x && #[trigger] row[j] == y
}

/// Further entries hold no fewer items.
pub proof fn lemma_take_mono(entries: Seq<YjsSpan>, g: int, h: int)
    requires
        entries_ok(entries),
        0 <= g < h <= entries.len(),
    ensures
        items_len(entries.take(g)) + entries[g].span_len() <= items_len(entries.take(h)),
        entries[g].span_len() > 0,
    decreases h - g,
{
    let upto = entries.take(h);
    assert(upto.drop_last() =~= entries.take(h - 1));
    assert(upto.last() == entries[h - 1]);
    assert(entry_ok(entries[g]));
    if g < h - 1 {
        lemma_take_mono(entries, g, h - 1);
    }
}

/// An item stands in the row where its place is.
pub proof fn lemma_row_index(entries: Seq<YjsSpan>, p: Place, x: int)
    requires
        entries_ok(entries),
        is_before_item(entries, p, x),
    ensures
        0 <= items_before(entries, p) < orders(entries).len(),
        orders(entries)[items_before(entries, p)] == x,
{
    assert(entry_ok(entries[p.entry]));
    lemma_text_around(entries, p.entry);
}

/// What stands in the row has its place there.
proof fn lemma_row_place(entries: Seq<YjsSpan>, i: int) -> (p: Place)
    requires
        entries_ok(entries),
        0 <= i < orders(entries).len(),
    ensures
        is_before_item(entries, p, orders(entries)[i] as int),
        items_before(entries, p) == i,
    decreases entries.len(),
{
    let n = entries.len() - 1;
    let head = entries.drop_last();
    assert(entry_ok(entries[n]));
    lemma_text_len(head);
    assert(entries.take(n) =~= head);
    if i < orders(head).len() {
        assert(entries_ok(head)) by {
            assert forall|j: int| 0 <= j < head.len() implies entry_ok(#[trigger] head[j]) by {
                assert(entry_ok(entries[j]));
            }
        }
        let p = lemma_row_place(head, i);
        assert(head[p.entry] == entries[p.entry]);
        assert(head.take(p.entry) =~= entries.take(p.entry));
        p
    } else {
        Place { entry: n, offset: i - orders(head).len() }
    }
}

/// An item stands in the row once.
pub proof fn lemma_row_once(entries: Seq<YjsSpan>, i: int, j: int)
    requires
        entries_ok(entries),
        distinct(entries),
        0 <= i < orders(entries).len(),
        0 <= j < orders(entries).len(),
        orders(entries)[i] == orders(entries)[j],
    ensures
        i == j,
{
    let p = lemma_row_place(entries, i);
    let q = lemma_row_place(entries, j);
    lemma_place_unique(entries, p, orders(entries)[i] as int);
    lemma_place_unique(entries, q, orders(entries)[i] as int);
}

/// The item right of a place is the one that stands there in the row.
pub proof fn lemma_place_item(entries: Seq<YjsSpan>, p: Place)
    requires
        entries_ok(entries),
        p.within(entries),
    ensures
        0 <= items_before(entries, p) <= orders(entries).len(),
        p.item(entries) == if items_before(entries, p) < orders(entries).len() {
            Some(orders(entries)[items_before(entries, p)])
        } else {
            None::<u32>
        },
{
    let n = entries.len() as int;
    lemma_text_len(entries);
    if n == 0 {
        assert(entries.take(0) =~= entries);
    } else {
        let g = p.entry;
        assert(entry_ok(entries[g]));
        assert(entries.take(n) =~= entries);
        lemma_take_mono(entries, g, n);
        if p.offset < entries[g].span_len() {
            lemma_row_index(entries, p, entries[g].order + p.offset);
        } else {
            assert(entries.take(g + 1).drop_last() =~= entries.take(g));
            if g + 1 < n {
                let q = Place { entry: g + 1, offset: 0 };
                assert(entry_ok(entries[g + 1]));
                lemma_row_index(entries, q, entries[g + 1].order as int);
            }
        }
    }
}

/// The root, or an item of the row.
pub open spec fn is_origin(entries: Seq<YjsSpan>, x: u32) -> bool {
    x == ROOT_ORDER || holds(entries, x)
}

/// Places behind items are in the order of the items.
#[verifier::rlimit(30)]
pub proof fn lemma_is_left_of(entries: Seq<YjsSpan>, x: u32, y: u32)
    requires
        entries_ok(entries),
        distinct(entries),
        is_origin(entries, x),
        is_origin(entries, y),
    ensures
        is_left_of(orders(entries), x, y) == place_after(entries, x as int).before(
            place_after(entries, y as int),
        ),
        x == y <==> place_after(entries, x as int) == place_after(entries, y as int),
{
    let row = orders(entries);
    let p = place_before(entries, x as int);
    let q = place_before(entries, y as int);
    if x != ROOT_ORDER {
        lemma_place_before(entries, x);
        lemma_row_index(entries, p, x as int);
    }
    if y != ROOT_ORDER {
        lemma_place_before(entries, y);
        lemma_row_index(entries, q, y as int);
    }
    if x != ROOT_ORDER && y != ROOT_ORDER {
        let a = items_before(entries, p);
        let b = items_before(entries, q);
        assert(row[a] == x && row[b] == y);
        if p.entry < q.entry {
            lemma_take_mono(entries, p.entry, q.entry);
        } else if q.entry < p.entry {
            lemma_take_mono(entries, q.entry, p.entry);
        }
        if is_left_of(row, x, y) {
            let (i, j) = choose|i: int, j: int|
                0 <= i < j < row.len() && #[trigger] row[i] == x && #[trigger] row[j] == y;
            lemma_row_once(entries, i, a);
            lemma_row_once(entries, j, b);
        }
    }
}

/// An item that was inserted behind `left` and before `right` by the peer `name`, and the
/// entries of a document that it meets from the entry `home` of the item `left` on, which is
/// the first entry for the root.
pub struct Search {
    pub doc: DocState,
    pub name: Seq<char>,
    pub left: u32,
    pub right: u32,
    pub home: int,
}

impl Search {
    pub open spec fn ok(self) -> bool {
        &&& if self.left == ROOT_ORDER {
            self.home == 0
        } else {
            &&& 0 <= self.home < self.doc.entries.len()
            &&& self.doc.entries[self.home].order <= self.left
            &&& self.left < self.doc.entries[self.home].order
                + self.doc.entries[self.home].span_len()
        }
    }

    /// The row of all items.
    pub open spec fn row(self) -> Seq<u32> {
        orders(self.doc.entries)
    }

    /// The entry is the one of the item that the new item was inserted behind.
    pub open spec fn is_home(self, g: int) -> bool {
        g == self.home && self.left != ROOT_ORDER
    }

    /// How many items of the row are left of the entry; of its home entry, up to the item
    /// that the new one was inserted behind.
    pub open spec fn before(self, g: int) -> int {
        items_len(self.doc.entries.take(g)) + if self.is_home(g) {
            self.left - self.doc.entries[g].order + 1
        } else {
            0
        }
    }

    /// What the items met there were inserted behind.
    pub open spec fn left_of_met(self, g: int) -> u32 {
        if self.is_home(g) {
            self.left
        } else {
            self.doc.entries[g].origin_left
        }
    }

    /// They were inserted behind the same item.
    pub open spec fn is_rival(self, g: int) -> bool {
        self.left_of_met(g) == self.left
    }

    /// They were inserted behind an item further right: behind one that came behind `left`.
    pub open spec fn is_descendant(self, g: int) -> bool {
        is_left_of(self.row(), self.left, self.left_of_met(g))
    }

    /// They were inserted behind an item further left.
    pub open spec fn is_outside(self, g: int) -> bool {
        is_left_of(self.row(), self.left_of_met(g), self.left)
    }

    /// The peer's name sorts behind that of the peer whose operation inserted the first item
    /// of the entry.
    pub open spec fn sorts_behind(self, g: int) -> bool {
        let loc = item_of_key(self.doc.client_with_order, self.doc.entries[g].order as int);
        name_behind(self.name, self.doc.clients[loc.agent as int].name)
    }

    /// The new item may not go past the entry: it was inserted before the first item there,
    /// or the entry belongs to something further left, or it is from a peer whose name the
    /// peer's does not sort behind, and was inserted between the same items.
    pub open spec fn is_barrier(self, g: int) -> bool {
        ||| self.before(g) >= self.row().len()
        ||| self.row()[self.before(g)] == self.right
        ||| self.is_outside(g)
        ||| self.is_rival(g) && !self.sorts_behind(g) && self.doc.entries[g].origin_right
            == self.right
    }

    /// The first barrier.
    pub open spec fn is_end(self, h: int) -> bool {
        &&& self.home <= h <= self.doc.entries.len()
        &&& forall|g: int| self.home <= g < h ==> !#[trigger] self.is_barrier(g)
        &&& h < self.doc.entries.len() ==> self.is_barrier(h)
    }

    /// The last rival before the barrier.
    pub open spec fn is_last_rival(self, b: int, h: int) -> bool {
        &&& self.home <= b < h
        &&& self.is_rival(b)
        &&& forall|g: int| b < g < h ==> !#[trigger] self.is_rival(g)
    }

    /// The place at an entry.
    spec fn stop(self, g: int) -> Place {
        if g == self.home {
            place_after(self.doc.entries, self.left as int)
        } else if g < self.doc.entries.len() {
            Place { entry: g, offset: 0 }
        } else {
            Place { entry: g - 1, offset: self.doc.entries[g - 1].span_len() as int }
        }
    }

    /// Where the search for a new item ends, once it has come to the entry `g`.
    spec fn found(self, g: int, mark: Place, marked: bool, h: int, p: Place) -> bool {
        &&& forall|b: int| g <= b && #[trigger] self.is_last_rival(b, h) ==> p == self.stop(
            if self.sorts_behind(b) {
                h
            } else {
                b
            },
        )
        &&& (forall|b: int| g <= b < h ==> !#[trigger] self.is_rival(b)) ==> p == if marked {
            mark
        } else {
            self.stop(h)
        }
    }

    /// The places at entries.
    #[verifier::rlimit(30)]
    proof fn lemma_stop(self, g: int)
        requires
            self.ok(),
            entries_ok(self.doc.entries),
            distinct(self.doc.entries),
            self.home <= g <= self.doc.entries.len(),
        ensures
            self.stop(g).within(self.doc.entries),
            items_before(self.doc.entries, self.stop(g)) == self.before(g),
            0 <= self.before(g) <= self.row().len(),
            g < self.doc.entries.len() ==> self.stop(g).entry == g,
            self.stop(g).item(self.doc.entries) == if self.before(g) < self.row().len() {
                Some(self.row()[self.before(g)])
            } else {
                None::<u32>
            },
            g < self.doc.entries.len() ==> self.doc.entries[g].spec_origin_left_at(
                self.stop(g).offset,
            ) == self.left_of_met(g),
            self.home < g ==> self.stop(g) == self.stop(g - 1).next_entry(self.doc.entries),
    {
        let entries = self.doc.entries;
        let n = entries.len() as int;
        lemma_text_len(entries);
        if self.left != ROOT_ORDER {
            let p = Place { entry: self.home, offset: self.left - entries[self.home].order };
            assert(entry_ok(entries[self.home]));
            assert(is_before_item(entries, p, self.left as int));
            lemma_place_unique(entries, p, self.left as int);
        }
        assert(entries.take(n) =~= entries);
        if n == 0 {
        } else if g == n {
            assert(entry_ok(entries[n - 1]));
            assert(entries.take(n).drop_last() =~= entries.take(n - 1));
        } else {
            let p = self.stop(g);
            assert(entry_ok(entries[g]));
            lemma_take_mono(entries, g, n);
            lemma_text_around(entries, g);
            if p.offset < entries[g].span_len() {
                lemma_row_index(entries, p, entries[g].order + p.offset);
            } else if g + 1 < n {
                let q = Place { entry: g + 1, offset: 0 };
                assert(entry_ok(entries[g + 1]));
                lemma_row_index(entries, q, entries[g + 1].order as int);
                assert(entries.take(g + 1).drop_last() =~= entries.take(g));
            } else {
                assert(entries.take(g + 1).drop_last() =~= entries.take(g));
            }
        }
    }

    /// How a search goes on from an entry.
    #[verifier::rlimit(30)]
    proof fn lemma_search(self, item: YjsSpan, g: int, mark: Place, marked: bool) -> (h: int)
        requires
            self.ok(),
            entries_ok(self.doc.entries),
            distinct(self.doc.entries),
            is_origin(self.doc.entries, self.left),
            forall|i: int|
                0 <= i < self.doc.entries.len() ==> is_origin(
                    self.doc.entries,
                    (#[trigger] self.doc.entries[i]).origin_left,
                ),
            item.origin_right == self.right,
            self.home <= g <= self.doc.entries.len(),
            forall|i: int| self.home <= i < g ==> !#[trigger] self.is_barrier(i),
        ensures
            g <= h,
            self.is_end(h),
            self.found(
                g,
                mark,
                marked,
                h,
                self.doc.scan(
                    self.name,
                    item,
                    place_after(self.doc.entries, self.left as int),
                    self.stop(g),
                    mark,
                    marked,
                ),
            ),
        decreases self.doc.entries.len() - g,
    {
        let doc = self.doc;
        let entries = doc.entries;
        let left = place_after(entries, self.left as int);
        let at = self.stop(g);
        let p = doc.scan(self.name, item, left, at, mark, marked);
        self.lemma_stop(g);
        if g == entries.len() {
            g
        } else {
            let entry = entries[g];
            assert(is_origin(entries, self.left_of_met(g)));
            lemma_is_left_of(entries, self.left, self.left_of_met(g));
            lemma_is_left_of(entries, self.left_of_met(g), self.left);
            if self.is_barrier(g) {
                g
            } else {
                self.lemma_stop(g + 1);
                let next = self.stop(g + 1);
                let rival = self.is_rival(g);
                let (m, on) = if rival && self.sorts_behind(g) {
                    (mark, false)
                } else if rival {
                    (at, true)
                } else {
                    (mark, marked)
                };
                assert(p == doc.scan(self.name, item, left, next, m, on));
                let h = self.lemma_search(item, g + 1, m, on);
                assert forall|b: int| g <= b && #[trigger] self.is_last_rival(b, h) implies p
                    == self.stop(
                    if self.sorts_behind(b) {
                        h
                    } else {
                        b
                    },
                ) by {
                    if b == g {
                        assert forall|c: int| g + 1 <= c < h implies !#[trigger] self.is_rival(
                            c,
                        ) by {}
                    }
                }
                if forall|b: int| g <= b < h ==> !#[trigger] self.is_rival(b) {
                    assert(!self.is_rival(g));
                }
                h
            }
        }
    }
}

/// A search for the place of an item.
pub open spec fn search_for(doc: DocState, agent: int, item: YjsSpan, home: int) -> Search {
    Search {
        doc,
        name: doc.clients[agent].name,
        left: item.origin_left,
        right: item.origin_right,
        home,
    }
}

/// Where an integrated item comes to stand: it goes past everything up to the first barrier,
/// and is then put there if the last rival that it has gone past is from a peer whose name
/// sorts first, and in front of that rival otherwise. No other item moves.
#[verifier::rlimit(30)]
pub proof fn law_integrated_place(
    doc: DocState,
    agent: int,
    item: YjsSpan,
    home: int,
    order: int,
) -> (kh: (int, int))
    requires
        row_ok(doc.entries, order),
        fresh(item, doc.entries, order),
        search_for(doc, agent, item, home).ok(),
    ensures
        ({
            let s = search_for(doc, agent, item, home);
            let left = place_after(doc.entries, item.origin_left as int);
            let (k, h) = kh;
            &&& 0 <= k <= s.row().len()
            &&& orders(doc.integrated(agent, item, left).entries) == spliced(
                s.row(),
                k,
                span_orders(item),
            )
            &&& s.is_end(h)
            &&& forall|b: int| #[trigger]
                s.is_last_rival(b, h) ==> k == s.before(
                    if s.sorts_behind(b) {
                        h
                    } else {
                        b
                    },
                )
            &&& (forall|b: int| home <= b < h ==> !#[trigger] s.is_rival(b)) ==> k == s.before(h)
        }),
{
    let s = search_for(doc, agent, item, home);
    let entries = doc.entries;
    let left = place_after(entries, item.origin_left as int);
    s.lemma_stop(home);
    let h = s.lemma_search(item, home, left, false);
    let p = doc.scan(s.name, item, left, left, left, false);
    doc.lemma_scan_within(s.name, item, left, left, left, false);
    law_insert_keeps_order(entries, p, item);
    s.lemma_stop(h);
    assert forall|b: int| #[trigger] s.is_last_rival(b, h) implies items_before(entries, p)
        == s.before(
        if s.sorts_behind(b) {
            h
        } else {
            b
        },
    ) by {
        s.lemma_stop(b);
    }
    if exists|b: int| home <= b < h && #[trigger] s.is_rival(b) {
        let b = s.lemma_last_rival(h);
        s.lemma_stop(b);
    }
    (items_before(entries, p), h)
}

impl Search {
    /// Of some rivals one is the last.
    pub proof fn lemma_last_rival(self, h: int) -> (b: int)
        requires
            exists|b: int| self.home <= b < h && #[trigger] self.is_rival(b),
        ensures
            self.is_last_rival(b, h),
        decreases h - self.home,
    {
        let c = choose|b: int| self.home <= b < h && #[trigger] self.is_rival(b);
        if self.is_rival(h - 1) {
            h - 1
        } else {
            let b = self.lemma_last_rival(h - 1);
            assert forall|g: int| b < g < h implies !#[trigger] self.is_rival(g) by {
                if g < h - 1 {
                    assert(!self.is_rival(g));
                }
            }
            b
        }
    }

    /// No more items are before an entry than there are.
    pub proof fn lemma_before_known(self, g: int)
        requires
            self.ok(),
            entries_ok(self.doc.entries),
            distinct(self.doc.entries),
            self.home <= g <= self.doc.entries.len(),
        ensures
            0 <= self.before(g) <= self.row().len(),
    {
        self.lemma_stop(g);
    }

    /// Entries further right have no fewer items before them.
    pub proof fn lemma_before_mono(self, g: int, h: int)
        requires
            self.ok(),
            entries_ok(self.doc.entries),
            self.home <= g < h <= self.doc.entries.len(),
        ensures
            self.before(g) <= self.before(g + 1) <= self.before(h),
            !self.is_home(g) ==> self.before(g) + self.doc.entries[g].span_len() == self.before(
                g + 1,
            ),
    {
        let entries = self.doc.entries;
        lemma_take_mono(entries, g, h);
        assert(entries.take(g + 1).drop_last() =~= entries.take(g));
        if g + 1 < h {
            lemma_take_mono(entries, g + 1, h);
        }
    }
}

/// What an integrated item stays left of: the item that it was inserted before, where an
/// entry starts with that item; entries that were inserted behind something further left;
/// and those that were inserted between the same two items by a peer whose name the new
/// item's peer does not sort behind.
pub proof fn law_integrated_left_of_barriers(
    doc: DocState,
    agent: int,
    item: YjsSpan,
    home: int,
    order: int,
    g: int,
) -> (k: int)
    requires
        row_ok(doc.entries, order),
        fresh(item, doc.entries, order),
        search_for(doc, agent, item, home).ok(),
        home <= g < doc.entries.len(),
        search_for(doc, agent, item, home).is_barrier(g),
    ensures
        ({
            let s = search_for(doc, agent, item, home);
            let left = place_after(doc.entries, item.origin_left as int);
            &&& 0 <= k <= s.before(g)
            &&& orders(doc.integrated(agent, item, left).entries) == spliced(
                s.row(),
                k,
                span_orders(item),
            )
        }),
{
    let s = search_for(doc, agent, item, home);
    let (k, h) = law_integrated_place(doc, agent, item, home, order);
    assert(h <= g);
    if h < g {
        s.lemma_before_mono(h, g);
    }
    if exists|b: int| home <= b < h && #[trigger] s.is_rival(b) {
        let b = s.lemma_last_rival(h);
        s.lemma_before_mono(b, h);
        assert(k <= s.before(h));
    }
    k
}

/// What an integrated item goes behind: entries that were inserted behind the same item by a
/// peer whose name sorts first, whatever else is in between, unless a barrier is.
pub proof fn law_integrated_behind_rivals(
    doc: DocState,
    agent: int,
    item: YjsSpan,
    home: int,
    order: int,
    g: int,
) -> (k: int)
    requires
        row_ok(doc.entries, order),
        fresh(item, doc.entries, order),
        search_for(doc, agent, item, home).ok(),
        home <= g < doc.entries.len(),
        search_for(doc, agent, item, home).is_rival(g),
        search_for(doc, agent, item, home).sorts_behind(g),
        forall|i: int|
            home <= i <= g ==> !#[trigger] search_for(doc, agent, item, home).is_barrier(i),
    ensures
        ({
            let s = search_for(doc, agent, item, home);
            let left = place_after(doc.entries, item.origin_left as int);
            &&& s.before(g + 1) <= k <= s.row().len()
            &&& orders(doc.integrated(agent, item, left).entries) == spliced(
                s.row(),
                k,
                span_orders(item),
            )
        }),
{
    let s = search_for(doc, agent, item, home);
    let (k, h) = law_integrated_place(doc, agent, item, home, order);
    if h <= g {
        assert(!s.is_barrier(h));
    }
    let b = s.lemma_last_rival(h);
    assert(g <= b) by {
        if b < g {
            assert(!s.is_rival(g));
        }
    }
    s.lemma_before_mono(g, h);
    if g < b {
        s.lemma_before_mono(g, b);
    }
    k
}

/// An integrated item never comes between an entry that it goes behind and what was inserted
/// behind the items of that entry: where it goes past an entry that was inserted behind the
/// same item, it goes past everything that follows and was inserted behind an item further
/// right.
#[verifier::rlimit(30)]
pub proof fn law_integrated_behind_descendants(
    doc: DocState,
    agent: int,
    item: YjsSpan,
    home: int,
    order: int,
    b: int,
    c: int,
) -> (k: int)
    requires
        row_ok(doc.entries, order),
        fresh(item, doc.entries, order),
        search_for(doc, agent, item, home).ok(),
        home <= b < c <= doc.entries.len(),
        search_for(doc, agent, item, home).is_rival(b),
        forall|g: int|
            b < g < c ==> #[trigger] search_for(doc, agent, item, home).is_descendant(g)
                && doc.entries[g].order != item.origin_right,
    ensures
        ({
            let s = search_for(doc, agent, item, home);
            let left = place_after(doc.entries, item.origin_left as int);
            &&& 0 <= k <= s.row().len()
            &&& k <= s.before(b) || s.before(c) <= k
            &&& orders(doc.integrated(agent, item, left).entries) == spliced(
                s.row(),
                k,
                span_orders(item),
            )
        }),
{
    let s = search_for(doc, agent, item, home);
    let entries = doc.entries;
    let (k, h) = law_integrated_place(doc, agent, item, home, order);
    assert forall|g: int| b < g < c implies !s.is_barrier(g) && !s.is_rival(g) by {
        assert(s.is_descendant(g));
        assert(is_origin(entries, entries[g].origin_left));
        s.lemma_not_stopped(g);
    }
    if h <= b {
        if h < b {
            s.lemma_before_mono(h, b);
        }
        if exists|i: int| home <= i < h && #[trigger] s.is_rival(i) {
            let i = s.lemma_last_rival(h);
            s.lemma_before_mono(i, h);
        }
    } else {
        if h < c {
            assert(!s.is_barrier(h));
        }
        let i = s.lemma_last_rival(h);
        if i < b {
            assert(!s.is_rival(b));
        }
        if b < i < c {
            assert(!s.is_rival(i));
        }
        if c < h {
            s.lemma_before_mono(c, h);
        }
        if c < i {
            s.lemma_before_mono(c, i);
        }
    }
    k
}

/// Where the items come to stand that a step of a remote transaction inserts: everything that
/// holds of an integrated item holds of them, between the items that the step names.
#[verifier::rlimit(30)]
pub proof fn law_remote_insert_place(
    doc: DocState,
    agent: int,
    origin_left: RemoteId,
    origin_right: RemoteId,
    ins_content: String,
    order: int,
    s: Search,
) -> (kh: (int, int))
    requires
        doc.clients_ok(),
        doc.content_ok(order),
        0 <= order,
        0 < ins_content@.len() <= i32::MAX,
        order + ins_content@.len() <= u32::MAX,
        doc.resolved(origin_left.agent@, origin_left.seq as int) == Some(s.left as int),
        doc.resolved(origin_right.agent@, origin_right.seq as int) == Some(s.right as int),
        is_origin(doc.entries, s.left),
        s.doc == doc,
        s.name == doc.clients[agent].name,
        s.ok(),
    ensures
        ({
            let (k, h) = kh;
            let op = RemoteOp::Ins { origin_left, origin_right, ins_content };
            &&& 0 <= k <= s.row().len()
            &&& orders(doc.changed(agent, op, order).entries) == s.row().take(k) + new_orders(
                order,
                ins_content@.len() as int,
            ) + s.row().skip(k)
            // The place is determined.
            &&& s.is_end(h)
            &&& forall|b: int| #[trigger]
                s.is_last_rival(b, h) ==> k == s.before(
                    if s.sorts_behind(b) {
                        h
                    } else {
                        b
                    },
                )
            &&& (forall|b: int| s.home <= b < h ==> !#[trigger] s.is_rival(b)) ==> k == s.before(h)
            // No barrier is left of the new items.
            &&& forall|g: int|
                s.home <= g < doc.entries.len() && #[trigger] s.is_barrier(g) ==> k <= s.before(g)
            // Rivals from peers whose name sorts first are left of the new items.
            &&& forall|g: int|
                s.home <= g < h && #[trigger] s.is_rival(g) && s.sorts_behind(g) ==> s.before(g + 1)
                    <= k
            // What follows is not a descendant of what the new items have gone past.
            &&& forall|g: int|
                s.home < g < doc.entries.len() && #[trigger] s.is_descendant(g)
                    && doc.entries[g].order != s.right && k == s.before(g) ==> k == s.before(s.home)
        }),
{
    let item = YjsSpan {
        order: order as u32,
        origin_left: s.left,
        origin_right: s.right,
        len: ins_content@.len() as i32,
    };
    let (k, h) = law_integrated_place(doc, agent, item, s.home, order);
    assert(search_for(doc, agent, item, s.home) == s);
    assert(span_orders(item) =~= new_orders(order, ins_content@.len() as int));
    if exists|b: int| s.home <= b < h && #[trigger] s.is_rival(b) {
        let b = s.lemma_last_rival(h);
        s.lemma_before_mono(b, h);
    }
    assert(k <= s.before(h));
    assert forall|g: int| s.home <= g < doc.entries.len() && #[trigger] s.is_barrier(
        g,
    ) implies k <= s.before(g) by {
        if h < g {
            s.lemma_before_mono(h, g);
        }
    }
    assert forall|g: int|
        s.home <= g < h && #[trigger] s.is_rival(g) && s.sorts_behind(g) implies s.before(
        g + 1,
    ) <= k by {
        let b = s.lemma_last_rival(h);
        if b < g {
            assert(!s.is_rival(g));
        }
        s.lemma_before_mono(g, h);
        if g < b {
            s.lemma_before_mono(g, b);
        }
    }
    assert forall|g: int|
        s.home < g < doc.entries.len() && #[trigger] s.is_descendant(g)
            && doc.entries[g].order != s.right && k == s.before(g) implies k == s.before(
        s.home,
    ) by {
        s.lemma_not_stopped(g);
        if h < g {
            s.lemma_before_strict(h, g);
        }
        if exists|b: int| s.home <= b < h && #[trigger] s.is_rival(b) {
            let b = s.lemma_last_rival(h);
            if b < g {
                s.lemma_before_strict(b, g);
            } else if g < b {
                s.lemma_before_strict(g, b);
            }
        }
        if g < h {
            s.lemma_before_strict(g, h);
        }
    }
    (k, h)
}

impl Search {
    /// A descendant is no rival, and no barrier unless it is what the new item was inserted
    /// before.
    proof fn lemma_not_stopped(self, g: int)
        requires
            self.ok(),
            entries_ok(self.doc.entries),
            distinct(self.doc.entries),
            is_origin(self.doc.entries, self.left),
            self.home < g < self.doc.entries.len(),
            is_origin(self.doc.entries, self.doc.entries[g].origin_left),
            self.is_descendant(g),
            self.doc.entries[g].order != self.right,
        ensures
            !self.is_barrier(g),
            !self.is_rival(g),
    {
        let entries = self.doc.entries;
        self.lemma_stop(g);
        assert(entry_ok(entries[g]));
        lemma_row_index(entries, Place { entry: g, offset: 0 }, entries[g].order as int);
        lemma_is_left_of(entries, self.left, self.left_of_met(g));
        lemma_is_left_of(entries, self.left_of_met(g), self.left);
    }

    /// Entries further right have more items before them, but for the one right behind the
    /// item that the new one was inserted behind.
    proof fn lemma_before_strict(self, g: int, h: int)
        requires
            self.ok(),
            entries_ok(self.doc.entries),
            self.home <= g < h <= self.doc.entries.len(),
        ensures
            self.before(g) < self.before(h) || (g == self.home && self.before(g) == self.before(
                h,
            )),
            g != self.home ==> self.before(g) < self.before(h),
    {
        self.lemma_before_mono(g, h);
        assert(entry_ok(self.doc.entries[g]));
    }
}

/// What an item is inserted behind and before stands side by side in the row.
pub open spec fn is_gap(s: Search) -> bool {
    s.before(s.home) >= s.row().len() || s.row()[s.before(s.home)] == s.right
}

/// An item that is inserted into a gap is put there, as an entry of its own.
#[verifier::rlimit(40)]
pub proof fn lemma_gap_filled(doc: DocState, agent: int, x: YjsSpan, home: int, order: int)
    requires
        row_ok(doc.entries, order),
        fresh(x, doc.entries, order),
        search_for(doc, agent, x, home).ok(),
        is_gap(search_for(doc, agent, x, home)),
        x.origin_left != ROOT_ORDER ==> doc.entries[home].origin_right != x.origin_right,
    ensures
        ({
            let s = search_for(doc, agent, x, home);
            let left = place_after(doc.entries, x.origin_left as int);
            let now = doc.integrated(agent, x, left).entries;
            let g = if x.origin_left == ROOT_ORDER {
                home
            } else {
                home + 1
            };
            &&& now == inserted(doc.entries, left, x)
            &&& orders(now) == spliced(s.row(), s.before(home), span_orders(x))
            &&& row_ok(now, order + x.span_len())
            &&& forall|z: Order| #[trigger]
                holds(now, z) == (holds(doc.entries, z) || has_item(x, z))
            &&& 0 <= s.before(home) <= s.row().len()
            &&& g < now.len()
            &&& now[g] == x
            &&& items_len(now.take(g)) == s.before(home)
            &&& x.origin_left != ROOT_ORDER ==> {
                &&& now[home].order == doc.entries[home].order
                &&& now[home].origin_right == doc.entries[home].origin_right
                &&& now[home].order + now[home].span_len() == x.origin_left + 1
                &&& now.take(home) == doc.entries.take(home)
            }
            &&& holds(now, x.origin_left) || x.origin_left == ROOT_ORDER
        }),
{
    let s = search_for(doc, agent, x, home);
    let entries = doc.entries;
    let left = place_after(entries, x.origin_left as int);
    let now = doc.integrated(agent, x, left).entries;
    s.lemma_stop(home);
    let h = s.lemma_search(x, home, left, false);
    if home < entries.len() {
        assert(s.is_barrier(home));
    }
    assert(h == home);
    assert(now == inserted(entries, left, x));
    law_insert_keeps_order(entries, left, x);
    lemma_row_inserted(entries, left, x, order);
    lemma_entry_behind(entries, left, x, home);
    if x.origin_left != ROOT_ORDER {
        assert(holds(now, x.origin_left) == (holds(entries, x.origin_left) || has_item(
            x,
            x.origin_left,
        )));
    }
}

/// An item that is inserted at the start of a row, or behind an item in an entry that was
/// inserted before something else, is an entry of its own.
pub proof fn lemma_entry_behind(entries: Seq<YjsSpan>, p: Place, x: YjsSpan, home: int)
    requires
        entries_ok(entries),
        p.within(entries),
        if x.origin_left == ROOT_ORDER {
            home == 0 && p == (Place { entry: 0, offset: 0 })
        } else {
            &&& 0 <= home < entries.len()
            &&& entries[home].order <= x.origin_left
            &&& x.origin_left < entries[home].order + entries[home].span_len()
            &&& entries[home].origin_right != x.origin_right
            &&& p == (Place { entry: home, offset: x.origin_left - entries[home].order + 1 })
        },
    ensures
        ({
            let now = inserted(entries, p, x);
            let g = if x.origin_left == ROOT_ORDER {
                home
            } else {
                home + 1
            };
            &&& g < now.len()
            &&& now[g] == x
            &&& items_len(now.take(g)) == items_before(entries, p)
            &&& x.origin_left != ROOT_ORDER ==> {
                &&& now[home].order == entries[home].order
                &&& now[home].origin_right == entries[home].origin_right
                &&& now[home].order + now[home].span_len() == x.origin_left + 1
                &&& now.take(home) == entries.take(home)
            }
        }),
{
    let now = inserted(entries, p, x);
    if x.origin_left == ROOT_ORDER {
        if entries.len() == 0 {
            assert(now =~= seq![x]);
        }
        assert(now.take(0) =~= Seq::empty());
        assert(entries.take(0) =~= Seq::empty());
    } else {
        assert(entry_ok(entries[home]));
        assert(now.take(home) =~= entries.take(home));
        assert(now.take(home + 1).drop_last() =~= entries.take(home));
        assert(now.take(home + 1).last() == now[home]);
    }
}

/// Items that two peers insert between the same two items, without knowing of each other, are
/// put in the order of the names of the peers, whichever came first: the items `x` of one peer
/// came in before the items `y` of the other one, and are left of them if and only if the name
/// of the other peer sorts behind. So a document that they come to the other way round has the
/// same text. This is so where what they were inserted behind is the root, or is in an entry
/// that was itself inserted before something else.
pub proof fn law_concurrent_inserts_by_name(
    doc: DocState,
    a: int,
    x: YjsSpan,
    b: int,
    y: YjsSpan,
    home: int,
    order: int,
)
    requires
        row_ok(doc.entries, order),
        fresh(x, doc.entries, order),
        y.span_ok(),
        y.len > 0,
        y.order == order + x.span_len(),
        y.origin_left == x.origin_left,
        y.origin_right == x.origin_right,
        is_origin(doc.entries, x.origin_right),
        search_for(doc, a, x, home).ok(),
        is_gap(search_for(doc, a, x, home)),
        x.origin_left != ROOT_ORDER ==> doc.entries[home].origin_right != x.origin_right,
        item_of_key(doc.client_with_order, order).agent == a,
    ensures
        ({
            let s = search_for(doc, a, x, home);
            let mid = doc.integrated(a, x, place_after(doc.entries, x.origin_left as int));
            let after = mid.integrated(b, y, place_after(mid.entries, y.origin_left as int));
            let k = s.before(home);
            &&& 0 <= k <= s.row().len()
            &&& orders(after.entries) == s.row().take(k) + (if name_behind(
                doc.clients[b].name,
                doc.clients[a].name,
            ) {
                span_orders(x) + span_orders(y)
            } else {
                span_orders(y) + span_orders(x)
            }) + s.row().skip(k)
        }),
{
    let s = search_for(doc, a, x, home);
    let mid = doc.integrated(a, x, place_after(doc.entries, x.origin_left as int));
    lemma_gap_filled(doc, a, x, home, order);
    if x.origin_right != ROOT_ORDER {
        assert(holds(doc.entries, x.origin_right));
    }
    lemma_gap_shared(mid, b, x, y, home, order + x.span_len(), s.row(), s.before(home));
}

/// Where an item goes that is inserted into a gap which another one was inserted into.
#[verifier::rlimit(40)]
proof fn lemma_gap_shared(
    mid: DocState,
    b: int,
    x: YjsSpan,
    y: YjsSpan,
    home: int,
    next: int,
    row: Seq<u32>,
    k0: int,
)
    requires
        row_ok(mid.entries, next),
        fresh(y, mid.entries, next),
        x.span_ok(),
        x.len > 0,
        y.origin_left == x.origin_left,
        y.origin_right == x.origin_right,
        x.origin_right != x.order,
        orders(mid.entries) == spliced(row, k0, span_orders(x)),
        0 <= k0 <= row.len(),
        k0 < row.len() ==> row[k0] == x.origin_right,
        ({
            let g = if x.origin_left == ROOT_ORDER {
                home
            } else {
                home + 1
            };
            &&& 0 <= home
            &&& x.origin_left == ROOT_ORDER ==> home == 0
            &&& g < mid.entries.len()
            &&& mid.entries[g] == x
            &&& items_len(mid.entries.take(g)) == k0
        }),
        x.origin_left != ROOT_ORDER ==> {
            &&& mid.entries[home].order <= x.origin_left
            &&& mid.entries[home].origin_right != x.origin_right
            &&& mid.entries[home].order + mid.entries[home].span_len() == x.origin_left + 1
        },
    ensures
        ({
            let loc = item_of_key(mid.client_with_order, x.order as int);
            let after = mid.integrated(b, y, place_after(mid.entries, y.origin_left as int));
            orders(after.entries) == row.take(k0) + (if name_behind(
                mid.clients[b].name,
                mid.clients[loc.agent as int].name,
            ) {
                span_orders(x) + span_orders(y)
            } else {
                span_orders(y) + span_orders(x)
            }) + row.skip(k0)
        }),
{
    let now = mid.entries;
    let t = search_for(mid, b, y, home);
    let g = if x.origin_left == ROOT_ORDER {
        home
    } else {
        home + 1
    };
    let m = x.span_len() as int;
    let (k, h) = law_integrated_place(mid, b, y, home, next);
    lemma_text_len(now);
    lemma_is_left_of(now, y.origin_left, y.origin_left);
    assert(span_orders(x)[0] == x.order);
    assert(t.row()[k0] == x.order);
    assert(t.before(g) == k0);
    assert(now.take(g + 1).drop_last() =~= now.take(g));
    assert(t.before(g + 1) == k0 + m);
    if x.origin_left != ROOT_ORDER {
        assert(now.take(g).drop_last() =~= now.take(home));
        assert(now.take(g).last() == now[home]);
        assert(t.before(home) == k0);
        assert(!t.is_barrier(home));
    }
    assert(t.is_rival(g));
    let behind = t.sorts_behind(g);
    assert(t.is_barrier(g) == !behind);
    let after = mid.integrated(b, y, place_after(mid.entries, y.origin_left as int));
    if behind {
        assert(t.is_barrier(g + 1)) by {
            if k0 < row.len() {
                assert(t.row()[k0 + m] == row[k0]);
            }
        }
        assert(h == g + 1) by {
            if h < g + 1 {
                assert(t.is_barrier(h));
            }
            if h > g + 1 {
                assert(!t.is_barrier(g + 1));
            }
        }
        assert(t.is_last_rival(g, h));
        assert(k == k0 + m);
        assert(orders(after.entries) =~= row.take(k0) + (span_orders(x) + span_orders(y))
            + row.skip(k0));
    } else {
        assert(h == g) by {
            if h < g {
                assert(t.is_barrier(h));
            }
            if h > g {
                assert(!t.is_barrier(g));
            }
        }
        if x.origin_left != ROOT_ORDER {
            assert(t.is_last_rival(home, h));
        }
        assert(k == k0);
        assert(orders(after.entries) =~= row.take(k0) + (span_orders(y) + span_orders(x))
            + row.skip(k0));
    }
}

} // verus!
