//! Activity: the recent individual items, not only the counts.
//!
//! Bounded: the last `capacity` items, oldest dropped. Recent, not
//! retention — it points at an item (scope, id, size, when, a line of
//! detail), it never holds the content.

use vstd::prelude::*;
use vstd::string::*;
use std::collections::VecDeque;
use crate::scope::{Scope, after_authority, at_or_beneath, path_of};
use crate::text::{bytes_of, same_text};

verus! {

/// Which of the three units an item is.
#[derive(Clone, Copy, Debug, PartialEq, Eq, Structural)]
pub enum ItemKind {
    /// A Stream that arrived.
    Stream,
    /// A Message that was sent.
    Message,
    /// A Journey that ran.
    Journey,
}

/// The token a kind appears as in a scope, a filter and a UI.
pub open spec fn item_kind_name(kind: ItemKind) -> Seq<char> {
    match kind {
        ItemKind::Stream => "stream"@,
        ItemKind::Message => "message"@,
        ItemKind::Journey => "journey"@,
    }
}

/// The kind a token names, exactly, or `None`.
pub open spec fn item_kind_named(word: Seq<char>) -> Option<ItemKind> {
    if word == item_kind_name(ItemKind::Stream) {
        Some(ItemKind::Stream)
    } else if word == item_kind_name(ItemKind::Message) {
        Some(ItemKind::Message)
    } else if word == item_kind_name(ItemKind::Journey) {
        Some(ItemKind::Journey)
    } else {
        None
    }
}

impl ItemKind {
    /// The token as it appears in a scope, a filter and a UI.
    pub fn name(self) -> (r: &'static str)
        ensures
            r@ == item_kind_name(self),
    {
        match self {
            ItemKind::Stream => "stream",
            ItemKind::Message => "message",
            ItemKind::Journey => "journey",
        }
    }

    /// The kind a token names, exactly, or `None`: what a reader of the
    /// items' file reads a kind back by.
    pub fn named(word: &str) -> (r: Option<ItemKind>)
        ensures
            r == item_kind_named(word@),
    {
        if same_text(word, "stream") {
            Some(ItemKind::Stream)
        } else if same_text(word, "message") {
            Some(ItemKind::Message)
        } else if same_text(word, "journey") {
            Some(ItemKind::Journey)
        } else {
            None
        }
    }
}

/// Every kind's token names it back.
pub proof fn law_item_kind_name_names_it(kind: ItemKind)
    ensures
        item_kind_named(item_kind_name(kind)) == Some(kind),
{
    reveal_strlit("stream");
    reveal_strlit("message");
    reveal_strlit("journey");
    assert("stream"@.len() == 6 && "message"@.len() == 7 && "journey"@.len() == 7);
    assert("message"@[0] != "journey"@[0] && "message"@ != "journey"@);
}

/// One observed item: what it is, where, its identity, its size, when it
/// was seen, and a short line of detail.
#[derive(Clone, Debug, PartialEq, Eq)]
pub struct Item {
    pub kind: ItemKind,
    pub scope: String,
    pub id: String,
    pub bytes: u64,
    pub detail: String,
    pub observed_unix_nanos: i64,
}

impl Item {
    /// The same item, field for field.
    pub(crate) fn duplicate(&self) -> (r: Item)
        ensures
            r == *self,
    {
        Item {
            kind: self.kind,
            scope: self.scope.clone(),
            id: self.id.clone(),
            bytes: self.bytes,
            detail: self.detail.clone(),
            observed_unix_nanos: self.observed_unix_nanos,
        }
    }
}

/// The default number of items kept: enough to see what just flowed
/// without unbounded growth.
pub const DEFAULT_CAPACITY: usize = 512;

/// Whether an item answers a query for a scope and, when given, a kind.
pub open spec fn item_answers(item: Item, scope: Seq<u8>, kind: Option<ItemKind>) -> bool {
    &&& at_or_beneath(bytes_of(item.scope@), scope)
    &&& match kind {
        Some(wanted) => item.kind == wanted,
        None => true,
    }
}

/// The items that answer a query, newest (last recorded) first.
pub open spec fn newest_answering(items: Seq<Item>, scope: Seq<u8>, kind: Option<ItemKind>) -> Seq<
    Item,
>
    decreases items.len(),
{
    if items.len() == 0 {
        Seq::empty()
    } else {
        newest_answering(items.drop_first(), scope, kind) + (if item_answers(
            items[0],
            scope,
            kind,
        ) {
            seq![items[0]]
        } else {
            Seq::empty()
        })
    }
}

/// What the log holds after recording one more item: the item at the end,
/// and the oldest dropped while there are more than `capacity`.
pub open spec fn recorded(items: Seq<Item>, capacity: nat, item: Item) -> Seq<Item> {
    let all = items.push(item);
    if all.len() > capacity {
        all.skip(all.len() - capacity)
    } else {
        all
    }
}

/// A bounded ring of the most recent observed items.
pub struct Activity {
    capacity: usize,
    items: VecDeque<Item>,
}

impl Activity {
    /// How many items the log keeps.
    pub closed spec fn capacity(&self) -> nat {
        self.capacity as nat
    }

    /// The items held, oldest first.
    pub closed spec fn items(&self) -> Seq<Item> {
        self.items@
    }

    /// The log keeps at least one item and never more than its capacity.
    #[verifier::type_invariant]
    spec fn holds_within_capacity(self) -> bool {
        self.capacity >= 1 && self.items@.len() <= self.capacity
    }

    /// The log keeps at least one item and never more than its capacity:
    /// true of every log.
    pub open spec fn wf(&self) -> bool {
        &&& self.capacity() >= 1
        &&& self.items().len() <= self.capacity()
    }

    /// An activity log keeping `capacity` items, clamped to at least one.
    pub fn with_capacity(capacity: usize) -> (r: Self)
        ensures
            r.wf(),
            r.capacity() == if capacity >= 1 { capacity as nat } else { 1 },
            r.items() == Seq::<Item>::empty(),
    {
        let capacity = if capacity >= 1 { capacity } else { 1 };
        Activity { capacity, items: VecDeque::new() }
    }

    /// Record one item, dropping the oldest once over capacity.
    pub fn record(&mut self, item: Item)
        ensures
            final(self).wf(),
            final(self).capacity() == old(self).capacity(),
            final(self).items() == recorded(old(self).items(), old(self).capacity(), item),
    {
        proof {
            use_type_invariant(&*self);
        }
        let ghost before = self.items@;
        let mut items: VecDeque<Item> = VecDeque::new();
        std::mem::swap(&mut items, &mut self.items);
        items.push_back(item);
        if items.len() > self.capacity {
            let _ = items.pop_front();
        }
        assert(items@ =~= recorded(before, self.capacity as nat, item));
        self.items = items;
    }

    /// The recent items at or beneath `scope`, newest first, at most
    /// `limit`. `kind` filters to one of the three when given.
    pub fn recent(&self, scope: &str, kind: Option<ItemKind>, limit: usize) -> (r: Vec<Item>)
        ensures
            r@ == newest_answering(self.items(), scope.spec_bytes(), kind).take(
                if limit < newest_answering(self.items(), scope.spec_bytes(), kind).len() {
                    limit as int
                } else {
                    newest_answering(self.items(), scope.spec_bytes(), kind).len() as int
                },
            ),
    {
        let ghost all = self.items@;
        let ghost sb = scope.spec_bytes();
        let mut found: Vec<Item> = Vec::new();
        let mut i = self.items.len();
        assert(all.skip(i as int) =~= Seq::<Item>::empty());
        while i > 0 && found.len() < limit
            invariant
                i <= all.len(),
                all == self.items@,
                sb == scope.spec_bytes(),
                found.len() <= limit,
                found@ == newest_answering(all.skip(i as int), sb, kind),
            decreases i,
        {
            i = i - 1;
            let item = &self.items[i];
            assert(all.skip(i as int).drop_first() =~= all.skip(i + 1));
            let answers = beneath(item.scope.as_str(), scope) && match kind {
                Some(wanted) => item.kind == wanted,
                None => true,
            };
            if answers {
                let copy = item.duplicate();
                found.push(copy);
            }
            assert(found@ =~= newest_answering(all.skip(i as int), sb, kind));
        }
        proof {
            lemma_newest_prefix(all, i as int, sb, kind);
            if i == 0 {
                assert(all.skip(0) =~= all);
            }
            let whole = newest_answering(all, sb, kind);
            assert(found@ =~= whole.take(found@.len() as int));
        }
        found
    }

    /// How many items are held.
    pub fn len(&self) -> (r: usize)
        ensures
            r == self.items().len(),
    {
        self.items.len()
    }

    /// Whether nothing has been recorded.
    pub fn is_empty(&self) -> (r: bool)
        ensures
            r == (self.items().len() == 0),
    {
        self.items.len() == 0
    }
}

impl Default for Activity {
    /// A log keeping [`DEFAULT_CAPACITY`] items.
    fn default() -> (r: Self)
        ensures
            r.wf(),
            r.capacity() == DEFAULT_CAPACITY as nat,
            r.items() == Seq::<Item>::empty(),
    {
        Self::with_capacity(DEFAULT_CAPACITY)
    }
}

/// The answers among the newer items are the first answers among all.
proof fn lemma_newest_prefix(items: Seq<Item>, i: int, scope: Seq<u8>, kind: Option<ItemKind>)
    requires
        0 <= i <= items.len(),
    ensures
        newest_answering(items.skip(i), scope, kind).len() <= newest_answering(
            items,
            scope,
            kind,
        ).len(),
        newest_answering(items, scope, kind).take(
            newest_answering(items.skip(i), scope, kind).len() as int,
        ) == newest_answering(items.skip(i), scope, kind),
    decreases i,
{
    let whole = newest_answering(items, scope, kind);
    if i == 0 {
        assert(items.skip(0) =~= items);
        assert(whole.take(whole.len() as int) =~= whole);
    } else {
        let rest = items.drop_first();
        assert(rest.skip(i - 1) =~= items.skip(i));
        lemma_newest_prefix(rest, i - 1, scope, kind);
        let part = newest_answering(items.skip(i), scope, kind);
        let mid = newest_answering(rest, scope, kind);
        assert(whole.take(part.len() as int) =~= mid.take(part.len() as int));
    }
}

/// Whether a candidate scope is at or beneath a query scope, by the one
/// containment rule: [`Scope::contains`] on the scopes the two texts read
/// as. An empty query is the root, above everything.
fn beneath(candidate: &str, scope: &str) -> (r: bool)
    ensures
        r == at_or_beneath(candidate.spec_bytes(), scope.spec_bytes()),
{
    Scope::new(scope).contains(Scope::new(candidate))
}

/// What the log holds after recording each of `more`, in turn.
pub open spec fn recorded_all(items: Seq<Item>, capacity: nat, more: Seq<Item>) -> Seq<Item>
    decreases more.len(),
{
    if more.len() == 0 {
        items
    } else {
        recorded(recorded_all(items, capacity, more.drop_last()), capacity, more.last())
    }
}

/// The ring keeps the newest: a log of capacity `capacity` that recorded
/// `items`, in turn, from empty holds the last `capacity` of them, oldest
/// first, the older ones dropped.
pub proof fn law_ring_keeps_the_newest(capacity: nat, items: Seq<Item>)
    requires
        capacity >= 1,
    ensures
        recorded_all(Seq::empty(), capacity, items) == items.skip(
            if items.len() > capacity { items.len() - capacity } else { 0 },
        ),
    decreases items.len(),
{
    if items.len() > 0 {
        let shorter = items.drop_last();
        law_ring_keeps_the_newest(capacity, shorter);
        let k = if shorter.len() > capacity { shorter.len() - capacity } else { 0int };
        assert(shorter.skip(k).push(items.last()) =~= items.skip(k));
        if items.len() > capacity {
            assert(items.skip(k).skip(items.skip(k).len() - capacity) =~= items.skip(
                items.len() - capacity,
            ));
        } else {
            assert(items.skip(0) =~= items);
        }
    } else {
        assert(items.skip(0) =~= items);
    }
}

/// The root holds every item: asked at the empty scope with no kind, the
/// log answers every item it holds, newest first.
pub proof fn law_root_answers_everything(items: Seq<Item>)
    ensures
        newest_answering(items, Seq::empty(), None) == items.reverse(),
    decreases items.len(),
{
    assert(path_of(Seq::<u8>::empty()) =~= Seq::<u8>::empty()) by {
        assert(after_authority(Seq::<u8>::empty()) == Seq::<u8>::empty());
    }
    if items.len() > 0 {
        law_root_answers_everything(items.drop_first());
        assert(item_answers(items[0], Seq::empty(), None));
        assert(items.drop_first().reverse().push(items[0]) =~= items.reverse());
    } else {
        assert(items.reverse() =~= Seq::<Item>::empty());
    }
}

/// The items answering a query are exactly the items held that answer it:
/// each answering item is among them, and each of them is held and answers.
pub proof fn law_answers_are_the_answering_items(items: Seq<Item>, scope: Seq<u8>, kind: Option<ItemKind>)
    ensures
        forall|i: int|
            0 <= i < items.len() && item_answers(items[i], scope, kind)
                ==> newest_answering(items, scope, kind).contains(#[trigger] items[i]),
        forall|i: int|
            0 <= i < newest_answering(items, scope, kind).len() ==> {
                &&& items.contains(#[trigger] newest_answering(items, scope, kind)[i])
                &&& item_answers(newest_answering(items, scope, kind)[i], scope, kind)
            },
    decreases items.len(),
{
    if items.len() > 0 {
        let rest = items.drop_first();
        law_answers_are_the_answering_items(rest, scope, kind);
        let small = newest_answering(rest, scope, kind);
        let big = newest_answering(items, scope, kind);
        assert forall|i: int| 0 <= i < items.len() && item_answers(items[i], scope, kind)
            implies big.contains(#[trigger] items[i]) by {
            if i > 0 {
                assert(items[i] == rest[i - 1]);
                let j = choose|j: int| 0 <= j < small.len() && small[j] == rest[i - 1];
                assert(big[j] == small[j]);
            } else {
                assert(big[big.len() - 1] == items[0]);
            }
        }
        assert forall|i: int| 0 <= i < big.len() implies {
            &&& items.contains(#[trigger] big[i])
            &&& item_answers(big[i], scope, kind)
        } by {
            if i < small.len() {
                assert(big[i] == small[i]);
                let j = choose|j: int| 0 <= j < rest.len() && rest[j] == small[i];
                assert(items[j + 1] == rest[j]);
            } else {
                assert(items[0] == big[i]);
            }
        }
    }
}

} // verus!