//! The recent items beneath a scope, as the file a surface reads: `node` and
//! `[[items]]` of `kind`, `scope`, `id`, `bytes`, `detail` and
//! `observed_unix_nanos`.
//!
//! The file's fields are held here as values ([`RecentDocument`]); what
//! is written and what is read back are decided here. An item of a kind no
//! one is called is skipped.

use vstd::prelude::*;
use vstd::string::*;
use crate::activity::{
    Activity, Item, ItemKind, item_kind_name, item_kind_named, law_item_kind_name_names_it,
    newest_answering,
};

verus! {

/// The recent items at or beneath a scope, read or about to be written.
#[derive(Clone, Debug, Default, PartialEq, Eq)]
pub struct Recent {
    /// The scope the items are at or beneath.
    pub node: String,
    /// The items, newest first.
    pub items: Vec<Item>,
}

/// The items' file, field for field.
#[derive(Clone, Debug, Default, PartialEq, Eq)]
pub struct RecentDocument {
    pub node: String,
    pub items: Vec<ItemDocument>,
}

/// One item as the file writes it: its kind as the kind's token.
#[derive(Clone, Debug, Default, PartialEq, Eq)]
pub struct ItemDocument {
    pub kind: String,
    pub scope: String,
    pub id: String,
    pub bytes: u64,
    pub detail: String,
    pub observed_unix_nanos: i64,
}

/// Whether `doc` is how the file writes `item`.
pub open spec fn item_written(item: Item, doc: ItemDocument) -> bool {
    &&& doc.kind@ == item_kind_name(item.kind)
    &&& doc.scope == item.scope
    &&& doc.id == item.id
    &&& doc.bytes == item.bytes
    &&& doc.detail == item.detail
    &&& doc.observed_unix_nanos == item.observed_unix_nanos
}

/// The items a file's entries read as: each of a known kind, in order; an
/// entry of a kind no one is called is skipped.
pub open spec fn items_read(docs: Seq<ItemDocument>) -> Seq<Item>
    decreases docs.len(),
{
    if docs.len() == 0 {
        Seq::empty()
    } else {
        let doc = docs.last();
        match item_kind_named(doc.kind@) {
            Some(kind) => items_read(docs.drop_last()).push(
                Item {
                    kind,
                    scope: doc.scope,
                    id: doc.id,
                    bytes: doc.bytes,
                    detail: doc.detail,
                    observed_unix_nanos: doc.observed_unix_nanos,
                },
            ),
            None => items_read(docs.drop_last()),
        }
    }
}

impl Recent {
    /// The most items a publisher writes: the last rounds, not the ring.
    pub const LIMIT: usize = 400;

    /// The newest [`Recent::LIMIT`] items at or beneath `node`.
    pub fn of(node: &str, activity: &Activity) -> (r: Recent)
        ensures
            r.node@ == node@,
            ({
                let all = newest_answering(activity.items(), node.spec_bytes(), None);
                r.items@ == all.take(if 400 < all.len() { 400 } else { all.len() as int })
            }),
    {
        Recent { node: node.to_owned(), items: activity.recent(node, None, Self::LIMIT) }
    }

    /// The items as the file writes them.
    pub fn document(&self) -> (r: RecentDocument)
        ensures
            r.node == self.node,
            r.items@.len() == self.items@.len(),
            forall|i: int| 0 <= i < r.items@.len() ==> item_written(self.items@[i], #[trigger] r.items@[i]),
    {
        let mut items: Vec<ItemDocument> = Vec::new();
        let mut i: usize = 0;
        while i < self.items.len()
            invariant
                i <= self.items@.len(),
                items@.len() == i,
                forall|q: int| 0 <= q < i ==> item_written(self.items@[q], #[trigger] items@[q]),
            decreases self.items@.len() - i,
        {
            let item = &self.items[i];
            items.push(
                ItemDocument {
                    kind: item.kind.name().to_owned(),
                    scope: item.scope.clone(),
                    id: item.id.clone(),
                    bytes: item.bytes,
                    detail: item.detail.clone(),
                    observed_unix_nanos: item.observed_unix_nanos,
                },
            );
            i = i + 1;
        }
        RecentDocument { node: self.node.clone(), items }
    }

    /// The items a file holds, each of a known kind; an entry of a kind no
    /// one is called is skipped.
    pub fn from_document(document: RecentDocument) -> (r: Recent)
        ensures
            r.node == document.node,
            r.items@ == items_read(document.items@),
    {
        let docs = &document.items;
        let mut items: Vec<Item> = Vec::new();
        let mut i: usize = 0;
        assert(docs@.take(0) =~= Seq::<ItemDocument>::empty());
        while i < docs.len()
            invariant
                i <= docs@.len(),
                items@ == items_read(docs@.take(i as int)),
            decreases docs@.len() - i,
        {
            let doc = &docs[i];
            assert(docs@.take(i + 1).drop_last() =~= docs@.take(i as int));
            assert(docs@.take(i + 1).last() == docs@[i as int]);
            match ItemKind::named(doc.kind.as_str()) {
                Some(kind) => {
                    items.push(
                        Item {
                            kind,
                            scope: doc.scope.clone(),
                            id: doc.id.clone(),
                            bytes: doc.bytes,
                            detail: doc.detail.clone(),
                            observed_unix_nanos: doc.observed_unix_nanos,
                        },
                    );
                },
                None => {},
            }
            i = i + 1;
        }
        assert(docs@.take(i as int) =~= docs@);
        Recent { node: document.node, items }
    }
}

/// The newest items cross the file whole: the file written for a list of
/// items reads back as the same items, in the same order.
pub proof fn law_recent_reads_back(recent: Recent, document: RecentDocument)
    requires
        document.node == recent.node,
        document.items@.len() == recent.items@.len(),
        forall|i: int|
            0 <= i < document.items@.len() ==> item_written(recent.items@[i], #[trigger] document.items@[i]),
    ensures
        items_read(document.items@) == recent.items@,
{
    lemma_items_read_back(recent.items@, document.items@);
}

/// Items written one for one read back as themselves.
proof fn lemma_items_read_back(items: Seq<Item>, docs: Seq<ItemDocument>)
    requires
        docs.len() == items.len(),
        forall|i: int| 0 <= i < docs.len() ==> item_written(items[i], #[trigger] docs[i]),
    ensures
        items_read(docs) == items,
    decreases docs.len(),
{
    if docs.len() > 0 {
        let last = items.last();
        assert(item_written(items[items.len() - 1], docs[docs.len() - 1]));
        law_item_kind_name_names_it(last.kind);
        lemma_items_read_back(items.drop_last(), docs.drop_last());
        assert(items.drop_last().push(last) =~= items);
    }
}

} // verus!