//! Item pipelines: what processes the items that spiders scrape.
use vstd::prelude::*;
use crate::spider::Spider;

verus! {

/// Processed result of itempipeline
pub enum ItemProduct<T> {
    /// An item that will be passed to next ItemPipeline.
    Item(T),
    /// The item is no longer processed by further pipeline components.
    Ignore,
}

pub trait ItemPipeline: Send {
    type Items;

    fn process_item(&mut self, item: Self::Items) -> ItemProduct<Self::Items>;

    /// Called when a spider starts to be crawled; by default nothing happens.
    fn open_spider<S: Spider<ItemType = Self::Items> + ?Sized>(&mut self, spider: &S) where Self: Sized
        default_ensures
            *final(self) == *old(self),
    {
    }

    /// Called when a spider is no longer crawled; by default nothing happens.
    fn close_spider<S: Spider<ItemType = Self::Items> + ?Sized>(&mut self, spider: &S) where Self: Sized
        default_ensures
            *final(self) == *old(self),
    {
    }
}

} // verus!
