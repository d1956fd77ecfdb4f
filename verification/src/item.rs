use vstd::prelude::*;

verus! {

/// One record of the remote item service. Ids are assigned by the server;
/// the gateway never invents or mutates them.
#[derive(Debug, PartialEq, Eq)]
pub struct WaygateItem {
    pub id: i64,
    pub item: String,
    pub title: String,
}

/// The mathematical content of an item: its id and the two text fields.
pub ghost struct ItemView {
    pub id: int,
    pub item: Seq<char>,
    pub title: Seq<char>,
}

impl View for WaygateItem {
    type V = ItemView;

    open spec fn view(&self) -> ItemView {
        ItemView { id: self.id as int, item: self.item@, title: self.title@ }
    }
}

/// The contents of a vector of items, element by element.
pub open spec fn items_view(v: Seq<WaygateItem>) -> Seq<ItemView> {
    v.map_values(|it: WaygateItem| it@)
}

} // verus!
