//! A tradable instrument.

use vstd::prelude::*;
use crate::ids::fresh_id;
use crate::ids::is_random_id;

verus! {

/// The mathematical value of an [`Asset`].
pub struct AssetView {
    pub id: u128,
    pub name: Seq<char>,
}

/// A tradable instrument: an identifier and a name to show.
#[derive(Debug)]
pub struct Asset {
    pub id: u128,
    pub name: String,
}

impl View for Asset {
    type V = AssetView;

    open spec fn view(&self) -> AssetView {
        AssetView { id: self.id, name: self.name@ }
    }
}

impl Clone for Asset {
    fn clone(&self) -> (copy: Asset)
        ensures
            copy@ == self@,
    {
        Asset { id: self.id, name: self.name.clone() }
    }
}

impl Asset {
    /// An asset of this name under a fresh random identifier.
    pub fn new(name: String) -> (asset: Asset)
        ensures
            asset@.name == name@,
            is_random_id(asset@.id),
    {
        Asset { id: fresh_id(), name }
    }

    /// The asset of this name under the identifier `id`.
    pub fn with_id(id: u128, name: String) -> (asset: Asset)
        ensures
            asset@ == (AssetView { id, name: name@ }),
    {
        Asset { id, name }
    }
}

} // verus!
