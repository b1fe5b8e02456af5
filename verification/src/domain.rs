//! The domain entities: a Thing (a board-game-like record sourced from
//! upstream), its lightweight related Links, and the flat search candidates.
//!
//! Text is carried as raw bytes of the upstream payload; the mathematical
//! model of every entity is a ghost twin whose fields are sequences.

use vstd::prelude::*;

verus! {

/// A related entity of one of four recognized kinds, attached to a Thing.
pub struct LinkData {
    pub bgg_id: Vec<u8>,
    pub name: Vec<u8>,
}

/// Ghost twin of `LinkData`.
pub struct GLink {
    pub bgg_id: Seq<u8>,
    pub name: Seq<u8>,
}

impl View for LinkData {
    type V = GLink;

    open spec fn view(&self) -> GLink {
        GLink { bgg_id: self.bgg_id@, name: self.name@ }
    }
}

/// The view of an optional byte string.
pub open spec fn opt_bytes(o: Option<Vec<u8>>) -> Option<Seq<u8>> {
    match o {
        Some(v) => Some(v@),
        None => None,
    }
}

/// The view of a list of byte strings.
pub open spec fn names_view(s: Seq<Vec<u8>>) -> Seq<Seq<u8>> {
    s.map_values(|x: Vec<u8>| x@)
}

/// The view of a list of links.
pub open spec fn links_view(s: Seq<LinkData>) -> Seq<GLink> {
    s.map_values(|l: LinkData| l@)
}

impl Clone for LinkData {
    fn clone(&self) -> (r: Self)
        ensures
            r@ == self@,
    {
        LinkData { bgg_id: self.bgg_id.clone(), name: self.name.clone() }
    }
}

/// The scalar and text attributes of a Thing, as stored in its own row.
pub struct ThingData {
    pub bgg_id: Vec<u8>,
    pub kind: Vec<u8>,
    pub thumbnail: Option<Vec<u8>>,
    pub image: Option<Vec<u8>>,
    pub name: Option<Vec<u8>>,
    pub altnames: Vec<Vec<u8>>,
    pub description: Option<Vec<u8>>,
    pub year_published: Option<i32>,
    pub min_players: Option<i32>,
    pub max_players: Option<i32>,
    pub min_duration: Option<i32>,
    pub max_duration: Option<i32>,
    pub duration: Option<i32>,
}

/// Ghost twin of `ThingData`.
pub struct GThingData {
    pub bgg_id: Seq<u8>,
    pub kind: Seq<u8>,
    pub thumbnail: Option<Seq<u8>>,
    pub image: Option<Seq<u8>>,
    pub name: Option<Seq<u8>>,
    pub altnames: Seq<Seq<u8>>,
    pub description: Option<Seq<u8>>,
    pub year_published: Option<i32>,
    pub min_players: Option<i32>,
    pub max_players: Option<i32>,
    pub min_duration: Option<i32>,
    pub max_duration: Option<i32>,
    pub duration: Option<i32>,
}

impl View for ThingData {
    type V = GThingData;

    open spec fn view(&self) -> GThingData {
        GThingData {
            bgg_id: self.bgg_id@,
            kind: self.kind@,
            thumbnail: opt_bytes(self.thumbnail),
            image: opt_bytes(self.image),
            name: opt_bytes(self.name),
            altnames: names_view(self.altnames@),
            description: opt_bytes(self.description),
            year_published: self.year_published,
            min_players: self.min_players,
            max_players: self.max_players,
            min_duration: self.min_duration,
            max_duration: self.max_duration,
            duration: self.duration,
        }
    }
}

/// The four per-kind lists of Links parsed alongside a Thing.
pub struct ThingLinks {
    pub categories: Vec<LinkData>,
    pub families: Vec<LinkData>,
    pub designers: Vec<LinkData>,
    pub publishers: Vec<LinkData>,
}

/// Ghost twin of `ThingLinks`.
pub struct GLinks {
    pub categories: Seq<GLink>,
    pub families: Seq<GLink>,
    pub designers: Seq<GLink>,
    pub publishers: Seq<GLink>,
}

impl View for ThingLinks {
    type V = GLinks;

    open spec fn view(&self) -> GLinks {
        GLinks {
            categories: links_view(self.categories@),
            families: links_view(self.families@),
            designers: links_view(self.designers@),
            publishers: links_view(self.publishers@),
        }
    }
}

/// One fully parsed entity: its own attributes plus its related links.
pub struct BggThing {
    pub data: ThingData,
    pub links: ThingLinks,
}

/// Ghost twin of `BggThing`.
pub struct GThing {
    pub data: GThingData,
    pub links: GLinks,
}

impl View for BggThing {
    type V = GThing;

    open spec fn view(&self) -> GThing {
        GThing { data: self.data@, links: self.links@ }
    }
}

impl BggThing {
    /// Discards the link lists and keeps the Thing's own attributes,
    /// as handed back to search callers.
    pub fn into_data(self) -> (r: ThingData)
        ensures
            r@ == self@.data,
    {
        self.data
    }
}

/// One `{id, kind}` candidate from the upstream search payload.
pub struct SearchItem {
    pub id: Vec<u8>,
    pub kind: Vec<u8>,
}

/// Ghost twin of `SearchItem`.
pub struct GSearchItem {
    pub id: Seq<u8>,
    pub kind: Seq<u8>,
}

impl View for SearchItem {
    type V = GSearchItem;

    open spec fn view(&self) -> GSearchItem {
        GSearchItem { id: self.id@, kind: self.kind@ }
    }
}

} // verus!
