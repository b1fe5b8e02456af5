//! An exact relational model of the data store beneath the pipeline: one
//! Thing table keyed by external id, one Link table keyed by (kind,
//! external id), one Association table of unique (thing, kind, link)
//! triples. Every write is insert-if-absent, so persisting is idempotent:
//! a Thing whose external id is already stored changes nothing.
//!
//! Row ids are row positions, which keeps them unique by construction.

use vstd::prelude::*;

use crate::batching::{batch_ids, batches_view, chunks_of};
use crate::domain::{names_view, BggThing, GLink, GThing, GThingData, LinkData, ThingData};
use crate::xml::{bytes_eq, subvec};

verus! {

/// The store-side cap on how many ids one point lookup may ask for.
pub const MAX_IDS: usize = 1000;

/// One of the four relational link kinds.
#[derive(Clone, Copy, PartialEq, Eq, Structural, Debug)]
pub enum LinkKind {
    Category,
    Family,
    Designer,
    Publisher,
}

/// A stored Thing row.
pub struct ThingRow {
    pub thing_id: u64,
    pub data: ThingData,
}

/// Ghost twin of `ThingRow`.
pub struct GThingRow {
    pub thing_id: u64,
    pub data: GThingData,
}

impl View for ThingRow {
    type V = GThingRow;

    open spec fn view(&self) -> GThingRow {
        GThingRow { thing_id: self.thing_id, data: self.data@ }
    }
}

/// A stored Link row.
pub struct LinkRow {
    pub link_id: u64,
    pub kind: LinkKind,
    pub bgg_id: Vec<u8>,
    pub name: Vec<u8>,
}

/// Ghost twin of `LinkRow`.
pub struct GLinkRow {
    pub link_id: u64,
    pub kind: LinkKind,
    pub bgg_id: Seq<u8>,
    pub name: Seq<u8>,
}

impl View for LinkRow {
    type V = GLinkRow;

    open spec fn view(&self) -> GLinkRow {
        GLinkRow { link_id: self.link_id, kind: self.kind, bgg_id: self.bgg_id@, name: self.name@ }
    }
}

/// A stored Association row.
#[derive(Clone, Copy, PartialEq, Eq, Structural, Debug)]
pub struct AssocRow {
    pub thing_id: u64,
    pub kind: LinkKind,
    pub link_id: u64,
}

/// The whole store.
pub struct Store {
    pub things: Vec<ThingRow>,
    pub links: Vec<LinkRow>,
    pub assocs: Vec<AssocRow>,
}

/// Ghost twin of `Store`.
pub struct GStore {
    pub things: Seq<GThingRow>,
    pub links: Seq<GLinkRow>,
    pub assocs: Seq<AssocRow>,
}

pub open spec fn thing_rows_view(s: Seq<ThingRow>) -> Seq<GThingRow> {
    s.map_values(|r: ThingRow| r@)
}

pub open spec fn link_rows_view(s: Seq<LinkRow>) -> Seq<GLinkRow> {
    s.map_values(|r: LinkRow| r@)
}

impl View for Store {
    type V = GStore;

    open spec fn view(&self) -> GStore {
        GStore {
            things: thing_rows_view(self.things@),
            links: link_rows_view(self.links@),
            assocs: self.assocs@,
        }
    }
}

/// Whether a Thing with this external id is stored.
pub open spec fn contains_bgg(things: Seq<GThingRow>, id: Seq<u8>) -> bool {
    exists|i: int| 0 <= i < things.len() && (#[trigger] things[i]).data.bgg_id == id
}

/// No name occurs twice.
pub open spec fn unique_names(s: Seq<Seq<u8>>) -> bool {
    forall|i: int, j: int| 0 <= i < j < s.len() ==> s[i] != s[j]
}

/// Index of the first Link row with this key at or after `from`; the table
/// length when there is none.
pub open spec fn link_index(links: Seq<GLinkRow>, from: int, kind: LinkKind, id: Seq<u8>) -> int
    decreases links.len() - from,
{
    if !(0 <= from < links.len()) {
        links.len() as int
    } else if links[from].kind == kind && links[from].bgg_id == id {
        from
    } else {
        link_index(links, from + 1, kind, id)
    }
}

pub proof fn lemma_link_index(links: Seq<GLinkRow>, from: int, kind: LinkKind, id: Seq<u8>)
    requires
        0 <= from <= links.len(),
    ensures
        from <= link_index(links, from, kind, id) <= links.len(),
        link_index(links, from, kind, id) < links.len() ==> links[link_index(
            links,
            from,
            kind,
            id,
        )].kind == kind && links[link_index(links, from, kind, id)].bgg_id == id,
        forall|j: int|
            from <= j < link_index(links, from, kind, id) ==> !((#[trigger] links[j]).kind == kind
                && links[j].bgg_id == id),
    decreases links.len() - from,
{
    if from < links.len() && !(links[from].kind == kind && links[from].bgg_id == id) {
        lemma_link_index(links, from + 1, kind, id);
    }
}

/// The Link table is well formed: row ids are row positions and the
/// (kind, external id) key is unique.
pub open spec fn links_wf(links: Seq<GLinkRow>) -> bool {
    &&& forall|i: int| 0 <= i < links.len() ==> (#[trigger] links[i]).link_id == i as u64
    &&& forall|i: int, j: int|
        0 <= i < j < links.len() ==> !(links[i].kind == links[j].kind && (#[trigger] links[i]).bgg_id
            == (#[trigger] links[j]).bgg_id)
}

impl GStore {
    /// The store's invariant: thing ids and link ids are row positions,
    /// external ids are unique per table, alternate names are unique per
    /// Thing, association triples are unique and refer to existing rows.
    pub open spec fn wf(self) -> bool {
        &&& forall|i: int|
            0 <= i < self.things.len() ==> (#[trigger] self.things[i]).thing_id == i as u64
        &&& forall|i: int, j: int|
            0 <= i < j < self.things.len() ==> (#[trigger] self.things[i]).data.bgg_id != (
            #[trigger] self.things[j]).data.bgg_id
        &&& forall|i: int|
            0 <= i < self.things.len() ==> unique_names(
                (#[trigger] self.things[i]).data.altnames,
            )
        &&& links_wf(self.links)
        &&& forall|i: int, j: int| 0 <= i < j < self.assocs.len() ==> self.assocs[i] != self.assocs[j]
        &&& forall|i: int|
            0 <= i < self.assocs.len() ==> ((#[trigger] self.assocs[i]).thing_id as int)
                < self.things.len() && (self.assocs[i].link_id as int) < self.links.len()
    }
}

/// First occurrences of the names, in order: how insert-if-absent leaves a
/// name list.
pub open spec fn dedup(s: Seq<Seq<u8>>) -> Seq<Seq<u8>>
    decreases s.len(),
{
    if s.len() == 0 {
        s
    } else {
        let pre = dedup(s.drop_last());
        if pre.contains(s.last()) {
            pre
        } else {
            pre.push(s.last())
        }
    }
}

pub proof fn lemma_dedup_unique(s: Seq<Seq<u8>>)
    ensures
        unique_names(dedup(s)),
        forall|x: Seq<u8>| dedup(s).contains(x) <==> s.contains(x),
    decreases s.len(),
{
    if s.len() > 0 {
        lemma_dedup_unique(s.drop_last());
        let pre = dedup(s.drop_last());
        assert forall|x: Seq<u8>| dedup(s).contains(x) <==> s.contains(x) by {
            if s.contains(x) {
                let k = choose|k: int| 0 <= k < s.len() && s[k] == x;
                if k < s.len() - 1 {
                    assert(s.drop_last()[k] == x);
                    assert(s.drop_last().contains(x));
                } else {
                    assert(s.last() == x);
                }
                if pre.contains(x) {
                    let m = choose|m: int| 0 <= m < pre.len() && pre[m] == x;
                    if !pre.contains(s.last()) {
                        assert(dedup(s)[m] == x);
                        assert(dedup(s).contains(x));
                    }
                } else {
                    assert(x == s.last());
                    assert(dedup(s).last() == x);
                }
            }
            if dedup(s).contains(x) {
                let m = choose|m: int| 0 <= m < dedup(s).len() && dedup(s)[m] == x;
                if pre.contains(s.last()) {
                    assert(pre.contains(x));
                    assert(s.drop_last().contains(x));
                    let k = choose|k: int| 0 <= k < s.drop_last().len() && s.drop_last()[k] == x;
                    assert(s[k] == x);
                } else {
                    if m < pre.len() {
                        assert(pre[m] == x);
                        assert(pre.contains(x));
                        assert(s.drop_last().contains(x));
                        let k = choose|k: int|
                            0 <= k < s.drop_last().len() && s.drop_last()[k] == x;
                        assert(s[k] == x);
                    } else {
                        assert(x == s.last());
                        assert(s[s.len() - 1] == x);
                    }
                }
            }
        }
    }
}

/// A Thing's own row data as stored: the alternate names deduplicated by
/// the per-name insert-if-absent.
pub open spec fn stored_data(d: GThingData) -> GThingData {
    GThingData { altnames: dedup(d.altnames), ..d }
}

/// A kind attached to every link of a list.
pub open spec fn tag_all(k: LinkKind, ls: Seq<GLink>) -> Seq<(LinkKind, GLink)> {
    ls.map_values(|l: GLink| (k, l))
}

/// All links of a Thing, each tagged with its kind, in document order:
/// categories, then families, designers, publishers.
pub open spec fn tagged_links(t: GThing) -> Seq<(LinkKind, GLink)> {
    tag_all(LinkKind::Category, t.links.categories) + tag_all(LinkKind::Family, t.links.families)
        + tag_all(LinkKind::Designer, t.links.designers) + tag_all(
        LinkKind::Publisher,
        t.links.publishers,
    )
}

/// The Link table after upserting each tagged link in order: insert if the
/// (kind, external id) key is absent, else keep the existing row — an
/// earlier name wins, a re-sighted name is not refreshed.
pub open spec fn upsert_links(links: Seq<GLinkRow>, ls: Seq<(LinkKind, GLink)>) -> Seq<GLinkRow>
    decreases ls.len(),
{
    if ls.len() == 0 {
        links
    } else {
        let k = ls[0].0;
        let l = ls[0].1;
        let links2 = if link_index(links, 0, k, l.bgg_id) < links.len() {
            links
        } else {
            links.push(
                GLinkRow { link_id: links.len() as u64, kind: k, bgg_id: l.bgg_id, name: l.name },
            )
        };
        upsert_links(links2, ls.drop_first())
    }
}

/// The Association table after associating the Thing with every tagged
/// link, against the upserted Link table: one row per (thing, kind, link),
/// insert-if-absent.
pub open spec fn add_assocs(
    assocs: Seq<AssocRow>,
    links2: Seq<GLinkRow>,
    tid: u64,
    ls: Seq<(LinkKind, GLink)>,
) -> Seq<AssocRow>
    decreases ls.len(),
{
    if ls.len() == 0 {
        assocs
    } else {
        let k = ls[0].0;
        let l = ls[0].1;
        let idx = link_index(links2, 0, k, l.bgg_id);
        let assocs2 = if idx < links2.len() {
            let a = AssocRow { thing_id: tid, kind: k, link_id: links2[idx].link_id };
            if assocs.contains(a) {
                assocs
            } else {
                assocs.push(a)
            }
        } else {
            assocs
        };
        add_assocs(assocs2, links2, tid, ls.drop_first())
    }
}

pub proof fn lemma_upsert_links_wf(links: Seq<GLinkRow>, ls: Seq<(LinkKind, GLink)>)
    requires
        links_wf(links),
    ensures
        links_wf(upsert_links(links, ls)),
        upsert_links(links, ls).len() >= links.len(),
        forall|i: int| 0 <= i < links.len() ==> #[trigger] upsert_links(links, ls)[i] == links[i],
    decreases ls.len(),
{
    if ls.len() > 0 {
        let k = ls[0].0;
        let l = ls[0].1;
        lemma_link_index(links, 0, k, l.bgg_id);
        if link_index(links, 0, k, l.bgg_id) < links.len() {
            lemma_upsert_links_wf(links, ls.drop_first());
        } else {
            let row = GLinkRow {
                link_id: links.len() as u64,
                kind: k,
                bgg_id: l.bgg_id,
                name: l.name,
            };
            let links2 = links.push(row);
            assert(links_wf(links2)) by {
                assert(forall|i: int|
                    0 <= i < links2.len() ==> (#[trigger] links2[i]).link_id == i as u64);
                assert forall|i: int, j: int| 0 <= i < j < links2.len() implies !(links2[i].kind
                    == links2[j].kind && (#[trigger] links2[i]).bgg_id == (
                #[trigger] links2[j]).bgg_id) by {
                    if j == links.len() {
                        assert(links2[j] == row);
                        assert(links2[i] == links[i]);
                    }
                }
            }
            lemma_upsert_links_wf(links2, ls.drop_first());
        }
    }
}

pub proof fn lemma_add_assocs_wf(
    assocs: Seq<AssocRow>,
    links2: Seq<GLinkRow>,
    tid: u64,
    ls: Seq<(LinkKind, GLink)>,
)
    requires
        links_wf(links2),
        forall|i: int, j: int| 0 <= i < j < assocs.len() ==> assocs[i] != assocs[j],
    ensures
        forall|i: int, j: int|
            0 <= i < j < add_assocs(assocs, links2, tid, ls).len() ==> add_assocs(
                assocs,
                links2,
                tid,
                ls,
            )[i] != add_assocs(assocs, links2, tid, ls)[j],
        forall|i: int|
            0 <= i < add_assocs(assocs, links2, tid, ls).len() ==> (i < assocs.len() && (
            #[trigger] add_assocs(assocs, links2, tid, ls)[i]) == assocs[i]) || (add_assocs(
                assocs,
                links2,
                tid,
                ls,
            )[i].thing_id == tid && (add_assocs(assocs, links2, tid, ls)[i].link_id as int)
                < links2.len()),
    decreases ls.len(),
{
    if ls.len() > 0 {
        let k = ls[0].0;
        let l = ls[0].1;
        let idx = link_index(links2, 0, k, l.bgg_id);
        lemma_link_index(links2, 0, k, l.bgg_id);
        if idx < links2.len() {
            let a = AssocRow { thing_id: tid, kind: k, link_id: links2[idx].link_id };
            if assocs.contains(a) {
                lemma_add_assocs_wf(assocs, links2, tid, ls.drop_first());
            } else {
                let assocs2 = assocs.push(a);
                assert forall|i: int, j: int| 0 <= i < j < assocs2.len() implies assocs2[i]
                    != assocs2[j] by {
                    if j == assocs.len() {
                        assert(assocs2[i] == assocs[i]);
                        if assocs2[i] == a {
                            assert(assocs.contains(a));
                        }
                    }
                }
                lemma_add_assocs_wf(assocs2, links2, tid, ls.drop_first());
            }
        } else {
            lemma_add_assocs_wf(assocs, links2, tid, ls.drop_first());
        }
    }
}

fn copy_bytes(v: &Vec<u8>) -> (r: Vec<u8>)
    ensures
        r@ == v@,
{
    let r = subvec(v, 0, v.len());
    proof {
        assert(v@.subrange(0, v@.len() as int) =~= v@);
    }
    r
}

fn copy_opt(v: &Option<Vec<u8>>) -> (r: Option<Vec<u8>>)
    ensures
        crate::domain::opt_bytes(r) == crate::domain::opt_bytes(*v),
{
    match v {
        Some(b) => Some(copy_bytes(b)),
        None => None,
    }
}

#[verifier::loop_isolation(false)]
fn copy_names(v: &Vec<Vec<u8>>) -> (r: Vec<Vec<u8>>)
    ensures
        names_view(r@) == names_view(v@),
{
    let mut r: Vec<Vec<u8>> = Vec::new();
    let mut i: usize = 0;
    proof {
        assert(names_view(r@) =~= names_view(v@).subrange(0, 0));
    }
    while i < v.len()
        invariant
            i <= v@.len(),
            names_view(r@) == names_view(v@).subrange(0, i as int),
        decreases v@.len() - i,
    {
        let c = copy_bytes(&v[i]);
        proof {
            assert(c@ == v@[i as int]@);
        }
        r.push(c);
        proof {
            assert(names_view(r@) =~= names_view(v@).subrange(0, i + 1 as int));
        }
        i = i + 1;
    }
    proof {
        assert(names_view(v@).subrange(0, v@.len() as int) =~= names_view(v@));
    }
    r
}

/// An independent copy of a Thing's own row data.
pub fn copy_thing_data(d: &ThingData) -> (r: ThingData)
    ensures
        r@ == d@,
{
    ThingData {
        bgg_id: copy_bytes(&d.bgg_id),
        kind: copy_bytes(&d.kind),
        thumbnail: copy_opt(&d.thumbnail),
        image: copy_opt(&d.image),
        name: copy_opt(&d.name),
        altnames: copy_names(&d.altnames),
        description: copy_opt(&d.description),
        year_published: d.year_published,
        min_players: d.min_players,
        max_players: d.max_players,
        min_duration: d.min_duration,
        max_duration: d.max_duration,
        duration: d.duration,
    }
}

/// Whether a stored Thing carries this external id.
#[verifier::loop_isolation(false)]
pub fn contains_bgg_exec(things: &Vec<ThingRow>, id: &Vec<u8>) -> (r: bool)
    ensures
        r == contains_bgg(thing_rows_view(things@), id@),
{
    let ghost v = thing_rows_view(things@);
    let mut i: usize = 0;
    while i < things.len()
        invariant
            i <= things@.len(),
            forall|k: int| 0 <= k < i ==> (#[trigger] v[k]).data.bgg_id != id@,
        decreases things@.len() - i,
    {
        proof {
            assert(v[i as int] == things@[i as int]@);
        }
        if bytes_eq(things[i].data.bgg_id.as_slice(), id.as_slice()) {
            return true;
        }
        i = i + 1;
    }
    false
}

fn contains_name(names: &Vec<Vec<u8>>, x: &Vec<u8>) -> (r: bool)
    ensures
        r == names_view(names@).contains(x@),
{
    let ghost v = names_view(names@);
    let mut i: usize = 0;
    while i < names.len()
        invariant
            i <= names@.len(),
            v == names_view(names@),
            forall|k: int| 0 <= k < i ==> v[k] != x@,
        decreases names@.len() - i,
    {
        proof {
            assert(v[i as int] == names@[i as int]@);
        }
        if bytes_eq(names[i].as_slice(), x.as_slice()) {
            assert(v.contains(x@));
            return true;
        }
        i = i + 1;
    }
    proof {
        if v.contains(x@) {
            let k = choose|k: int| 0 <= k < v.len() && v[k] == x@;
        }
    }
    false
}

/// Executable counterpart of `dedup`: first occurrences, in order.
#[verifier::loop_isolation(false)]
fn dedup_exec(v: &Vec<Vec<u8>>) -> (r: Vec<Vec<u8>>)
    ensures
        names_view(r@) == dedup(names_view(v@)),
{
    let ghost full = names_view(v@);
    let mut out: Vec<Vec<u8>> = Vec::new();
    let mut i: usize = 0;
    proof {
        assert(names_view(out@) =~= dedup(full.subrange(0, 0)));
    }
    while i < v.len()
        invariant
            i <= v@.len(),
            names_view(out@) == dedup(full.subrange(0, i as int)),
        decreases v@.len() - i,
    {
        let ghost pre = full.subrange(0, i as int);
        proof {
            assert(full.subrange(0, i + 1 as int).drop_last() =~= pre);
            assert(full.subrange(0, i + 1 as int).last() == full[i as int]);
            assert(full[i as int] == v@[i as int]@);
        }
        if !contains_name(&out, &v[i]) {
            out.push(copy_bytes(&v[i]));
            proof {
                assert(names_view(out@) =~= dedup(pre).push(full[i as int]));
            }
        }
        i = i + 1;
    }
    proof {
        assert(full.subrange(0, full.len() as int) =~= full);
    }
    out
}

/// Executable counterpart of `link_index` from the table's start.
#[verifier::loop_isolation(false)]
fn link_index_at(links: &Vec<LinkRow>, kind: LinkKind, id: &Vec<u8>) -> (r: usize)
    ensures
        r == link_index(link_rows_view(links@), 0, kind, id@),
        r <= links@.len(),
{
    let ghost v = link_rows_view(links@);
    proof {
        lemma_link_index(v, 0, kind, id@);
    }
    let mut i: usize = 0;
    while i < links.len()
        invariant
            i <= links@.len(),
            link_index(v, 0, kind, id@) == link_index(v, i as int, kind, id@),
        decreases links@.len() - i,
    {
        proof {
            assert(v[i as int] == links@[i as int]@);
        }
        let hit = links[i].kind == kind && bytes_eq(links[i].bgg_id.as_slice(), id.as_slice());
        if hit {
            return i;
        }
        i = i + 1;
    }
    links.len()
}

/// The view of a tagged link list.
pub open spec fn tags_view(s: Seq<(LinkKind, LinkData)>) -> Seq<(LinkKind, GLink)> {
    s.map_values(|p: (LinkKind, LinkData)| (p.0, p.1@))
}

#[verifier::loop_isolation(false)]
fn push_tagged(out: &mut Vec<(LinkKind, LinkData)>, kind: LinkKind, ls: &Vec<LinkData>)
    ensures
        tags_view(final(out)@) == tags_view(old(out)@) + tag_all(
            kind,
            crate::domain::links_view(ls@),
        ),
{
    let ghost base = tags_view(out@);
    let ghost lsv = crate::domain::links_view(ls@);
    let mut i: usize = 0;
    proof {
        assert(tags_view(out@) =~= base + tag_all(kind, lsv).subrange(0, 0));
    }
    while i < ls.len()
        invariant
            i <= ls@.len(),
            tags_view(out@) == base + tag_all(kind, lsv).subrange(0, i as int),
        decreases ls@.len() - i,
    {
        let l = LinkData { bgg_id: copy_bytes(&ls[i].bgg_id), name: copy_bytes(&ls[i].name) };
        proof {
            assert(lsv[i as int] == ls@[i as int]@);
            assert(l@ == ls@[i as int]@);
        }
        let ghost gl = l@;
        let ghost pre_out = out@;
        out.push((kind, l));
        proof {
            assert(out@ == pre_out.push((kind, l)));
            assert forall|k: int| 0 <= k < out@.len() implies tags_view(out@)[k] == (base
                + tag_all(kind, lsv).subrange(0, i + 1 as int))[k] by {
                if k < pre_out.len() {
                    assert(out@[k] == pre_out[k]);
                    assert(tags_view(out@)[k] == tags_view(pre_out)[k]);
                    assert(tags_view(pre_out)[k] == (base + tag_all(kind, lsv).subrange(
                        0,
                        i as int,
                    ))[k]);
                } else {
                    assert(out@[k].0 == kind && out@[k].1@ == gl);
                    assert(tag_all(kind, lsv).subrange(0, i + 1 as int)[i as int] == (
                    kind,
                    lsv[i as int],
                    ));
                }
            }
            assert(tags_view(out@).len() == base.len() + i + 1);
            assert(tags_view(out@) =~= base + tag_all(kind, lsv).subrange(0, i + 1 as int));
        }
        i = i + 1;
    }
    proof {
        assert(tag_all(kind, lsv).subrange(0, lsv.len() as int) =~= tag_all(kind, lsv));
    }
}

/// All links of a Thing, tagged with their kinds, in document order.
fn tagged_links_vec(t: &BggThing) -> (r: Vec<(LinkKind, LinkData)>)
    ensures
        tags_view(r@) == tagged_links(t@),
{
    let mut out: Vec<(LinkKind, LinkData)> = Vec::new();
    proof {
        assert(tags_view(out@) =~= Seq::<(LinkKind, GLink)>::empty());
    }
    push_tagged(&mut out, LinkKind::Category, &t.links.categories);
    push_tagged(&mut out, LinkKind::Family, &t.links.families);
    push_tagged(&mut out, LinkKind::Designer, &t.links.designers);
    push_tagged(&mut out, LinkKind::Publisher, &t.links.publishers);
    proof {
        assert(tags_view(out@) =~= tagged_links(t@));
    }
    out
}

fn contains_assoc(assocs: &Vec<AssocRow>, a: AssocRow) -> (r: bool)
    ensures
        r == assocs@.contains(a),
{
    let mut i: usize = 0;
    while i < assocs.len()
        invariant
            i <= assocs@.len(),
            forall|k: int| 0 <= k < i ==> assocs@[k] != a,
        decreases assocs@.len() - i,
    {
        if assocs[i] == a {
            assert(assocs@.contains(a));
            return true;
        }
        i = i + 1;
    }
    proof {
        if assocs@.contains(a) {
            let k = choose|k: int| 0 <= k < assocs@.len() && assocs@[k] == a;
        }
    }
    false
}

impl BggThing {
    /// Stores this Thing in one unit: its own row keyed by external id, its
    /// alternate names, its links upserted by (kind, external id), and one
    /// association per link — each insert-if-absent. When a Thing with this
    /// external id is already stored, nothing at all changes and the call
    /// reports a skip: persisting the same Thing twice leaves exactly one
    /// row of everything. Associations are created against existing Link
    /// rows as well as fresh ones.
    #[verifier::loop_isolation(false)]
    pub fn add_new(&self, store: &mut Store) -> (r: Option<u64>)
        requires
            old(store)@.wf(),
        ensures
            final(store)@.wf(),
            contains_bgg(old(store)@.things, self@.data.bgg_id) ==> r is None && final(store)@
                == old(store)@,
            !contains_bgg(old(store)@.things, self@.data.bgg_id) ==> r == Some(
                old(store)@.things.len() as u64,
            ) && final(store)@.things == old(store)@.things.push(
                GThingRow {
                    thing_id: old(store)@.things.len() as u64,
                    data: stored_data(self@.data),
                },
            ) && final(store)@.links == upsert_links(old(store)@.links, tagged_links(self@))
                && final(store)@.assocs == add_assocs(
                old(store)@.assocs,
                final(store)@.links,
                old(store)@.things.len() as u64,
                tagged_links(self@),
            ),
    {
        let ghost st0 = store@;
        if contains_bgg_exec(&store.things, &self.data.bgg_id) {
            return None;
        }
        // The Thing row, with the alternate names deduplicated as the
        // per-name insert-if-absent leaves them.
        let mut data = copy_thing_data(&self.data);
        data.altnames = dedup_exec(&self.data.altnames);
        let tid = store.things.len() as u64;
        let row = ThingRow { thing_id: tid, data };
        proof {
            assert(row@.data == stored_data(self@.data));
        }
        store.things.push(row);
        proof {
            assert(thing_rows_view(store.things@) =~= st0.things.push(row@));
        }
        // Upsert the Link rows.
        let tags = tagged_links_vec(self);
        let ghost tgs = tags_view(tags@);
        let mut i: usize = 0;
        proof {
            assert(tgs.subrange(0, tgs.len() as int) =~= tgs);
        }
        while i < tags.len()
            invariant
                i <= tags@.len(),
                upsert_links(st0.links, tgs) == upsert_links(
                    link_rows_view(store.links@),
                    tgs.subrange(i as int, tgs.len() as int),
                ),
                store.things@ == old(store).things@.push(row),
                store.assocs@ == st0.assocs,
            decreases tags@.len() - i,
        {
            let ghost suf = tgs.subrange(i as int, tgs.len() as int);
            proof {
                assert(suf[0] == tgs[i as int]);
                assert(suf.drop_first() =~= tgs.subrange(i + 1 as int, tgs.len() as int));
                assert(tgs[i as int] == (tags@[i as int].0, tags@[i as int].1@));
            }
            let idx = link_index_at(&store.links, tags[i].0, &tags[i].1.bgg_id);
            if idx >= store.links.len() {
                let lrow = LinkRow {
                    link_id: store.links.len() as u64,
                    kind: tags[i].0,
                    bgg_id: copy_bytes(&tags[i].1.bgg_id),
                    name: copy_bytes(&tags[i].1.name),
                };
                let ghost lv = link_rows_view(store.links@);
                store.links.push(lrow);
                proof {
                    assert(link_rows_view(store.links@) =~= lv.push(
                        GLinkRow {
                            link_id: lv.len() as u64,
                            kind: tgs[i as int].0,
                            bgg_id: tgs[i as int].1.bgg_id,
                            name: tgs[i as int].1.name,
                        },
                    ));
                }
            }
            i = i + 1;
        }
        proof {
            assert(tgs.subrange(tgs.len() as int, tgs.len() as int).len() == 0);
            assert(link_rows_view(store.links@) == upsert_links(st0.links, tgs));
        }
        // Associate the Thing with every link, against the upserted table.
        let ghost lfinal = link_rows_view(store.links@);
        let mut j: usize = 0;
        proof {
            assert(tgs.subrange(0, tgs.len() as int) =~= tgs);
        }
        while j < tags.len()
            invariant
                j <= tags@.len(),
                link_rows_view(store.links@) == lfinal,
                add_assocs(st0.assocs, lfinal, tid, tgs) == add_assocs(
                    store.assocs@,
                    lfinal,
                    tid,
                    tgs.subrange(j as int, tgs.len() as int),
                ),
                store.things@ == old(store).things@.push(row),
                tid == st0.things.len() as u64,
            decreases tags@.len() - j,
        {
            let ghost suf = tgs.subrange(j as int, tgs.len() as int);
            proof {
                assert(suf[0] == tgs[j as int]);
                assert(suf.drop_first() =~= tgs.subrange(j + 1 as int, tgs.len() as int));
                assert(tgs[j as int] == (tags@[j as int].0, tags@[j as int].1@));
            }
            let idx = link_index_at(&store.links, tags[j].0, &tags[j].1.bgg_id);
            if idx < store.links.len() {
                proof {
                    assert(lfinal[idx as int] == store.links@[idx as int]@);
                }
                let a = AssocRow { thing_id: tid, kind: tags[j].0, link_id: store.links[idx].link_id };
                if !contains_assoc(&store.assocs, a) {
                    store.assocs.push(a);
                }
            }
            j = j + 1;
        }
        proof {
            assert(tgs.subrange(tgs.len() as int, tgs.len() as int).len() == 0);
            assert(store.assocs@ == add_assocs(st0.assocs, lfinal, tid, tgs));
            // The new store satisfies the invariant.
            let stf = store@;
            assert(stf.things == st0.things.push(row@));
            assert forall|a: int|
                0 <= a < stf.things.len() implies (#[trigger] stf.things[a]).thing_id == a as u64
                && unique_names(stf.things[a].data.altnames) by {
                if a < st0.things.len() {
                    assert(stf.things[a] == st0.things[a]);
                } else {
                    assert(stf.things[a] == row@);
                    lemma_dedup_unique(self@.data.altnames);
                }
            }
            assert forall|a: int, b: int| 0 <= a < b < stf.things.len() implies (
            #[trigger] stf.things[a]).data.bgg_id != (#[trigger] stf.things[b]).data.bgg_id by {
                if b == st0.things.len() {
                    assert(stf.things[b] == row@);
                    assert(stf.things[a] == st0.things[a]);
                    if st0.things[a].data.bgg_id == self@.data.bgg_id {
                        assert(contains_bgg(st0.things, self@.data.bgg_id));
                    }
                }
            }
            lemma_upsert_links_wf(st0.links, tgs);
            lemma_add_assocs_wf(st0.assocs, lfinal, tid, tgs);
            assert forall|a: int|
                0 <= a < stf.assocs.len() implies ((#[trigger] stf.assocs[a]).thing_id as int)
                < stf.things.len() && (stf.assocs[a].link_id as int) < stf.links.len() by {
                if a < st0.assocs.len() && stf.assocs[a] == st0.assocs[a] {
                } else {
                }
            }
        }
        Some(tid)
    }
}

/// The rows of a lookup for one chunk of ids: every stored Thing whose
/// external id is in the chunk, in store order.
pub open spec fn kept_rows(things: Seq<GThingRow>, chunk: Seq<Seq<u8>>) -> Seq<GThingRow>
    decreases things.len(),
{
    if things.len() == 0 {
        Seq::empty()
    } else {
        let pre = kept_rows(things.drop_last(), chunk);
        if chunk.contains(things.last().data.bgg_id) {
            pre.push(things.last())
        } else {
            pre
        }
    }
}

/// The rows of the chunked lookups, concatenated in chunk order.
pub open spec fn lookup_chunks(things: Seq<GThingRow>, chunks: Seq<Seq<Seq<u8>>>) -> Seq<GThingRow>
    decreases chunks.len(),
{
    if chunks.len() == 0 {
        Seq::empty()
    } else {
        kept_rows(things, chunks[0]) + lookup_chunks(things, chunks.drop_first())
    }
}

/// What a point lookup of `ids` returns: the store is asked in chunks of at
/// most `MAX_IDS` ids, and each chunk yields the matching rows.
pub open spec fn lookup_spec(things: Seq<GThingRow>, ids: Seq<Seq<u8>>) -> Seq<GThingRow> {
    lookup_chunks(things, chunks_of(ids, MAX_IDS as int))
}

pub open spec fn datas_of(rows: Seq<GThingRow>) -> Seq<GThingData> {
    rows.map_values(|r: GThingRow| r.data)
}

/// The view of a Thing-data list.
pub open spec fn datas_view(s: Seq<ThingData>) -> Seq<GThingData> {
    s.map_values(|d: ThingData| d@)
}

/// Whether some found row carries this external id.
pub open spec fn found_has(found: Seq<GThingData>, id: Seq<u8>) -> bool {
    exists|k: int| 0 <= k < found.len() && (#[trigger] found[k]).bgg_id == id
}

/// The ids for which the lookup found nothing, in input order, duplicates
/// kept: each id is checked against the found rows independently.
pub open spec fn needed_spec(found: Seq<GThingData>, ids: Seq<Seq<u8>>) -> Seq<Seq<u8>>
    decreases ids.len(),
{
    if ids.len() == 0 {
        Seq::empty()
    } else {
        let pre = needed_spec(found, ids.drop_last());
        if found_has(found, ids.last()) {
            pre
        } else {
            pre.push(ids.last())
        }
    }
}

fn copy_row(r: &ThingRow) -> (c: ThingRow)
    ensures
        c@ == r@,
{
    ThingRow { thing_id: r.thing_id, data: copy_thing_data(&r.data) }
}

impl BggThing {
    /// The stored Things whose external id is among `bgg_ids`: the store is
    /// asked in chunks of at most `MAX_IDS` ids, a hard store-side limit,
    /// and the matching rows of each chunk are returned in store order.
    #[verifier::loop_isolation(false)]
    pub fn get_for_bgg_ids(store: &Store, bgg_ids: &Vec<Vec<u8>>) -> (r: Vec<ThingRow>)
        ensures
            thing_rows_view(r@) == lookup_spec(store@.things, names_view(bgg_ids@)),
    {
        let ghost tv = store@.things;
        let ghost idsv = names_view(bgg_ids@);
        let ghost chs = chunks_of(idsv, MAX_IDS as int);
        let batches = batch_ids(bgg_ids, MAX_IDS);
        let mut out: Vec<ThingRow> = Vec::new();
        let mut b: usize = 0;
        proof {
            assert(chs.subrange(0, chs.len() as int) =~= chs);
            assert(thing_rows_view(out@) =~= Seq::<GThingRow>::empty());
            assert(thing_rows_view(out@) + lookup_chunks(tv, chs) =~= lookup_chunks(tv, chs));
        }
        while b < batches.len()
            invariant
                b <= batches@.len(),
                batches_view(batches@) == chs,
                lookup_chunks(tv, chs) == thing_rows_view(out@) + lookup_chunks(
                    tv,
                    chs.subrange(b as int, chs.len() as int),
                ),
            decreases batches@.len() - b,
        {
            let ghost suf = chs.subrange(b as int, chs.len() as int);
            let ghost chunkv = chs[b as int];
            proof {
                assert(suf[0] == chs[b as int]);
                assert(suf.drop_first() =~= chs.subrange(b + 1 as int, chs.len() as int));
                assert(chs[b as int] == names_view(batches@[b as int]@));
            }
            let ghost pre = thing_rows_view(out@);
            let mut t: usize = 0;
            proof {
                assert(tv.subrange(0, 0).len() == 0);
                assert(kept_rows(tv.subrange(0, 0), chunkv) =~= Seq::<GThingRow>::empty());
                assert(thing_rows_view(out@) =~= pre + kept_rows(tv.subrange(0, 0), chunkv));
            }
            while t < store.things.len()
                invariant
                    t <= store.things@.len(),
                    thing_rows_view(out@) == pre + kept_rows(tv.subrange(0, t as int), chunkv),
                decreases store.things@.len() - t,
            {
                proof {
                    assert(tv.subrange(0, t + 1 as int).drop_last() =~= tv.subrange(0, t as int));
                    assert(tv.subrange(0, t + 1 as int).last() == tv[t as int]);
                    assert(tv[t as int] == store.things@[t as int]@);
                }
                if contains_name(&batches[b], &store.things[t].data.bgg_id) {
                    let c = copy_row(&store.things[t]);
                    proof {
                        assert(c@ == tv[t as int]);
                    }
                    out.push(c);
                    proof {
                        assert(thing_rows_view(out@) =~= (pre + kept_rows(
                            tv.subrange(0, t as int),
                            chunkv,
                        )).push(tv[t as int]));
                        assert((pre + kept_rows(tv.subrange(0, t as int), chunkv)).push(
                            tv[t as int],
                        ) =~= pre + kept_rows(tv.subrange(0, t as int), chunkv).push(tv[t as int]));
                    }
                }
                t = t + 1;
            }
            proof {
                assert(tv.subrange(0, tv.len() as int) =~= tv);
                assert(thing_rows_view(out@) == pre + kept_rows(tv, chunkv));
                assert(pre + (kept_rows(tv, chunkv) + lookup_chunks(tv, suf.drop_first())) =~= (pre
                    + kept_rows(tv, chunkv)) + lookup_chunks(tv, suf.drop_first()));
            }
            b = b + 1;
        }
        proof {
            assert(chs.subrange(chs.len() as int, chs.len() as int).len() == 0);
            assert(lookup_chunks(tv, chs.subrange(chs.len() as int, chs.len() as int)) =~= Seq::<
                GThingRow,
            >::empty());
            assert(thing_rows_view(out@) + Seq::<GThingRow>::empty() =~= thing_rows_view(out@));
        }
        out
    }
}

fn any_with_id(ds: &Vec<ThingData>, id: &Vec<u8>) -> (r: bool)
    ensures
        r == found_has(datas_view(ds@), id@),
{
    let ghost v = datas_view(ds@);
    let mut i: usize = 0;
    while i < ds.len()
        invariant
            i <= ds@.len(),
            v == datas_view(ds@),
            forall|k: int| 0 <= k < i ==> (#[trigger] v[k]).bgg_id != id@,
        decreases ds@.len() - i,
    {
        proof {
            assert(v[i as int] == ds@[i as int]@);
        }
        if bytes_eq(ds[i].bgg_id.as_slice(), id.as_slice()) {
            assert(found_has(v, id@));
            return true;
        }
        i = i + 1;
    }
    proof {
        if found_has(v, id@) {
            let k = choose|k: int| 0 <= k < v.len() && (#[trigger] v[k]).bgg_id == id@;
        }
    }
    false
}

/// Partitions a candidate id list into the Things already stored and the
/// ids that must be fetched upstream: an id is needed exactly when no
/// looked-up row carries it. Duplicates in the input stay duplicates.
#[verifier::loop_isolation(false)]
pub fn resolve(store: &Store, ids: &Vec<Vec<u8>>) -> (r: (Vec<ThingData>, Vec<Vec<u8>>))
    ensures
        datas_view(r.0@) == datas_of(lookup_spec(store@.things, names_view(ids@))),
        names_view(r.1@) == needed_spec(
            datas_of(lookup_spec(store@.things, names_view(ids@))),
            names_view(ids@),
        ),
{
    let ghost idsv = names_view(ids@);
    let ghost found = datas_of(lookup_spec(store@.things, idsv));
    let rows = BggThing::get_for_bgg_ids(store, ids);
    let mut known: Vec<ThingData> = Vec::new();
    let mut i: usize = 0;
    proof {
        assert(datas_view(known@) =~= found.subrange(0, 0));
    }
    while i < rows.len()
        invariant
            i <= rows@.len(),
            thing_rows_view(rows@) == lookup_spec(store@.things, idsv),
            datas_view(known@) == found.subrange(0, i as int),
        decreases rows@.len() - i,
    {
        let d = copy_thing_data(&rows[i].data);
        proof {
            assert(thing_rows_view(rows@)[i as int] == rows@[i as int]@);
            assert(found[i as int] == lookup_spec(store@.things, idsv)[i as int].data);
            assert(d@ == found[i as int]);
        }
        known.push(d);
        proof {
            assert(datas_view(known@) =~= found.subrange(0, i + 1 as int));
        }
        i = i + 1;
    }
    proof {
        assert(found.subrange(0, found.len() as int) =~= found);
        assert(datas_view(known@) == found);
    }
    let mut needed: Vec<Vec<u8>> = Vec::new();
    let mut j: usize = 0;
    proof {
        assert(idsv.subrange(0, 0).len() == 0);
        assert(names_view(needed@) =~= needed_spec(found, idsv.subrange(0, 0)));
    }
    while j < ids.len()
        invariant
            j <= ids@.len(),
            datas_view(known@) == found,
            names_view(needed@) == needed_spec(found, idsv.subrange(0, j as int)),
        decreases ids@.len() - j,
    {
        proof {
            assert(idsv.subrange(0, j + 1 as int).drop_last() =~= idsv.subrange(0, j as int));
            assert(idsv.subrange(0, j + 1 as int).last() == idsv[j as int]);
            assert(idsv[j as int] == ids@[j as int]@);
        }
        if !any_with_id(&known, &ids[j]) {
            let c = copy_bytes(&ids[j]);
            needed.push(c);
            proof {
                assert(names_view(needed@) =~= needed_spec(found, idsv.subrange(0, j as int)).push(
                    idsv[j as int],
                ));
            }
        }
        j = j + 1;
    }
    proof {
        assert(idsv.subrange(0, idsv.len() as int) =~= idsv);
    }
    (known, needed)
}

proof fn lemma_chunks_contain(ids: Seq<Seq<u8>>, k: int, x: Seq<u8>)
    requires
        k >= 1,
        ids.contains(x),
    ensures
        exists|j: int|
            0 <= j < chunks_of(ids, k).len() && (#[trigger] chunks_of(ids, k)[j]).contains(x),
    decreases ids.len(),
{
    let w = choose|w: int| 0 <= w < ids.len() && ids[w] == x;
    if ids.len() <= k {
        assert(chunks_of(ids, k)[0] == ids);
        assert(chunks_of(ids, k)[0].contains(x));
    } else {
        if w < k {
            assert(ids.subrange(0, k)[w] == x);
            assert(chunks_of(ids, k)[0] == ids.subrange(0, k));
            assert(chunks_of(ids, k)[0].contains(x));
        } else {
            let rest = ids.subrange(k, ids.len() as int);
            assert(rest[w - k] == x);
            assert(rest.contains(x));
            lemma_chunks_contain(rest, k, x);
            let j = choose|j: int|
                0 <= j < chunks_of(rest, k).len() && (#[trigger] chunks_of(rest, k)[j]).contains(x);
            assert(chunks_of(ids, k)[j + 1] == chunks_of(rest, k)[j]);
            assert(chunks_of(ids, k)[j + 1].contains(x));
        }
    }
}

proof fn lemma_kept_rows_contain(things: Seq<GThingRow>, chunk: Seq<Seq<u8>>, w: int)
    requires
        0 <= w < things.len(),
        chunk.contains(things[w].data.bgg_id),
    ensures
        kept_rows(things, chunk).contains(things[w]),
    decreases things.len(),
{
    if w == things.len() - 1 {
        let pre = kept_rows(things.drop_last(), chunk);
        assert(kept_rows(things, chunk) == pre.push(things.last()));
        assert(kept_rows(things, chunk)[pre.len() as int] == things[w]);
    } else {
        assert(things.drop_last()[w] == things[w]);
        lemma_kept_rows_contain(things.drop_last(), chunk, w);
        let pre = kept_rows(things.drop_last(), chunk);
        let m = choose|m: int| 0 <= m < pre.len() && pre[m] == things[w];
        if chunk.contains(things.last().data.bgg_id) {
            assert(kept_rows(things, chunk)[m] == things[w]);
        }
    }
}

proof fn lemma_lookup_chunks_contain(
    things: Seq<GThingRow>,
    chunks: Seq<Seq<Seq<u8>>>,
    j: int,
    w: int,
)
    requires
        0 <= j < chunks.len(),
        0 <= w < things.len(),
        chunks[j].contains(things[w].data.bgg_id),
    ensures
        lookup_chunks(things, chunks).contains(things[w]),
    decreases chunks.len(),
{
    if j == 0 {
        lemma_kept_rows_contain(things, chunks[0], w);
        let kept = kept_rows(things, chunks[0]);
        let m = choose|m: int| 0 <= m < kept.len() && kept[m] == things[w];
        assert(lookup_chunks(things, chunks)[m] == things[w]);
    } else {
        assert(chunks.drop_first()[j - 1] == chunks[j]);
        lemma_lookup_chunks_contain(things, chunks.drop_first(), j - 1, w);
        let tail = lookup_chunks(things, chunks.drop_first());
        let m = choose|m: int| 0 <= m < tail.len() && tail[m] == things[w];
        let kept = kept_rows(things, chunks[0]);
        assert(lookup_chunks(things, chunks)[kept.len() + m] == things[w]);
    }
}

proof fn lemma_needed_empty(found: Seq<GThingData>, ids: Seq<Seq<u8>>)
    requires
        forall|i: int| 0 <= i < ids.len() ==> found_has(found, #[trigger] ids[i]),
    ensures
        needed_spec(found, ids).len() == 0,
    decreases ids.len(),
{
    if ids.len() > 0 {
        assert(forall|i: int|
            0 <= i < ids.drop_last().len() ==> #[trigger] ids.drop_last()[i] == ids[i]);
        lemma_needed_empty(found, ids.drop_last());
        assert(ids[ids.len() - 1] == ids.last());
    }
}

/// Law: for an id set fully present in the store, the resolver reports
/// nothing as needed, so the batch list handed to the scheduler is empty:
/// the answer comes with zero upstream calls.
pub proof fn lemma_all_cached_nothing_needed(st: GStore, ids: Seq<Seq<u8>>)
    requires
        forall|i: int| 0 <= i < ids.len() ==> contains_bgg(st.things, #[trigger] ids[i]),
    ensures
        needed_spec(datas_of(lookup_spec(st.things, ids)), ids).len() == 0,
        chunks_of(
            needed_spec(datas_of(lookup_spec(st.things, ids)), ids),
            crate::DETAIL_BATCH_SIZE as int,
        ).len() == 0,
{
    let found = datas_of(lookup_spec(st.things, ids));
    assert forall|i: int| 0 <= i < ids.len() implies found_has(found, #[trigger] ids[i]) by {
        let w = choose|w: int|
            0 <= w < st.things.len() && (#[trigger] st.things[w]).data.bgg_id == ids[i];
        assert(ids.contains(ids[i]));
        lemma_chunks_contain(ids, MAX_IDS as int, ids[i]);
        let chs = chunks_of(ids, MAX_IDS as int);
        let j = choose|j: int| 0 <= j < chs.len() && (#[trigger] chs[j]).contains(ids[i]);
        lemma_lookup_chunks_contain(st.things, chs, j, w);
        let rows = lookup_spec(st.things, ids);
        let m = choose|m: int| 0 <= m < rows.len() && rows[m] == st.things[w];
        assert(found[m] == rows[m].data);
        assert(found[m].bgg_id == ids[i]);
    }
    lemma_needed_empty(found, ids);
}

} // verus!
