//! The entity parser: one pass over the scanned events, building Things.
//!
//! Recognized element and attribute names form a closed set, dispatched by
//! a small code so that every unrecognized element falls into one explicit
//! "skip its subtree" branch.

use vstd::prelude::*;

use crate::domain::{BggThing, GLink, GLinks, GThing, GThingData, LinkData, ThingData, ThingLinks};
use crate::domain::{GSearchItem, SearchItem};
use crate::errors::Error;
use crate::xml::{attr_of, attrs_view, attr_value, bytes_eq, events_view, GEvent, XmlEvent};
use crate::xml::{all_digits, all_digits_exec, dec_val, is_digit, subvec};

verus! {

pub open spec fn tn_item() -> Seq<u8> {
    seq![105, 116, 101, 109]
}

pub open spec fn tn_items() -> Seq<u8> {
    seq![105, 116, 101, 109, 115]
}

pub open spec fn tn_thumbnail() -> Seq<u8> {
    seq![116, 104, 117, 109, 98, 110, 97, 105, 108]
}

pub open spec fn tn_image() -> Seq<u8> {
    seq![105, 109, 97, 103, 101]
}

pub open spec fn tn_description() -> Seq<u8> {
    seq![100, 101, 115, 99, 114, 105, 112, 116, 105, 111, 110]
}

pub open spec fn tn_name() -> Seq<u8> {
    seq![110, 97, 109, 101]
}

pub open spec fn tn_yearpublished() -> Seq<u8> {
    seq![121, 101, 97, 114, 112, 117, 98, 108, 105, 115, 104, 101, 100]
}

pub open spec fn tn_minplaytime() -> Seq<u8> {
    seq![109, 105, 110, 112, 108, 97, 121, 116, 105, 109, 101]
}

pub open spec fn tn_maxplaytime() -> Seq<u8> {
    seq![109, 97, 120, 112, 108, 97, 121, 116, 105, 109, 101]
}

pub open spec fn tn_playingtime() -> Seq<u8> {
    seq![112, 108, 97, 121, 105, 110, 103, 116, 105, 109, 101]
}

pub open spec fn tn_minplayers() -> Seq<u8> {
    seq![109, 105, 110, 112, 108, 97, 121, 101, 114, 115]
}

pub open spec fn tn_maxplayers() -> Seq<u8> {
    seq![109, 97, 120, 112, 108, 97, 121, 101, 114, 115]
}

pub open spec fn tn_link() -> Seq<u8> {
    seq![108, 105, 110, 107]
}

pub open spec fn an_id() -> Seq<u8> {
    seq![105, 100]
}

pub open spec fn an_type() -> Seq<u8> {
    seq![116, 121, 112, 101]
}

pub open spec fn an_value() -> Seq<u8> {
    seq![118, 97, 108, 117, 101]
}

pub open spec fn av_primary() -> Seq<u8> {
    seq![112, 114, 105, 109, 97, 114, 121]
}

pub open spec fn av_alternate() -> Seq<u8> {
    seq![97, 108, 116, 101, 114, 110, 97, 116, 101]
}

pub open spec fn lt_category() -> Seq<u8> {
    seq![
        98, 111, 97, 114, 100, 103, 97, 109, 101, 99, 97, 116, 101, 103, 111,
        114, 121,
    ]
}

pub open spec fn lt_family() -> Seq<u8> {
    seq![
        98, 111, 97, 114, 100, 103, 97, 109, 101, 102, 97, 109, 105, 108, 121,
    ]
}

pub open spec fn lt_designer() -> Seq<u8> {
    seq![
        98, 111, 97, 114, 100, 103, 97, 109, 101, 100, 101, 115, 105, 103, 110,
        101, 114,
    ]
}

pub open spec fn lt_publisher() -> Seq<u8> {
    seq![
        98, 111, 97, 114, 100, 103, 97, 109, 101, 112, 117, 98, 108, 105, 115,
        104, 101, 114,
    ]
}

/// Which recognized element a tag name is; 0 for any other.
pub open spec fn tag_code_spec(n: Seq<u8>) -> u8 {
    if n == tn_thumbnail() {
        1
    } else if n == tn_image() {
        2
    } else if n == tn_description() {
        3
    } else if n == tn_name() {
        4
    } else if n == tn_yearpublished() {
        5
    } else if n == tn_minplaytime() {
        6
    } else if n == tn_maxplaytime() {
        7
    } else if n == tn_playingtime() {
        8
    } else if n == tn_minplayers() {
        9
    } else if n == tn_maxplayers() {
        10
    } else if n == tn_link() {
        11
    } else if n == tn_item() {
        12
    } else if n == tn_items() {
        13
    } else {
        0
    }
}

/// Which of the four recognized link kinds a `type` attribute names;
/// 0 for any other.
pub open spec fn link_kind_spec(n: Seq<u8>) -> u8 {
    if n == lt_category() {
        1
    } else if n == lt_family() {
        2
    } else if n == lt_designer() {
        3
    } else if n == lt_publisher() {
        4
    } else {
        0
    }
}

/// Executable counterpart of `tag_code_spec`.
pub fn tag_code(v: &Vec<u8>) -> (c: u8)
    ensures
        c == tag_code_spec(v@),
{
    let n = v.len();
    if n == 9 && v[0] == 116 && v[1] == 104 && v[2] == 117 && v[3] == 109 && v[4] == 98
        && v[5] == 110 && v[6] == 97 && v[7] == 105 && v[8] == 108 {
        proof {
            assert(v@ =~= tn_thumbnail());
        }
        return 1;
    }
    if n == 5 && v[0] == 105 && v[1] == 109 && v[2] == 97 && v[3] == 103 && v[4] == 101 {
        proof {
            assert(v@ =~= tn_image());
        }
        return 2;
    }
    if n == 11 && v[0] == 100 && v[1] == 101 && v[2] == 115 && v[3] == 99 && v[4] == 114
        && v[5] == 105 && v[6] == 112 && v[7] == 116 && v[8] == 105 && v[9] == 111 && v[10]
        == 110 {
        proof {
            assert(v@ =~= tn_description());
        }
        return 3;
    }
    if n == 4 && v[0] == 110 && v[1] == 97 && v[2] == 109 && v[3] == 101 {
        proof {
            assert(v@ =~= tn_name());
        }
        return 4;
    }
    if n == 13 && v[0] == 121 && v[1] == 101 && v[2] == 97 && v[3] == 114 && v[4] == 112
        && v[5] == 117 && v[6] == 98 && v[7] == 108 && v[8] == 105 && v[9] == 115 && v[10]
        == 104 && v[11] == 101 && v[12] == 100 {
        proof {
            assert(v@ =~= tn_yearpublished());
        }
        return 5;
    }
    if n == 11 && v[0] == 109 && v[1] == 105 && v[2] == 110 && v[3] == 112 && v[4] == 108
        && v[5] == 97 && v[6] == 121 && v[7] == 116 && v[8] == 105 && v[9] == 109 && v[10]
        == 101 {
        proof {
            assert(v@ =~= tn_minplaytime());
        }
        return 6;
    }
    if n == 11 && v[0] == 109 && v[1] == 97 && v[2] == 120 && v[3] == 112 && v[4] == 108
        && v[5] == 97 && v[6] == 121 && v[7] == 116 && v[8] == 105 && v[9] == 109 && v[10]
        == 101 {
        proof {
            assert(v@ =~= tn_maxplaytime());
        }
        return 7;
    }
    if n == 11 && v[0] == 112 && v[1] == 108 && v[2] == 97 && v[3] == 121 && v[4] == 105
        && v[5] == 110 && v[6] == 103 && v[7] == 116 && v[8] == 105 && v[9] == 109 && v[10]
        == 101 {
        proof {
            assert(v@ =~= tn_playingtime());
        }
        return 8;
    }
    if n == 10 && v[0] == 109 && v[1] == 105 && v[2] == 110 && v[3] == 112 && v[4] == 108
        && v[5] == 97 && v[6] == 121 && v[7] == 101 && v[8] == 114 && v[9] == 115 {
        proof {
            assert(v@ =~= tn_minplayers());
        }
        return 9;
    }
    if n == 10 && v[0] == 109 && v[1] == 97 && v[2] == 120 && v[3] == 112 && v[4] == 108
        && v[5] == 97 && v[6] == 121 && v[7] == 101 && v[8] == 114 && v[9] == 115 {
        proof {
            assert(v@ =~= tn_maxplayers());
        }
        return 10;
    }
    if n == 4 && v[0] == 108 && v[1] == 105 && v[2] == 110 && v[3] == 107 {
        proof {
            assert(v@ =~= tn_link());
        }
        return 11;
    }
    if n == 4 && v[0] == 105 && v[1] == 116 && v[2] == 101 && v[3] == 109 {
        proof {
            assert(v@ =~= tn_item());
        }
        return 12;
    }
    if n == 5 && v[0] == 105 && v[1] == 116 && v[2] == 101 && v[3] == 109 && v[4] == 115 {
        proof {
            assert(v@ =~= tn_items());
        }
        return 13;
    }
    0
}

/// Executable counterpart of `link_kind_spec`.
pub fn link_kind(v: &Vec<u8>) -> (c: u8)
    ensures
        c == link_kind_spec(v@),
{
    let n = v.len();
    if !(n >= 10 && v[0] == 98 && v[1] == 111 && v[2] == 97 && v[3] == 114 && v[4] == 100
        && v[5] == 103 && v[6] == 97 && v[7] == 109 && v[8] == 101) {
        return 0;
    }
    if n == 17 && v[9] == 99 && v[10] == 97 && v[11] == 116 && v[12] == 101 && v[13] == 103
        && v[14] == 111 && v[15] == 114 && v[16] == 121 {
        proof {
            assert(v@ =~= lt_category());
        }
        return 1;
    }
    if n == 15 && v[9] == 102 && v[10] == 97 && v[11] == 109 && v[12] == 105 && v[13] == 108
        && v[14] == 121 {
        proof {
            assert(v@ =~= lt_family());
        }
        return 2;
    }
    if n == 17 && v[9] == 100 && v[10] == 101 && v[11] == 115 && v[12] == 105 && v[13] == 103
        && v[14] == 110 && v[15] == 101 && v[16] == 114 {
        proof {
            assert(v@ =~= lt_designer());
        }
        return 3;
    }
    if n == 18 && v[9] == 112 && v[10] == 117 && v[11] == 98 && v[12] == 108 && v[13] == 105
        && v[14] == 115 && v[15] == 104 && v[16] == 101 && v[17] == 114 {
        proof {
            assert(v@ =~= lt_publisher());
        }
        return 4;
    }
    0
}

/// The attribute name `id` as a vector.
pub fn an_id_vec() -> (r: Vec<u8>)
    ensures
        r@ == an_id(),
{
    let mut v: Vec<u8> = Vec::new();
    v.push(105);
    v.push(100);
    proof {
        assert(v@ =~= an_id());
    }
    v
}

/// The attribute name `type` as a vector.
pub fn an_type_vec() -> (r: Vec<u8>)
    ensures
        r@ == an_type(),
{
    let mut v: Vec<u8> = Vec::new();
    v.push(116);
    v.push(121);
    v.push(112);
    v.push(101);
    proof {
        assert(v@ =~= an_type());
    }
    v
}

/// The attribute name `value` as a vector.
pub fn an_value_vec() -> (r: Vec<u8>)
    ensures
        r@ == an_value(),
{
    let mut v: Vec<u8> = Vec::new();
    v.push(118);
    v.push(97);
    v.push(108);
    v.push(117);
    v.push(101);
    proof {
        assert(v@ =~= an_value());
    }
    v
}

/// How Rust reads a decimal integer: an optional sign, then at least one
/// digit, the value within the range of `i32`.
pub open spec fn parse_i32_spec(v: Seq<u8>) -> Option<i32> {
    let neg = v.len() > 0 && v[0] == 45;
    let digs = if v.len() > 0 && (v[0] == 43 || v[0] == 45) {
        v.drop_first()
    } else {
        v
    };
    if digs.len() == 0 || !all_digits(digs) {
        None
    } else {
        let m = dec_val(digs, 0);
        let sv: int = if neg {
            -m
        } else {
            m
        };
        if -0x8000_0000 <= sv <= 0x7FFF_FFFF {
            Some(sv as i32)
        } else {
            None
        }
    }
}

proof fn lemma_dec_val_ge(d: Seq<u8>, acc: int)
    requires
        all_digits(d),
        acc >= 0,
    ensures
        dec_val(d, acc) >= acc,
    decreases d.len(),
{
    if d.len() > 0 {
        assert(is_digit(d[0]));
        assert(forall|i: int| 0 <= i < d.drop_first().len() ==> is_digit(d.drop_first()[i]));
        lemma_dec_val_ge(d.drop_first(), acc * 10 + (d[0] - 48));
    }
}

/// Executable counterpart of `parse_i32_spec`.
#[verifier::loop_isolation(false)]
pub fn parse_i32(v: &Vec<u8>) -> (r: Option<i32>)
    ensures
        r == parse_i32_spec(v@),
{
    let mut start: usize = 0;
    let mut neg = false;
    if v.len() > 0 && (v[0] == 43 || v[0] == 45) {
        neg = v[0] == 45;
        start = 1;
    }
    let n = v.len();
    if n == start {
        return None;
    }
    let digs = subvec(v, start, n);
    proof {
        if start == 1 {
            assert(digs@ =~= v@.drop_first());
        } else {
            assert(digs@ =~= v@);
        }
    }
    if !all_digits_exec(&digs) {
        return None;
    }
    let dn = digs.len();
    let mut acc: u64 = 0;
    let mut i: usize = 0;
    proof {
        assert(digs@.subrange(0, dn as int) =~= digs@);
    }
    while i < dn
        invariant
            i <= dn == digs@.len(),
            all_digits(digs@),
            acc <= 0x8000_0000,
            dec_val(digs@, 0) == dec_val(digs@.subrange(i as int, dn as int), acc as int),
        decreases dn - i,
    {
        let b = digs[i];
        proof {
            assert(digs@.subrange(i as int, dn as int)[0] == digs@[i as int]);
            assert(digs@.subrange(i as int, dn as int).drop_first() =~= digs@.subrange(
                i + 1 as int,
                dn as int,
            ));
        }
        let next: u64 = acc * 10 + ((b - 48) as u64);
        if next > 0x8000_0000 {
            proof {
                assert(forall|k: int|
                    0 <= k < digs@.subrange(i + 1 as int, dn as int).len() ==> is_digit(
                        #[trigger] digs@.subrange(i + 1 as int, dn as int)[k],
                    ));
                lemma_dec_val_ge(digs@.subrange(i + 1 as int, dn as int), next as int);
                assert(dec_val(digs@.subrange(i as int, dn as int), acc as int) == dec_val(
                    digs@.subrange(i + 1 as int, dn as int),
                    next as int,
                ));
                assert(dec_val(digs@, 0) >= next > 0x8000_0000);
            }
            return None;
        }
        acc = next;
        i = i + 1;
    }
    proof {
        assert(digs@.subrange(dn as int, dn as int).len() == 0);
        assert(dec_val(digs@, 0) == acc as int);
    }
    if neg {
        let m: i64 = -(acc as i64);
        return Some(m as i32);
    }
    if acc > 0x7FFF_FFFF {
        return None;
    }
    Some(acc as i32)
}

/// A Thing as seeded from an `item` element's `id` and `type` attributes:
/// every other field empty.
pub open spec fn new_gthing(id: Seq<u8>, kind: Seq<u8>) -> GThing {
    GThing {
        data: GThingData {
            bgg_id: id,
            kind: kind,
            thumbnail: None,
            image: None,
            name: None,
            altnames: Seq::empty(),
            description: None,
            year_published: None,
            min_players: None,
            max_players: None,
            min_duration: None,
            max_duration: None,
            duration: None,
        },
        links: GLinks {
            categories: Seq::empty(),
            families: Seq::empty(),
            designers: Seq::empty(),
            publishers: Seq::empty(),
        },
    }
}

/// Stores the text of a `thumbnail`, `image` or `description` element.
pub open spec fn set_text(t: GThing, code: u8, txt: Seq<u8>) -> GThing {
    if code == 1 {
        GThing { data: GThingData { thumbnail: Some(txt), ..t.data }, ..t }
    } else if code == 2 {
        GThing { data: GThingData { image: Some(txt), ..t.data }, ..t }
    } else {
        GThing { data: GThingData { description: Some(txt), ..t.data }, ..t }
    }
}

/// Stores one of the six integer-valued fields.
pub open spec fn set_num(t: GThing, code: u8, x: i32) -> GThing {
    if code == 5 {
        GThing { data: GThingData { year_published: Some(x), ..t.data }, ..t }
    } else if code == 6 {
        GThing { data: GThingData { min_duration: Some(x), ..t.data }, ..t }
    } else if code == 7 {
        GThing { data: GThingData { max_duration: Some(x), ..t.data }, ..t }
    } else if code == 8 {
        GThing { data: GThingData { duration: Some(x), ..t.data }, ..t }
    } else if code == 9 {
        GThing { data: GThingData { min_players: Some(x), ..t.data }, ..t }
    } else {
        GThing { data: GThingData { max_players: Some(x), ..t.data }, ..t }
    }
}

/// Sets the canonical name: a later primary name replaces an earlier one.
pub open spec fn with_name(t: GThing, v: Seq<u8>) -> GThing {
    GThing { data: GThingData { name: Some(v), ..t.data }, ..t }
}

/// Appends an alternate name, duplicates retained, document order kept.
pub open spec fn push_altname(t: GThing, v: Seq<u8>) -> GThing {
    GThing { data: GThingData { altnames: t.data.altnames.push(v), ..t.data }, ..t }
}

/// Appends a link to the list of its kind.
pub open spec fn push_link(t: GThing, kind: u8, l: GLink) -> GThing {
    if kind == 1 {
        GThing { links: GLinks { categories: t.links.categories.push(l), ..t.links }, ..t }
    } else if kind == 2 {
        GThing { links: GLinks { families: t.links.families.push(l), ..t.links }, ..t }
    } else if kind == 3 {
        GThing { links: GLinks { designers: t.links.designers.push(l), ..t.links }, ..t }
    } else {
        GThing { links: GLinks { publishers: t.links.publishers.push(l), ..t.links }, ..t }
    }
}

/// What one attribute-only element does to the Thing under construction.
/// A `name` of unrecognized type and a `link` of unrecognized kind leave it
/// unchanged; a non-numeric value in an integer field is fatal.
pub open spec fn apply_empty(t: GThing, n: Seq<u8>, attrs: Seq<(Seq<u8>, Seq<u8>)>) -> Result<
    GThing,
    Error,
> {
    let code = tag_code_spec(n);
    if code == 4 {
        let ty = attr_of(attrs, an_type());
        if ty == av_primary() {
            Ok(with_name(t, attr_of(attrs, an_value())))
        } else if ty == av_alternate() {
            Ok(push_altname(t, attr_of(attrs, an_value())))
        } else {
            Ok(t)
        }
    } else if 5 <= code <= 10 {
        match parse_i32_spec(attr_of(attrs, an_value())) {
            None => Err(Error::FieldParse),
            Some(x) => Ok(set_num(t, code, x)),
        }
    } else if code == 11 {
        let k = link_kind_spec(attr_of(attrs, an_type()));
        if k == 0 {
            Ok(t)
        } else {
            Ok(
                push_link(
                    t,
                    k,
                    GLink { bgg_id: attr_of(attrs, an_id()), name: attr_of(attrs, an_value()) },
                ),
            )
        }
    } else {
        Ok(t)
    }
}

/// Index just past the end tag that closes an element named `name`, opened
/// `depth` times, starting at event `i`; `None` if the events run out first.
pub open spec fn skip_subtree(evs: Seq<GEvent>, i: int, name: Seq<u8>, depth: int) -> Option<int>
    decreases evs.len() - i,
{
    if !(0 <= i < evs.len()) {
        None
    } else {
        match evs[i] {
            GEvent::Start { name: n, attrs } => if n == name {
                skip_subtree(evs, i + 1, name, depth + 1)
            } else {
                skip_subtree(evs, i + 1, name, depth)
            },
            GEvent::End { name: n } => if n == name {
                if depth <= 1 {
                    Some(i + 1)
                } else {
                    skip_subtree(evs, i + 1, name, depth - 1)
                }
            } else {
                skip_subtree(evs, i + 1, name, depth)
            },
            _ => skip_subtree(evs, i + 1, name, depth),
        }
    }
}

pub proof fn lemma_skip_subtree(evs: Seq<GEvent>, i: int, name: Seq<u8>, depth: int)
    requires
        0 <= i <= evs.len(),
    ensures
        match skip_subtree(evs, i, name, depth) {
            Some(j) => i < j <= evs.len(),
            None => true,
        },
    decreases evs.len() - i,
{
    if i < evs.len() {
        match evs[i] {
            GEvent::Start { name: n, attrs } => {
                lemma_skip_subtree(evs, i + 1, name, depth + 1);
                lemma_skip_subtree(evs, i + 1, name, depth);
            },
            GEvent::End { name: n } => {
                lemma_skip_subtree(evs, i + 1, name, depth - 1);
                lemma_skip_subtree(evs, i + 1, name, depth);
            },
            _ => {
                lemma_skip_subtree(evs, i + 1, name, depth);
            },
        }
    }
}

/// The concatenated character data of an element's body, and the index just
/// past its end tag; `None` if the events run out first.
pub open spec fn collect_text(evs: Seq<GEvent>, i: int, name: Seq<u8>, depth: int) -> Option<
    (Seq<u8>, int),
>
    decreases evs.len() - i,
{
    if !(0 <= i < evs.len()) {
        None
    } else {
        match evs[i] {
            GEvent::Text { content } => match collect_text(evs, i + 1, name, depth) {
                None => None,
                Some((t, j)) => Some((content + t, j)),
            },
            GEvent::Start { name: n, attrs } => if n == name {
                collect_text(evs, i + 1, name, depth + 1)
            } else {
                collect_text(evs, i + 1, name, depth)
            },
            GEvent::End { name: n } => if n == name {
                if depth <= 1 {
                    Some((Seq::empty(), i + 1))
                } else {
                    collect_text(evs, i + 1, name, depth - 1)
                }
            } else {
                collect_text(evs, i + 1, name, depth)
            },
            _ => collect_text(evs, i + 1, name, depth),
        }
    }
}

pub proof fn lemma_collect_text(evs: Seq<GEvent>, i: int, name: Seq<u8>, depth: int)
    requires
        0 <= i <= evs.len(),
    ensures
        match collect_text(evs, i, name, depth) {
            Some((t, j)) => i < j <= evs.len(),
            None => true,
        },
    decreases evs.len() - i,
{
    if i < evs.len() {
        lemma_collect_text(evs, i + 1, name, depth + 1);
        lemma_collect_text(evs, i + 1, name, depth);
        lemma_collect_text(evs, i + 1, name, depth - 1);
    }
}

/// Folds the events of one `item` element body into a Thing, until the end
/// tag that matches `item_name`. Any other end tag at this level means the
/// parser lost its place; running out of events does too.
pub open spec fn thing_fields(evs: Seq<GEvent>, i: int, item_name: Seq<u8>, t: GThing) -> Result<
    (GThing, int),
    Error,
>
    decreases evs.len() - i,
    via thing_fields_dec
{
    if !(0 <= i < evs.len()) {
        Err(Error::MalformedResponse)
    } else {
        match evs[i] {
            GEvent::End { name: n } => if n == item_name {
                Ok((t, i + 1))
            } else {
                Err(Error::MalformedResponse)
            },
            GEvent::Start { name: n, attrs } => {
                let code = tag_code_spec(n);
                if code == 1 || code == 2 || code == 3 {
                    match collect_text(evs, i + 1, n, 1) {
                        None => Err(Error::MalformedResponse),
                        Some((txt, j)) => thing_fields(evs, j, item_name, set_text(t, code, txt)),
                    }
                } else {
                    match skip_subtree(evs, i + 1, n, 1) {
                        None => Err(Error::MalformedResponse),
                        Some(j) => thing_fields(evs, j, item_name, t),
                    }
                }
            },
            GEvent::Empty { name: n, attrs } => match apply_empty(t, n, attrs) {
                Err(e) => Err(e),
                Ok(t2) => thing_fields(evs, i + 1, item_name, t2),
            },
            _ => thing_fields(evs, i + 1, item_name, t),
        }
    }
}

#[via_fn]
proof fn thing_fields_dec(evs: Seq<GEvent>, i: int, item_name: Seq<u8>, t: GThing) {
    if 0 <= i < evs.len() {
        match evs[i] {
            GEvent::Start { name: n, attrs } => {
                lemma_collect_text(evs, i + 1, n, 1);
                lemma_skip_subtree(evs, i + 1, n, 1);
            },
            _ => {},
        }
    }
}

pub proof fn lemma_thing_fields(evs: Seq<GEvent>, i: int, item_name: Seq<u8>, t: GThing)
    requires
        0 <= i <= evs.len(),
    ensures
        match thing_fields(evs, i, item_name, t) {
            Ok((t2, j)) => i < j <= evs.len(),
            Err(e) => true,
        },
    decreases evs.len() - i,
{
    if i < evs.len() {
        match evs[i] {
            GEvent::Start { name: n, attrs } => {
                let code = tag_code_spec(n);
                if code == 1 || code == 2 || code == 3 {
                    lemma_collect_text(evs, i + 1, n, 1);
                    match collect_text(evs, i + 1, n, 1) {
                        None => {},
                        Some((txt, j)) => {
                            lemma_thing_fields(evs, j, item_name, set_text(t, code, txt));
                        },
                    }
                } else {
                    lemma_skip_subtree(evs, i + 1, n, 1);
                    match skip_subtree(evs, i + 1, n, 1) {
                        None => {},
                        Some(j) => {
                            lemma_thing_fields(evs, j, item_name, t);
                        },
                    }
                }
            },
            GEvent::Empty { name: n, attrs } => {
                match apply_empty(t, n, attrs) {
                    Err(e) => {},
                    Ok(t2) => {
                        lemma_thing_fields(evs, i + 1, item_name, t2);
                    },
                }
            },
            GEvent::End { name: n } => {},
            _ => {
                lemma_thing_fields(evs, i + 1, item_name, t);
            },
        }
    }
}

/// The Things of the `items` container body from event `i` on, ending at
/// the container's end tag.
pub open spec fn things_from(evs: Seq<GEvent>, i: int) -> Result<Seq<GThing>, Error>
    decreases evs.len() - i,
    via things_from_dec
{
    if !(0 <= i < evs.len()) {
        Err(Error::MalformedResponse)
    } else {
        match evs[i] {
            GEvent::Start { name: n, attrs } => if n == tn_item() {
                match thing_fields(
                    evs,
                    i + 1,
                    n,
                    new_gthing(attr_of(attrs, an_id()), attr_of(attrs, an_type())),
                ) {
                    Err(e) => Err(e),
                    Ok((t, j)) => match things_from(evs, j) {
                        Err(e) => Err(e),
                        Ok(ts) => Ok(seq![t] + ts),
                    },
                }
            } else {
                match skip_subtree(evs, i + 1, n, 1) {
                    None => Err(Error::MalformedResponse),
                    Some(j) => things_from(evs, j),
                }
            },
            GEvent::End { name: n } => if n == tn_items() {
                Ok(Seq::empty())
            } else {
                things_from(evs, i + 1)
            },
            _ => things_from(evs, i + 1),
        }
    }
}

#[via_fn]
proof fn things_from_dec(evs: Seq<GEvent>, i: int) {
    if 0 <= i < evs.len() {
        match evs[i] {
            GEvent::Start { name: n, attrs } => {
                if n == tn_item() {
                    lemma_thing_fields(
                        evs,
                        i + 1,
                        n,
                        new_gthing(attr_of(attrs, an_id()), attr_of(attrs, an_type())),
                    );
                } else {
                    lemma_skip_subtree(evs, i + 1, n, 1);
                }
            },
            _ => {},
        }
    }
}

/// Index just past the opening tag of the `items` container, skipping any
/// other top-level elements; reaching the end of the events first, or an
/// end tag, is a malformed response.
pub open spec fn find_items(evs: Seq<GEvent>, i: int) -> Result<int, Error>
    decreases evs.len() - i,
    via find_items_dec
{
    if !(0 <= i < evs.len()) {
        Err(Error::MalformedResponse)
    } else {
        match evs[i] {
            GEvent::Start { name: n, attrs } => if n == tn_items() {
                Ok(i + 1)
            } else {
                match skip_subtree(evs, i + 1, n, 1) {
                    None => Err(Error::MalformedResponse),
                    Some(j) => find_items(evs, j),
                }
            },
            GEvent::End { name: n } => Err(Error::MalformedResponse),
            _ => find_items(evs, i + 1),
        }
    }
}

#[via_fn]
proof fn find_items_dec(evs: Seq<GEvent>, i: int) {
    if 0 <= i < evs.len() {
        match evs[i] {
            GEvent::Start { name: n, attrs } => {
                lemma_skip_subtree(evs, i + 1, n, 1);
            },
            _ => {},
        }
    }
}

/// What a detail payload's events parse to: the Things of the `items`
/// container, or the error that ended the parse.
pub open spec fn things_outcome(evs: Seq<GEvent>) -> Result<Seq<GThing>, Error> {
    match find_items(evs, 0) {
        Err(e) => Err(e),
        Ok(j) => things_from(evs, j),
    }
}

/// What a detail payload parses to, from the raw bytes on.
pub open spec fn detail_outcome(s: Seq<u8>) -> Result<Seq<GThing>, Error> {
    match crate::xml::scan(s, 0) {
        None => Err(Error::MalformedResponse),
        Some(evs) => things_outcome(evs),
    }
}

/// The flat `{id, kind}` candidates of a search payload: one per `item`
/// opening tag, everything else ignored.
pub open spec fn search_items_of(evs: Seq<GEvent>) -> Seq<GSearchItem>
    decreases evs.len(),
{
    if evs.len() == 0 {
        Seq::empty()
    } else {
        let rest = search_items_of(evs.drop_first());
        match evs[0] {
            GEvent::Start { name, attrs } => if name == tn_item() {
                seq![
                    GSearchItem { id: attr_of(attrs, an_id()), kind: attr_of(attrs, an_type()) },
                ] + rest
            } else {
                rest
            },
            _ => rest,
        }
    }
}

/// What a search payload parses to, from the raw bytes on: candidates are
/// taken from whatever scans, so a malformed tail is skipped, not fatal.
pub open spec fn search_outcome(s: Seq<u8>) -> Seq<GSearchItem> {
    search_items_of(crate::xml::scan_lossy(s, 0))
}

/// The view of a Thing list.
pub open spec fn things_view(ts: Seq<BggThing>) -> Seq<GThing> {
    ts.map_values(|t: BggThing| t@)
}

/// The view of a candidate list.
pub open spec fn items_view(s: Seq<SearchItem>) -> Seq<GSearchItem> {
    s.map_values(|x: SearchItem| x@)
}

/// Joins already-parsed Things onto the outcome of the rest of the parse.
pub open spec fn res_prepend(pre: Seq<GThing>, rest: Result<Seq<GThing>, Error>) -> Result<
    Seq<GThing>,
    Error,
> {
    match rest {
        Ok(ts) => Ok(pre + ts),
        Err(e) => Err(e),
    }
}

/// Law: a primary name always replaces whatever canonical name the Thing
/// had so far — when several primary names occur in one item, the last one
/// encountered wins.
pub proof fn lemma_primary_name_overwrites(t: GThing, n: Seq<u8>, attrs: Seq<(Seq<u8>, Seq<u8>)>)
    requires
        n == tn_name(),
        attr_of(attrs, an_type()) == av_primary(),
    ensures
        apply_empty(t, n, attrs) == Ok::<GThing, Error>(with_name(t, attr_of(attrs, an_value()))),
        with_name(t, attr_of(attrs, an_value())).data.name == Some(attr_of(attrs, an_value())),
{
    assert(tn_name().len() == 4 && tn_thumbnail().len() == 9 && tn_image().len() == 5
        && tn_description().len() == 11);
}

/// Law: the parse step on a primary name carries the new canonical name
/// into the rest of the item, whatever the Thing held before.
pub proof fn lemma_primary_name_step(evs: Seq<GEvent>, i: int, item_name: Seq<u8>, t: GThing)
    requires
        0 <= i < evs.len(),
        evs[i] matches GEvent::Empty { name, attrs } && name == tn_name() && attr_of(
            attrs,
            an_type(),
        ) == av_primary(),
    ensures
        evs[i] matches GEvent::Empty { name, attrs } ==> thing_fields(evs, i, item_name, t)
            == thing_fields(evs, i + 1, item_name, with_name(t, attr_of(attrs, an_value()))),
{
    match evs[i] {
        GEvent::Empty { name, attrs } => {
            lemma_primary_name_overwrites(t, name, attrs);
        },
        _ => {},
    }
}

/// Law: a link element whose type is none of the four recognized kinds
/// changes nothing — the Thing is exactly what it was, so the link appears
/// in none of the four lists, and parsing goes on.
pub proof fn lemma_unrecognized_link_ignored(t: GThing, n: Seq<u8>, attrs: Seq<(Seq<u8>, Seq<u8>)>)
    requires
        n == tn_link(),
        link_kind_spec(attr_of(attrs, an_type())) == 0,
    ensures
        apply_empty(t, n, attrs) == Ok::<GThing, Error>(t),
{
    assert(tn_name()[0] == 110);
    assert(tn_link()[0] == 108);
    assert(tn_item()[0] == 105);
}

/// Law: the parse step on an unrecognized link is a no-op: the fold simply
/// moves to the next event with the Thing untouched.
pub proof fn lemma_unrecognized_link_step(evs: Seq<GEvent>, i: int, item_name: Seq<u8>, t: GThing)
    requires
        0 <= i < evs.len(),
        evs[i] matches GEvent::Empty { name, attrs } && name == tn_link() && link_kind_spec(
            attr_of(attrs, an_type()),
        ) == 0,
    ensures
        thing_fields(evs, i, item_name, t) == thing_fields(evs, i + 1, item_name, t),
{
    match evs[i] {
        GEvent::Empty { name, attrs } => {
            lemma_unrecognized_link_ignored(t, name, attrs);
        },
        _ => {},
    }
}

fn is_item(v: &Vec<u8>) -> (r: bool)
    ensures
        r == (v@ == tn_item()),
{
    if v.len() == 4 && v[0] == 105 && v[1] == 116 && v[2] == 101 && v[3] == 109 {
        proof {
            assert(v@ =~= tn_item());
        }
        true
    } else {
        false
    }
}

fn is_items(v: &Vec<u8>) -> (r: bool)
    ensures
        r == (v@ == tn_items()),
{
    if v.len() == 5 && v[0] == 105 && v[1] == 116 && v[2] == 101 && v[3] == 109 && v[4] == 115 {
        proof {
            assert(v@ =~= tn_items());
        }
        true
    } else {
        false
    }
}

fn is_primary(v: &Vec<u8>) -> (r: bool)
    ensures
        r == (v@ == av_primary()),
{
    if v.len() == 7 && v[0] == 112 && v[1] == 114 && v[2] == 105 && v[3] == 109 && v[4] == 97
        && v[5] == 114 && v[6] == 121 {
        proof {
            assert(v@ =~= av_primary());
        }
        true
    } else {
        false
    }
}

fn is_alternate(v: &Vec<u8>) -> (r: bool)
    ensures
        r == (v@ == av_alternate()),
{
    if v.len() == 9 && v[0] == 97 && v[1] == 108 && v[2] == 116 && v[3] == 101 && v[4] == 114
        && v[5] == 110 && v[6] == 97 && v[7] == 116 && v[8] == 101 {
        proof {
            assert(v@ =~= av_alternate());
        }
        true
    } else {
        false
    }
}

/// Executable counterpart of `skip_subtree` from depth one.
#[verifier::loop_isolation(false)]
pub fn skip_events(evs: &Vec<XmlEvent>, from: usize, name: &Vec<u8>) -> (r: Option<usize>)
    requires
        from <= evs@.len(),
        evs@.len() < usize::MAX,
    ensures
        match r {
            Some(j) => skip_subtree(events_view(evs@), from as int, name@, 1) == Some(j as int)
                && from < j <= evs@.len(),
            None => skip_subtree(events_view(evs@), from as int, name@, 1) is None,
        },
{
    let ghost v = events_view(evs@);
    let mut i: usize = from;
    let mut depth: usize = 1;
    loop
        invariant
            from <= i <= evs@.len(),
            1 <= depth,
            depth <= i - from + 1,
            skip_subtree(v, from as int, name@, 1) == skip_subtree(v, i as int, name@, depth as int),
        decreases evs@.len() - i,
    {
        if i == evs.len() {
            return None;
        }
        proof {
            assert(v[i as int] == evs@[i as int]@);
        }
        match &evs[i] {
            XmlEvent::Start { name: n, .. } => {
                if bytes_eq(n.as_slice(), name.as_slice()) {
                    depth = depth + 1;
                }
            },
            XmlEvent::End { name: n } => {
                if bytes_eq(n.as_slice(), name.as_slice()) {
                    if depth == 1 {
                        return Some(i + 1);
                    }
                    depth = depth - 1;
                }
            },
            _ => {},
        }
        i = i + 1;
    }
}

/// Executable counterpart of `collect_text` from depth one.
#[verifier::loop_isolation(false)]
pub fn collect_text_events(evs: &Vec<XmlEvent>, from: usize, name: &Vec<u8>) -> (r: Option<
    (Vec<u8>, usize),
>)
    requires
        from <= evs@.len(),
        evs@.len() < usize::MAX,
    ensures
        match r {
            Some((txt, j)) => collect_text(events_view(evs@), from as int, name@, 1) == Some(
                (txt@, j as int),
            ) && from < j <= evs@.len(),
            None => collect_text(events_view(evs@), from as int, name@, 1) is None,
        },
{
    let ghost v = events_view(evs@);
    let mut i: usize = from;
    let mut depth: usize = 1;
    let mut acc: Vec<u8> = Vec::new();
    proof {
        assert(acc@ =~= Seq::<u8>::empty());
    }
    loop
        invariant
            from <= i <= evs@.len(),
            1 <= depth,
            depth <= i - from + 1,
            match collect_text(v, i as int, name@, depth as int) {
                Some((t, j)) => collect_text(v, from as int, name@, 1) == Some((acc@ + t, j)),
                None => collect_text(v, from as int, name@, 1) is None,
            },
        decreases evs@.len() - i,
    {
        if i == evs.len() {
            return None;
        }
        proof {
            assert(v[i as int] == evs@[i as int]@);
        }
        match &evs[i] {
            XmlEvent::Text { content } => {
                let mut c = subvec(content, 0, content.len());
                proof {
                    assert(c@ =~= evs@[i as int]->Text_content@);
                    match collect_text(v, i + 1 as int, name@, depth as int) {
                        Some((t, j)) => {
                            assert((acc@ + c@) + t =~= acc@ + (c@ + t));
                        },
                        None => {},
                    }
                }
                acc.append(&mut c);
                i = i + 1;
            },
            XmlEvent::Start { name: n, .. } => {
                if bytes_eq(n.as_slice(), name.as_slice()) {
                    depth = depth + 1;
                }
                i = i + 1;
            },
            XmlEvent::End { name: n } => {
                if bytes_eq(n.as_slice(), name.as_slice()) {
                    if depth == 1 {
                        proof {
                            assert(collect_text(v, i as int, name@, 1) == Some(
                                (Seq::<u8>::empty(), i + 1 as int),
                            ));
                            assert(acc@ + Seq::<u8>::empty() =~= acc@);
                        }
                        return Some((acc, i + 1));
                    }
                    depth = depth - 1;
                }
                i = i + 1;
            },
            _ => {
                i = i + 1;
            },
        }
    }
}

/// Executable counterpart of `apply_empty`.
fn apply_empty_exec(t: BggThing, n: &Vec<u8>, attrs: &Vec<(Vec<u8>, Vec<u8>)>) -> (r: Result<
    BggThing,
    Error,
>)
    ensures
        match r {
            Ok(t2) => apply_empty(t@, n@, attrs_view(attrs@)) == Ok::<GThing, Error>(t2@),
            Err(e) => apply_empty(t@, n@, attrs_view(attrs@)) == Err::<GThing, Error>(e),
        },
{
    let ghost t0 = t@;
    let code = tag_code(n);
    if code == 4 {
        let tyname = an_type_vec();
        let ty = attr_value(attrs, &tyname);
        if is_primary(&ty) {
            let vname = an_value_vec();
            let val = attr_value(attrs, &vname);
            let mut t2 = t;
            t2.data.name = Some(val);
            proof {
                assert(t2@ == with_name(t0, attr_of(attrs_view(attrs@), an_value())));
            }
            return Ok(t2);
        }
        if is_alternate(&ty) {
            let vname = an_value_vec();
            let val = attr_value(attrs, &vname);
            let ghost valv = val@;
            let mut t2 = t;
            t2.data.altnames.push(val);
            proof {
                assert(t2@.data.altnames =~= t0.data.altnames.push(valv));
                assert(t2@ == push_altname(t0, valv));
            }
            return Ok(t2);
        }
        return Ok(t);
    }
    if code >= 5 && code <= 10 {
        let vname = an_value_vec();
        let val = attr_value(attrs, &vname);
        match parse_i32(&val) {
            None => {
                return Err(Error::FieldParse);
            },
            Some(x) => {
                let mut t2 = t;
                if code == 5 {
                    t2.data.year_published = Some(x);
                } else if code == 6 {
                    t2.data.min_duration = Some(x);
                } else if code == 7 {
                    t2.data.max_duration = Some(x);
                } else if code == 8 {
                    t2.data.duration = Some(x);
                } else if code == 9 {
                    t2.data.min_players = Some(x);
                } else {
                    t2.data.max_players = Some(x);
                }
                proof {
                    assert(t2@ == set_num(t0, code, x));
                }
                return Ok(t2);
            },
        }
    }
    if code == 11 {
        let tyname = an_type_vec();
        let ty = attr_value(attrs, &tyname);
        let k = link_kind(&ty);
        if k == 0 {
            return Ok(t);
        }
        let idname = an_id_vec();
        let id = attr_value(attrs, &idname);
        let vname = an_value_vec();
        let nm = attr_value(attrs, &vname);
        let l = LinkData { bgg_id: id, name: nm };
        let ghost lv = l@;
        let mut t2 = t;
        if k == 1 {
            t2.links.categories.push(l);
            proof {
                assert(t2@.links.categories =~= t0.links.categories.push(lv));
            }
        } else if k == 2 {
            t2.links.families.push(l);
            proof {
                assert(t2@.links.families =~= t0.links.families.push(lv));
            }
        } else if k == 3 {
            t2.links.designers.push(l);
            proof {
                assert(t2@.links.designers =~= t0.links.designers.push(lv));
            }
        } else {
            t2.links.publishers.push(l);
            proof {
                assert(t2@.links.publishers =~= t0.links.publishers.push(lv));
            }
        }
        proof {
            assert(t2@ == push_link(t0, k, lv));
        }
        return Ok(t2);
    }
    Ok(t)
}

impl BggThing {
    /// Parses one `item` element body, seeded from its `id` and `type`
    /// attributes, consuming events until the end tag named `until`.
    #[verifier::loop_isolation(false)]
    pub fn extract_xml(
        evs: &Vec<XmlEvent>,
        from: usize,
        bgg_id: Vec<u8>,
        kind: Vec<u8>,
        until: &Vec<u8>,
    ) -> (r: Result<(BggThing, usize), Error>)
        requires
            from <= evs@.len(),
            evs@.len() < usize::MAX,
        ensures
            match r {
                Ok((t, j)) => thing_fields(
                    events_view(evs@),
                    from as int,
                    until@,
                    new_gthing(bgg_id@, kind@),
                ) == Ok::<(GThing, int), Error>((t@, j as int)) && from < j <= evs@.len(),
                Err(e) => thing_fields(
                    events_view(evs@),
                    from as int,
                    until@,
                    new_gthing(bgg_id@, kind@),
                ) == Err::<(GThing, int), Error>(e),
            },
    {
        let ghost v = events_view(evs@);
        let ghost gid = bgg_id@;
        let ghost gkind = kind@;
        let data = ThingData {
            bgg_id,
            kind,
            thumbnail: None,
            image: None,
            name: None,
            altnames: Vec::new(),
            description: None,
            year_published: None,
            min_players: None,
            max_players: None,
            min_duration: None,
            max_duration: None,
            duration: None,
        };
        let links = ThingLinks {
            categories: Vec::new(),
            families: Vec::new(),
            designers: Vec::new(),
            publishers: Vec::new(),
        };
        let mut cur = BggThing { data, links };
        proof {
            assert(cur@.data.altnames =~= Seq::<Seq<u8>>::empty());
            assert(cur@.links.categories =~= Seq::<GLink>::empty());
            assert(cur@.links.families =~= Seq::<GLink>::empty());
            assert(cur@.links.designers =~= Seq::<GLink>::empty());
            assert(cur@.links.publishers =~= Seq::<GLink>::empty());
            assert(cur@ == new_gthing(gid, gkind));
        }
        let mut i: usize = from;
        loop
            invariant
                from <= i <= evs@.len(),
                thing_fields(v, from as int, until@, new_gthing(gid, gkind)) == thing_fields(
                    v,
                    i as int,
                    until@,
                    cur@,
                ),
            decreases evs@.len() - i,
        {
            if i == evs.len() {
                return Err(Error::MalformedResponse);
            }
            proof {
                assert(v[i as int] == evs@[i as int]@);
            }
            match &evs[i] {
                XmlEvent::End { name: n } => {
                    if bytes_eq(n.as_slice(), until.as_slice()) {
                        return Ok((cur, i + 1));
                    }
                    return Err(Error::MalformedResponse);
                },
                XmlEvent::Start { name: n, .. } => {
                    let code = tag_code(n);
                    if code == 1 || code == 2 || code == 3 {
                        match collect_text_events(evs, i + 1, n) {
                            None => {
                                return Err(Error::MalformedResponse);
                            },
                            Some((txt, j)) => {
                                let ghost prev = cur@;
                                let ghost txtv = txt@;
                                if code == 1 {
                                    cur.data.thumbnail = Some(txt);
                                } else if code == 2 {
                                    cur.data.image = Some(txt);
                                } else {
                                    cur.data.description = Some(txt);
                                }
                                proof {
                                    assert(cur@ == set_text(prev, code, txtv));
                                }
                                i = j;
                            },
                        }
                    } else {
                        match skip_events(evs, i + 1, n) {
                            None => {
                                return Err(Error::MalformedResponse);
                            },
                            Some(j) => {
                                i = j;
                            },
                        }
                    }
                },
                XmlEvent::Empty { name: n, attrs: a } => {
                    match apply_empty_exec(cur, n, a) {
                        Err(e) => {
                            return Err(e);
                        },
                        Ok(t2) => {
                            cur = t2;
                            i = i + 1;
                        },
                    }
                },
                _ => {
                    i = i + 1;
                },
            }
        }
    }
}

/// Executable counterpart of `find_items`.
#[verifier::loop_isolation(false)]
fn find_items_at(evs: &Vec<XmlEvent>) -> (r: Result<usize, Error>)
    requires
        evs@.len() < usize::MAX,
    ensures
        match r {
            Ok(j) => find_items(events_view(evs@), 0) == Ok::<int, Error>(j as int) && j <= evs@.len(),
            Err(e) => find_items(events_view(evs@), 0) == Err::<int, Error>(e),
        },
{
    let ghost v = events_view(evs@);
    let mut i: usize = 0;
    loop
        invariant
            i <= evs@.len(),
            find_items(v, 0) == find_items(v, i as int),
        decreases evs@.len() - i,
    {
        if i == evs.len() {
            return Err(Error::MalformedResponse);
        }
        proof {
            assert(v[i as int] == evs@[i as int]@);
        }
        match &evs[i] {
            XmlEvent::Start { name: n, .. } => {
                if is_items(n) {
                    return Ok(i + 1);
                }
                match skip_events(evs, i + 1, n) {
                    None => {
                        return Err(Error::MalformedResponse);
                    },
                    Some(j) => {
                        i = j;
                    },
                }
            },
            XmlEvent::End { .. } => {
                return Err(Error::MalformedResponse);
            },
            _ => {
                i = i + 1;
            },
        }
    }
}

/// Parses a detail payload's events: the Things of its `items` container.
#[verifier::loop_isolation(false)]
pub fn parse_things(evs: &Vec<XmlEvent>) -> (r: Result<Vec<BggThing>, Error>)
    requires
        evs@.len() < usize::MAX,
    ensures
        match r {
            Ok(ts) => things_outcome(events_view(evs@)) == Ok::<Seq<GThing>, Error>(
                things_view(ts@),
            ),
            Err(e) => things_outcome(events_view(evs@)) == Err::<Seq<GThing>, Error>(e),
        },
{
    let ghost v = events_view(evs@);
    let start = match find_items_at(evs) {
        Err(e) => {
            return Err(e);
        },
        Ok(j) => j,
    };
    let mut out: Vec<BggThing> = Vec::new();
    let mut i: usize = start;
    proof {
        assert(things_view(out@) =~= Seq::<GThing>::empty());
        match things_from(v, start as int) {
            Ok(ts) => {
                assert(things_view(out@) + ts =~= ts);
            },
            Err(e) => {},
        }
    }
    loop
        invariant
            start <= i <= evs@.len(),
            res_prepend(things_view(out@), things_from(v, i as int)) == things_from(
                v,
                start as int,
            ),
        decreases evs@.len() - i,
    {
        if i == evs.len() {
            return Err(Error::MalformedResponse);
        }
        proof {
            assert(v[i as int] == evs@[i as int]@);
        }
        match &evs[i] {
            XmlEvent::Start { name: n, attrs: a } => {
                if is_item(n) {
                    let idname = an_id_vec();
                    let id = attr_value(a, &idname);
                    let tyname = an_type_vec();
                    let kd = attr_value(a, &tyname);
                    match BggThing::extract_xml(evs, i + 1, id, kd, n) {
                        Err(e) => {
                            return Err(e);
                        },
                        Ok((t, j)) => {
                            let ghost tv = t@;
                            proof {
                                assert(things_view(out@.push(t)) =~= things_view(out@)
                                    + seq![tv]);
                                match things_from(v, j as int) {
                                    Ok(ts) => {
                                        assert(things_view(out@) + (seq![tv] + ts) =~= (
                                        things_view(out@) + seq![tv]) + ts);
                                    },
                                    Err(e) => {},
                                }
                            }
                            out.push(t);
                            i = j;
                        },
                    }
                } else {
                    match skip_events(evs, i + 1, n) {
                        None => {
                            return Err(Error::MalformedResponse);
                        },
                        Some(j) => {
                            i = j;
                        },
                    }
                }
            },
            XmlEvent::End { name: n } => {
                if is_items(n) {
                    proof {
                        assert(things_from(v, i as int) == Ok::<Seq<GThing>, Error>(
                            Seq::empty(),
                        ));
                        assert(things_view(out@) + Seq::<GThing>::empty() =~= things_view(out@));
                    }
                    return Ok(out);
                }
                i = i + 1;
            },
            _ => {
                i = i + 1;
            },
        }
    }
}

/// Parses a whole detail payload: scan, then extract. A payload whose scan
/// fails is a malformed response; so is one with no `items` container.
pub fn parse_things_payload(payload: &Vec<u8>) -> (r: Result<Vec<BggThing>, Error>)
    requires
        payload@.len() < usize::MAX,
    ensures
        match r {
            Ok(ts) => detail_outcome(payload@) == Ok::<Seq<GThing>, Error>(things_view(ts@)),
            Err(e) => detail_outcome(payload@) == Err::<Seq<GThing>, Error>(e),
        },
{
    let (evs, complete) = crate::xml::tokenize(payload);
    if !complete {
        return Err(Error::MalformedResponse);
    }
    parse_things(&evs)
}

/// Extracts the search candidates from a list of events.
#[verifier::loop_isolation(false)]
pub fn items_of_events(evs: &Vec<XmlEvent>) -> (r: Vec<SearchItem>)
    ensures
        items_view(r@) == search_items_of(events_view(evs@)),
{
    let ghost v = events_view(evs@);
    let mut out: Vec<SearchItem> = Vec::new();
    let mut i: usize = 0;
    proof {
        assert(v.subrange(0, v.len() as int) =~= v);
        assert(items_view(out@) =~= Seq::<GSearchItem>::empty());
        assert(items_view(out@) + search_items_of(v) =~= search_items_of(v));
    }
    while i < evs.len()
        invariant
            i <= evs@.len(),
            search_items_of(v) == items_view(out@) + search_items_of(
                v.subrange(i as int, v.len() as int),
            ),
        decreases evs@.len() - i,
    {
        let ghost suf = v.subrange(i as int, v.len() as int);
        proof {
            assert(suf[0] == v[i as int]);
            assert(suf.drop_first() =~= v.subrange(i + 1 as int, v.len() as int));
            assert(v[i as int] == evs@[i as int]@);
        }
        match &evs[i] {
            XmlEvent::Start { name: n, attrs: a } => {
                if is_item(n) {
                    let idname = an_id_vec();
                    let id = attr_value(a, &idname);
                    let tyname = an_type_vec();
                    let kd = attr_value(a, &tyname);
                    let item = SearchItem { id, kind: kd };
                    let ghost iv = item@;
                    let ghost pre = items_view(out@);
                    out.push(item);
                    proof {
                        assert(items_view(out@) =~= pre + seq![iv]);
                        assert(pre + (seq![iv] + search_items_of(suf.drop_first())) =~= (pre
                            + seq![iv]) + search_items_of(suf.drop_first()));
                    }
                }
            },
            _ => {},
        }
        i = i + 1;
    }
    proof {
        assert(v.subrange(v.len() as int, v.len() as int).len() == 0);
        assert(items_view(out@) + Seq::<GSearchItem>::empty() =~= items_view(out@));
    }
    out
}

/// Parses a whole search payload: candidates from whatever scans; malformed
/// elements after the last scannable event are skipped rather than fatal.
pub fn parse_search_payload(payload: &Vec<u8>) -> (r: Vec<SearchItem>)
    ensures
        items_view(r@) == search_outcome(payload@),
{
    let (evs, _complete) = crate::xml::tokenize(payload);
    items_of_events(&evs)
}

} // verus!
