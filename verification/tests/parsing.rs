//! Tests of the XML scanner and the entity parser.

use bgg_cache::domain::BggThing;
use bgg_cache::errors::Error;
use bgg_cache::parse::{parse_i32, parse_search_payload, parse_things_payload};
use bgg_cache::xml::{tokenize, unescape_bytes, XmlEvent};

fn bytes(s: &str) -> Vec<u8> {
    s.as_bytes().to_vec()
}

fn parse_one(payload: &str) -> BggThing {
    let mut things = parse_things_payload(&bytes(payload)).expect("payload should parse");
    assert_eq!(things.len(), 1);
    things.pop().unwrap()
}

#[test]
fn search_payload_lists_item_candidates() {
    let payload = "<?xml version=\"1.0\"?>\n<items total=\"2\">\
        <item id=\"101\" type=\"boardgame\"><name value=\"x\"/></item>\
        <item id=\"102\" type=\"boardgameexpansion\"><name value=\"y\"/></item>\
        </items>";
    let items = parse_search_payload(&bytes(payload));
    assert_eq!(items.len(), 2);
    assert_eq!(items[0].id, bytes("101"));
    assert_eq!(items[0].kind, bytes("boardgame"));
    assert_eq!(items[1].id, bytes("102"));
    assert_eq!(items[1].kind, bytes("boardgameexpansion"));
}

#[test]
fn search_payload_skips_malformed_tail() {
    let payload = "<items><item id=\"7\" type=\"boardgame\"></item><item id=\"8";
    let items = parse_search_payload(&bytes(payload));
    assert_eq!(items.len(), 1);
    assert_eq!(items[0].id, bytes("7"));
}

#[test]
fn detail_payload_fills_every_field() {
    let t = parse_one(
        "<?xml version=\"1.0\" encoding=\"utf-8\"?>\
        <items termsofuse=\"https://example.test\">\
        <item id=\"13\" type=\"boardgame\">\
        <thumbnail>https://cf.example/thumb.jpg</thumbnail>\
        <image>https://cf.example/img.jpg</image>\
        <name type=\"primary\" sortindex=\"1\" value=\"Catan\"/>\
        <name type=\"alternate\" value=\"Die Siedler\"/>\
        <name type=\"alternate\" value=\"Catane\"/>\
        <description>Trade &amp; build.</description>\
        <yearpublished value=\"1995\"/>\
        <minplayers value=\"3\"/>\
        <maxplayers value=\"4\"/>\
        <playingtime value=\"120\"/>\
        <minplaytime value=\"60\"/>\
        <maxplaytime value=\"120\"/>\
        <link type=\"boardgamecategory\" id=\"1021\" value=\"Economic\"/>\
        <link type=\"boardgamefamily\" id=\"3\" value=\"Settlers\"/>\
        <link type=\"boardgamedesigner\" id=\"11\" value=\"Klaus Teuber\"/>\
        <link type=\"boardgamepublisher\" id=\"37\" value=\"KOSMOS\"/>\
        </item></items>",
    );
    assert_eq!(t.data.bgg_id, bytes("13"));
    assert_eq!(t.data.kind, bytes("boardgame"));
    assert_eq!(t.data.thumbnail, Some(bytes("https://cf.example/thumb.jpg")));
    assert_eq!(t.data.image, Some(bytes("https://cf.example/img.jpg")));
    assert_eq!(t.data.name, Some(bytes("Catan")));
    assert_eq!(t.data.altnames, vec![bytes("Die Siedler"), bytes("Catane")]);
    // Text content is taken verbatim; only attribute values are unescaped.
    assert_eq!(t.data.description, Some(bytes("Trade &amp; build.")));
    assert_eq!(t.data.year_published, Some(1995));
    assert_eq!(t.data.min_players, Some(3));
    assert_eq!(t.data.max_players, Some(4));
    assert_eq!(t.data.duration, Some(120));
    assert_eq!(t.data.min_duration, Some(60));
    assert_eq!(t.data.max_duration, Some(120));
    assert_eq!(t.links.categories.len(), 1);
    assert_eq!(t.links.categories[0].bgg_id, bytes("1021"));
    assert_eq!(t.links.categories[0].name, bytes("Economic"));
    assert_eq!(t.links.families.len(), 1);
    assert_eq!(t.links.designers.len(), 1);
    assert_eq!(t.links.publishers.len(), 1);
}

#[test]
fn last_primary_name_wins() {
    let t = parse_one(
        "<items><item id=\"1\" type=\"boardgame\">\
        <name type=\"primary\" value=\"A\"/>\
        <name type=\"primary\" value=\"B\"/>\
        </item></items>",
    );
    assert_eq!(t.data.name, Some(bytes("B")));
}

#[test]
fn unknown_name_type_is_ignored() {
    let t = parse_one(
        "<items><item id=\"1\" type=\"boardgame\">\
        <name type=\"primary\" value=\"A\"/>\
        <name type=\"nickname\" value=\"Z\"/>\
        </item></items>",
    );
    assert_eq!(t.data.name, Some(bytes("A")));
    assert!(t.data.altnames.is_empty());
}

#[test]
fn unrecognized_link_type_is_absent_from_all_lists() {
    let t = parse_one(
        "<items><item id=\"2\" type=\"boardgame\">\
        <name type=\"primary\" value=\"G\"/>\
        <yearpublished value=\"2001\"/>\
        <link type=\"boardgamecategory\" id=\"5\" value=\"Dice\"/>\
        <link type=\"boardgamemechanic\" id=\"9\" value=\"Rolling\"/>\
        </item></items>",
    );
    assert_eq!(t.data.name, Some(bytes("G")));
    assert_eq!(t.data.year_published, Some(2001));
    assert_eq!(t.links.categories.len(), 1);
    assert_eq!(t.links.families.len(), 0);
    assert_eq!(t.links.designers.len(), 0);
    assert_eq!(t.links.publishers.len(), 0);
}

#[test]
fn unknown_subtree_is_skipped_whole() {
    let t = parse_one(
        "<items><item id=\"3\" type=\"boardgame\">\
        <statistics page=\"1\"><ratings><average value=\"7.1\"/></ratings></statistics>\
        <name type=\"primary\" value=\"Deep\"/>\
        </item></items>",
    );
    assert_eq!(t.data.name, Some(bytes("Deep")));
}

#[test]
fn non_numeric_field_aborts_the_batch() {
    let r = parse_things_payload(&bytes(
        "<items><item id=\"1\" type=\"boardgame\">\
        <yearpublished value=\"abc\"/>\
        </item></items>",
    ));
    assert!(matches!(r, Err(Error::FieldParse)));
}

#[test]
fn missing_items_container_is_malformed() {
    let r = parse_things_payload(&bytes("<?xml version=\"1.0\"?><other></other>"));
    assert!(matches!(r, Err(Error::MalformedResponse)));
}

#[test]
fn unclosed_tag_is_malformed() {
    let r = parse_things_payload(&bytes("<items><item id=\"1\" type=\"b\""));
    assert!(matches!(r, Err(Error::MalformedResponse)));
}

#[test]
fn stray_end_tag_inside_item_is_malformed() {
    let r = parse_things_payload(&bytes(
        "<items><item id=\"1\" type=\"b\"></wrong></item></items>",
    ));
    assert!(matches!(r, Err(Error::MalformedResponse)));
}

#[test]
fn declaration_comment_and_cdata_are_handled() {
    let t = parse_one(
        "<?xml version=\"1.0\"?><!-- a comment -->\
        <items><item id=\"4\" type=\"boardgame\">\
        <description><![CDATA[x < y & z]]></description>\
        </item></items>",
    );
    assert_eq!(t.data.description, Some(bytes("x < y & z")));
}

#[test]
fn attribute_entities_are_unescaped() {
    let t = parse_one(
        "<items><item id=\"5\" type=\"boardgame\">\
        <name type=\"primary\" value=\"A &amp; B &lt;&gt; &quot;&apos; &#65; &#x42;\"/>\
        </item></items>",
    );
    assert_eq!(t.data.name, Some(bytes("A & B <> \"' A B")));
}

#[test]
fn unescape_keeps_unknown_and_unterminated_references() {
    assert_eq!(unescape_bytes(&bytes("a&unknown;b")), bytes("a&unknown;b"));
    assert_eq!(unescape_bytes(&bytes("a&amp")), bytes("a&amp"));
    assert_eq!(unescape_bytes(&bytes("&#xD800;")), bytes("&#xD800;"));
    assert_eq!(unescape_bytes(&bytes("caf&#233;")), "café".as_bytes().to_vec());
}

#[test]
fn tokenize_reports_completion() {
    let (evs, complete) = tokenize(&bytes("<a x=\"1\">t</a>"));
    assert!(complete);
    assert_eq!(evs.len(), 3);
    match &evs[0] {
        XmlEvent::Start { name, attrs } => {
            assert_eq!(name, &bytes("a"));
            assert_eq!(attrs.len(), 1);
            assert_eq!(attrs[0].0, bytes("x"));
            assert_eq!(attrs[0].1, bytes("1"));
        },
        _ => panic!("expected a start tag"),
    }
    let (_, complete2) = tokenize(&bytes("<a x=\"1"));
    assert!(!complete2);
}

#[test]
fn parse_i32_reads_decimal_integers() {
    assert_eq!(parse_i32(&bytes("123")), Some(123));
    assert_eq!(parse_i32(&bytes("+7")), Some(7));
    assert_eq!(parse_i32(&bytes("-45")), Some(-45));
    assert_eq!(parse_i32(&bytes("00042")), Some(42));
    assert_eq!(parse_i32(&bytes("2147483647")), Some(2147483647));
    assert_eq!(parse_i32(&bytes("-2147483648")), Some(-2147483648));
    assert_eq!(parse_i32(&bytes("2147483648")), None);
    assert_eq!(parse_i32(&bytes("-2147483649")), None);
    assert_eq!(parse_i32(&bytes("")), None);
    assert_eq!(parse_i32(&bytes("-")), None);
    assert_eq!(parse_i32(&bytes("12a")), None);
    assert_eq!(parse_i32(&bytes(" 12")), None);
}

#[test]
fn into_data_keeps_the_own_attributes() {
    let t = parse_one(
        "<items><item id=\"6\" type=\"boardgame\">\
        <name type=\"primary\" value=\"N\"/>\
        </item></items>",
    );
    let d = t.into_data();
    assert_eq!(d.bgg_id, bytes("6"));
    assert_eq!(d.name, Some(bytes("N")));
}
