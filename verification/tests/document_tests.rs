use rssss::ErrorCode;
use rssss::FeedDocument;
use rssss::Outline;
use rssss::RssSource;
use rssss::add_item;
use rssss::merge;
use rssss::parse;
use rssss::remove_item;
use rssss::serialize;

#[test]
fn test_rss_source_size() {
    let default_size = RssSource::default_size();
    println!("default size {}", default_size);
}

#[test]
fn der_and_ser_rss_source() {
    let rss_source = RssSource::default();
    let bytes = rss_source.document().clone();
    let opml = parse(&bytes).unwrap();
    println!("opml = {:#?}", opml);
}

#[test]
fn default_document_has_sample_outline() {
    let rss_source = RssSource::default();
    let doc = parse(rss_source.document()).unwrap();
    assert_eq!(doc.title, b"Your Subscription List".to_vec());
    assert_eq!(doc.outlines.len(), 1);
    assert_eq!(doc.outlines[0].text, b"24 ways".to_vec());
    assert_eq!(doc.outlines[0].html_url, b"http://24ways.org/".to_vec());
    assert_eq!(
        doc.outlines[0].xml_url,
        b"http://feeds.feedburner.com/24ways".to_vec()
    );
}

#[test]
fn round_trip_default_document() {
    let rss_source = RssSource::default();
    let doc = parse(rss_source.document()).unwrap();
    let bytes = serialize(&doc).unwrap();
    assert_eq!(&bytes, rss_source.document());
    let doc2 = parse(&bytes).unwrap();
    assert_eq!(doc2, doc);
}

#[test]
fn round_trip_custom_document() {
    let doc = FeedDocument {
        title: b"My Feeds".to_vec(),
        outlines: vec![
            Outline {
                text: b"first".to_vec(),
                html_url: b"http://a.example/".to_vec(),
                xml_url: b"http://a.example/feed".to_vec(),
            },
            Outline {
                text: b"second".to_vec(),
                html_url: b"http://b.example/".to_vec(),
                xml_url: b"http://b.example/feed".to_vec(),
            },
        ],
    };
    let bytes = serialize(&doc).unwrap();
    let parsed = parse(&bytes).unwrap();
    assert_eq!(parsed, doc);
}

#[test]
fn round_trip_empty_document() {
    let doc = FeedDocument { title: Vec::new(), outlines: Vec::new() };
    let bytes = serialize(&doc).unwrap();
    let parsed = parse(&bytes).unwrap();
    assert_eq!(parsed, doc);
}

#[test]
fn parse_rejects_garbage() {
    let bytes = b"this is not a feed document".to_vec();
    assert_eq!(parse(&bytes), Err(ErrorCode::DocumentCorrupt));
}

#[test]
fn parse_rejects_truncated_document() {
    let rss_source = RssSource::default();
    let mut bytes = rss_source.document().clone();
    bytes.pop();
    assert_eq!(parse(&bytes), Err(ErrorCode::DocumentCorrupt));
}

#[test]
fn serialize_rejects_oversized_document() {
    let doc = FeedDocument {
        title: vec![b'x'; 11000],
        outlines: Vec::new(),
    };
    assert_eq!(serialize(&doc), Err(ErrorCode::DocumentCapacityExceeded));
}

#[test]
fn add_item_appends_at_end() {
    let mut rss_source = RssSource::default();
    add_item(
        &mut rss_source,
        b"example".to_vec(),
        b"http://example.org/".to_vec(),
        b"http://example.org/feed".to_vec(),
    )
    .unwrap();
    let doc = parse(rss_source.document()).unwrap();
    assert_eq!(doc.outlines.len(), 2);
    assert_eq!(doc.outlines[0].text, b"24 ways".to_vec());
    assert_eq!(doc.outlines[1].text, b"example".to_vec());
    assert_eq!(doc.outlines[1].xml_url, b"http://example.org/feed".to_vec());
}

#[test]
fn add_item_rejects_quote_byte() {
    let mut rss_source = RssSource::default();
    let before = rss_source.document().clone();
    let r = add_item(
        &mut rss_source,
        b"bad \" name".to_vec(),
        b"http://example.org/".to_vec(),
        b"http://example.org/feed".to_vec(),
    );
    assert_eq!(r, Err(ErrorCode::DocumentCorrupt));
    assert_eq!(rss_source.document(), &before);
}

#[test]
fn add_item_rejects_oversized_item() {
    let mut rss_source = RssSource::default();
    let before = rss_source.document().clone();
    let r = add_item(
        &mut rss_source,
        vec![b'x'; 11000],
        b"http://example.org/".to_vec(),
        b"http://example.org/feed".to_vec(),
    );
    assert_eq!(r, Err(ErrorCode::DocumentCapacityExceeded));
    assert_eq!(rss_source.document(), &before);
}

#[test]
fn remove_item_removes_every_match() {
    let mut rss_source = RssSource::default();
    add_item(
        &mut rss_source,
        b"one".to_vec(),
        b"http://one.example/".to_vec(),
        b"http://dup.example/feed".to_vec(),
    )
    .unwrap();
    add_item(
        &mut rss_source,
        b"two".to_vec(),
        b"http://two.example/".to_vec(),
        b"http://dup.example/feed".to_vec(),
    )
    .unwrap();
    remove_item(&mut rss_source, b"http://dup.example/feed".to_vec()).unwrap();
    let doc = parse(rss_source.document()).unwrap();
    assert_eq!(doc.outlines.len(), 1);
    assert_eq!(doc.outlines[0].text, b"24 ways".to_vec());
}

#[test]
fn remove_item_is_idempotent() {
    let mut rss_source = RssSource::default();
    remove_item(&mut rss_source, b"http://absent.example/feed".to_vec()).unwrap();
    let once = rss_source.document().clone();
    remove_item(&mut rss_source, b"http://absent.example/feed".to_vec()).unwrap();
    let twice = rss_source.document().clone();
    assert_eq!(once, twice);
    let doc = parse(&twice).unwrap();
    assert_eq!(doc.outlines.len(), 1);
}

#[test]
fn add_after_remove_is_not_a_round_trip() {
    // Removal is destructive: re-adding the same xml_url does not restore
    // the earlier attributes.
    let mut rss_source = RssSource::default();
    add_item(
        &mut rss_source,
        b"old name".to_vec(),
        b"http://old.example/".to_vec(),
        b"http://key.example/feed".to_vec(),
    )
    .unwrap();
    remove_item(&mut rss_source, b"http://key.example/feed".to_vec()).unwrap();
    add_item(
        &mut rss_source,
        b"new name".to_vec(),
        b"http://new.example/".to_vec(),
        b"http://key.example/feed".to_vec(),
    )
    .unwrap();
    let doc = parse(rss_source.document()).unwrap();
    assert_eq!(doc.outlines.len(), 2);
    assert_eq!(doc.outlines[1].text, b"new name".to_vec());
    assert_eq!(doc.outlines[1].html_url, b"http://new.example/".to_vec());
    assert_ne!(doc.outlines[1].text, b"old name".to_vec());
}

#[test]
fn merge_with_equal_document_changes_nothing() {
    let mut a = RssSource::default();
    add_item(
        &mut a,
        b"extra".to_vec(),
        b"http://extra.example/".to_vec(),
        b"http://extra.example/feed".to_vec(),
    )
    .unwrap();
    let b = {
        let mut b = RssSource::default();
        add_item(
            &mut b,
            b"extra".to_vec(),
            b"http://extra.example/".to_vec(),
            b"http://extra.example/feed".to_vec(),
        )
        .unwrap();
        b
    };
    let before = a.document().clone();
    merge(&mut a, &b).unwrap();
    assert_eq!(a.document(), &before);
}

#[test]
fn merge_unions_by_xml_url() {
    let mut a = RssSource::default();
    add_item(
        &mut a,
        b"a only".to_vec(),
        b"http://a.example/".to_vec(),
        b"http://a.example/feed".to_vec(),
    )
    .unwrap();
    let mut b = RssSource::default();
    add_item(
        &mut b,
        b"b only".to_vec(),
        b"http://b.example/".to_vec(),
        b"http://b.example/feed".to_vec(),
    )
    .unwrap();
    merge(&mut a, &b).unwrap();
    let doc = parse(a.document()).unwrap();
    // a's entries first and unchanged, then b's unmatched entries in order;
    // the shared default outline is kept once, from a.
    assert_eq!(doc.outlines.len(), 3);
    assert_eq!(doc.outlines[0].text, b"24 ways".to_vec());
    assert_eq!(doc.outlines[1].text, b"a only".to_vec());
    assert_eq!(doc.outlines[2].text, b"b only".to_vec());
}

#[test]
fn error_messages_are_fixed() {
    assert_eq!(ErrorCode::NotListed.message(), "not listed");
    assert_eq!(ErrorCode::IncorrectAmount.message(), "incorrect amount");
    assert_eq!(ErrorCode::InsufficientBalance.message(), "Insufficient balance.");
    assert_eq!(ErrorCode::MaxUsersReached.message(), "Max users reached.");
    assert_eq!(ErrorCode::DocumentCorrupt.message(), "Document corrupt.");
    assert_eq!(
        ErrorCode::DocumentCapacityExceeded.message(),
        "Document capacity exceeded."
    );
}
