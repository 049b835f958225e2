//! The document store: one user's feed-list document and its operations.
//!
//! The store holds the serialized byte buffer; every operation parses it,
//! rewrites the outline list, and serializes the result back, exactly as
//! the operations are exposed to callers.  The merge operation deduplicates
//! by `xml_url`, the natural key of an outline; `add_item` deliberately does
//! not: the mismatch between the two is kept visible as a recorded choice
//! point rather than silently resolved.

use vstd::prelude::*;

use crate::codec::ANGLE;
use crate::codec::DOCUMENT_CAPACITY;
use crate::codec::DocModel;
use crate::codec::FeedDocument;
use crate::codec::Outline;
use crate::codec::OutlineModel;
use crate::codec::QUOTE;
use crate::codec::bytes_eq;
use crate::codec::contains_byte;
use crate::codec::default_html_url;
use crate::codec::default_html_url_vec;
use crate::codec::default_text;
use crate::codec::default_text_vec;
use crate::codec::default_title;
use crate::codec::default_title_vec;
use crate::codec::default_xml_url;
use crate::codec::default_xml_url_vec;
use crate::codec::has_canonical_form;
use crate::codec::lemma_serialize_spec_injective;
use crate::codec::no_byte;
use crate::codec::outline_views;
use crate::codec::parse;
use crate::codec::serialize;
use crate::codec::serialize_spec;
use crate::codec::wf_doc;
use crate::codec::wf_outline;
use crate::errors::ErrorCode;

verus! {

/// The outline of the sample feed every fresh document starts with.
pub open spec fn default_outline() -> OutlineModel {
    OutlineModel {
        text: default_text(),
        html_url: default_html_url(),
        xml_url: default_xml_url(),
    }
}

/// The content of a freshly initialized document: the default title and
/// one sample outline.
pub open spec fn default_doc() -> DocModel {
    DocModel { title: default_title(), outlines: seq![default_outline()] }
}

/// A user's feed-list document, stored in its serialized markup form and
/// bounded at `DOCUMENT_CAPACITY` bytes.
pub struct RssSource {
    document: Vec<u8>,
    model: Ghost<DocModel>,
}

impl View for RssSource {
    type V = DocModel;

    /// The document's mathematical content.
    closed spec fn view(&self) -> DocModel {
        self.model@
    }
}

impl RssSource {
    /// The store is well-formed: the buffer is the canonical markup of its
    /// well-formed content and fits the capacity.
    pub closed spec fn wf(&self) -> bool {
        wf_doc(self.model@) && serialize_spec(self.model@) == self.document@
            && self.document@.len() <= DOCUMENT_CAPACITY
    }

    /// The serialized document bytes.
    pub fn document(&self) -> (r: &Vec<u8>)
        ensures
            self.wf() ==> r@ == serialize_spec(self@),
    {
        &self.document
    }

    /// The byte size of the store value itself (not of the heap buffer it
    /// points to).
    pub fn default_size() -> usize {
        let default_value = RssSource::default();
        size_of_value(&default_value)
    }
}

/// Relies on core::mem::size_of_val: the size in bytes of the referenced
/// value's own representation.
#[verifier::external_body]
fn size_of_value(value: &RssSource) -> usize {
    core::mem::size_of_val(value)
}

impl Default for RssSource {
    /// A fresh document: the default title and the one sample outline.
    fn default() -> (r: Self)
        ensures
            r.wf(),
            r@ == default_doc(),
    {
        let title = default_title_vec();
        let mut outlines: Vec<Outline> = Vec::new();
        outlines.push(
            Outline {
                text: default_text_vec(),
                html_url: default_html_url_vec(),
                xml_url: default_xml_url_vec(),
            },
        );
        let d = FeedDocument { title, outlines };
        proof {
            assert(outline_views(d.outlines@) =~= seq![default_outline()]);
            assert(d@ =~= default_doc());
            assert(no_byte(default_title(), ANGLE));
            assert(no_byte(default_text(), QUOTE));
            assert(no_byte(default_html_url(), QUOTE));
            assert(no_byte(default_xml_url(), QUOTE));
            assert(wf_doc(default_doc()));
        }
        match serialize(&d) {
            Ok(out) => RssSource { document: out, model: Ghost(default_doc()) },
            Err(_) => {
                proof {
                    // the default document is 199 bytes, far under capacity
                    lemma_serialize_len(default_doc());
                    assert(seq![default_outline()].drop_first()
                        =~= Seq::<OutlineModel>::empty());
                    assert(crate::codec::body_bytes(Seq::<OutlineModel>::empty())
                        == Seq::<u8>::empty());
                    assert(crate::codec::body_bytes(default_doc().outlines)
                        == crate::codec::entry_bytes(default_outline()) + crate::codec::body_bytes(
                        Seq::<OutlineModel>::empty(),
                    ));
                    assert(serialize_spec(default_doc()).len() <= DOCUMENT_CAPACITY);
                    assert(false);
                }
                RssSource { document: Vec::new(), model: Ghost(default_doc()) }
            },
        }
    }
}

/// Parses the store's own buffer, which the well-formedness invariant
/// guarantees to be canonical markup.
fn parse_own(source: &RssSource) -> (d: FeedDocument)
    requires
        source.wf(),
    ensures
        wf_doc(d@),
        d@ == source@,
{
    match parse(&source.document) {
        Ok(d) => {
            proof {
                lemma_serialize_spec_injective(d@, source@);
            }
            d
        },
        Err(_) => {
            proof {
                assert(has_canonical_form(source.document@));
                assert(false);
            }
            FeedDocument { title: Vec::new(), outlines: Vec::new() }
        },
    }
}

/// The content after appending one outline.
pub open spec fn added_model(m: DocModel, o: OutlineModel) -> DocModel {
    DocModel { title: m.title, outlines: m.outlines.push(o) }
}

/// Appends a new outline of type `rss` at the end of the document,
/// preserving the existing order.  A duplicate `xml_url` is not rejected.
/// Fails with `DocumentCorrupt` when a field holds the quote byte that
/// closes a markup attribute, and with `DocumentCapacityExceeded` when the
/// grown document would no longer fit; either failure leaves the document
/// unchanged.
pub fn add_item(rss_source: &mut RssSource, text: Vec<u8>, html_url: Vec<u8>, xml_url: Vec<u8>)
    -> (r: Result<(), ErrorCode>)
    requires
        old(rss_source).wf(),
    ensures
        final(rss_source).wf(),
        ({
            let o = OutlineModel { text: text@, html_url: html_url@, xml_url: xml_url@ };
            let m2 = added_model(old(rss_source)@, o);
            if !wf_outline(o) {
                r == Err::<(), ErrorCode>(ErrorCode::DocumentCorrupt) && final(rss_source)@
                    == old(rss_source)@
            } else if serialize_spec(m2).len() > DOCUMENT_CAPACITY {
                r == Err::<(), ErrorCode>(ErrorCode::DocumentCapacityExceeded)
                    && final(rss_source)@ == old(rss_source)@
            } else {
                r == Ok::<(), ErrorCode>(()) && final(rss_source)@ == m2
            }
        }),
{
    if contains_byte(&text, QUOTE) || contains_byte(&html_url, QUOTE) || contains_byte(
        &xml_url,
        QUOTE,
    ) {
        return Err(ErrorCode::DocumentCorrupt);
    }
    let mut d = parse_own(rss_source);
    let ghost o = OutlineModel { text: text@, html_url: html_url@, xml_url: xml_url@ };
    d.outlines.push(Outline { text, html_url, xml_url });
    proof {
        assert(outline_views(d.outlines@) =~= old(rss_source)@.outlines.push(o));
        assert(d@ =~= added_model(old(rss_source)@, o));
        assert forall|i: int|
            0 <= i < d@.outlines.len() implies wf_outline(#[trigger] d@.outlines[i]) by {
            if i < d@.outlines.len() - 1 {
                assert(d@.outlines[i] == old(rss_source)@.outlines[i]);
            }
        }
        assert(wf_doc(d@));
    }
    match serialize(&d) {
        Ok(out) => {
            rss_source.document = out;
            rss_source.model = Ghost(d@);
            Ok(())
        },
        Err(_) => Err(ErrorCode::DocumentCapacityExceeded),
    }
}

/// The outlines of `s` whose `xml_url` differs from `x`, in order.
pub open spec fn remove_key(s: Seq<OutlineModel>, x: Seq<u8>) -> Seq<OutlineModel>
    decreases s.len(),
{
    if s.len() == 0 {
        s
    } else if s.first().xml_url == x {
        remove_key(s.drop_first(), x)
    } else {
        seq![s.first()] + remove_key(s.drop_first(), x)
    }
}

/// Whether some outline in `s` has `x` as its `xml_url`.
pub open spec fn has_key(s: Seq<OutlineModel>, x: Seq<u8>) -> bool {
    exists|i: int| 0 <= i < s.len() && s[i].xml_url == x
}

/// The body markup of a cons cell is the entry followed by the rest.
proof fn lemma_body_cons(f: OutlineModel, t: Seq<OutlineModel>)
    ensures
        crate::codec::body_bytes(seq![f] + t) == crate::codec::entry_bytes(f)
            + crate::codec::body_bytes(t),
{
    assert((seq![f] + t).len() > 0);
    assert((seq![f] + t).first() == f);
    assert((seq![f] + t).drop_first() =~= t);
}

/// Removing outlines never grows the body markup.
proof fn lemma_remove_key_len(s: Seq<OutlineModel>, x: Seq<u8>)
    ensures
        crate::codec::body_bytes(remove_key(s, x)).len() <= crate::codec::body_bytes(s).len(),
    decreases s.len(),
{
    if s.len() == 0 {
    } else if s.first().xml_url == x {
        lemma_remove_key_len(s.drop_first(), x);
        assert(crate::codec::body_bytes(s) == crate::codec::entry_bytes(s.first())
            + crate::codec::body_bytes(s.drop_first()));
        assert(crate::codec::body_bytes(s).len() == crate::codec::entry_bytes(s.first()).len()
            + crate::codec::body_bytes(s.drop_first()).len());
    } else {
        lemma_remove_key_len(s.drop_first(), x);
        lemma_body_cons(s.first(), remove_key(s.drop_first(), x));
        assert(crate::codec::body_bytes(s) == crate::codec::entry_bytes(s.first())
            + crate::codec::body_bytes(s.drop_first()));
        assert(crate::codec::body_bytes(s).len() == crate::codec::entry_bytes(s.first()).len()
            + crate::codec::body_bytes(s.drop_first()).len());
        assert(crate::codec::body_bytes(remove_key(s, x)).len()
            == crate::codec::entry_bytes(s.first()).len() + crate::codec::body_bytes(
            remove_key(s.drop_first(), x),
        ).len());
    }
}

/// Removes every outline whose `xml_url` equals the argument and keeps all
/// others in order.  Removing a key that is not present is a no-op, not an
/// error; the operation itself never fails.
pub fn remove_item(rss_source: &mut RssSource, xml_url: Vec<u8>) -> (r: Result<(), ErrorCode>)
    requires
        old(rss_source).wf(),
    ensures
        final(rss_source).wf(),
        r == Ok::<(), ErrorCode>(()),
        final(rss_source)@.title == old(rss_source)@.title,
        final(rss_source)@.outlines == remove_key(old(rss_source)@.outlines, xml_url@),
{
    let mut d = parse_own(rss_source);
    let ghost s0 = outline_views(d.outlines@);
    let mut kept: Vec<Outline> = Vec::new();
    proof {
        assert(s0.skip(0) =~= s0);
        assert(outline_views(kept@) =~= Seq::<OutlineModel>::empty());
        assert(outline_views(kept@) + remove_key(s0.skip(0), xml_url@) =~= remove_key(
            s0,
            xml_url@,
        ));
    }
    let n = d.outlines.len();
    let mut i: usize = 0;
    while i < n
        invariant
            n == d.outlines@.len(),
            0 <= i <= n,
            s0 == outline_views(d.outlines@),
            wf_doc(d@),
            remove_key(s0, xml_url@) == outline_views(kept@) + remove_key(
                s0.skip(i as int),
                xml_url@,
            ),
            forall|k: int| 0 <= k < kept@.len() ==> wf_outline((#[trigger] kept@[k])@),
            forall|k: int| 0 <= k < kept@.len() ==> (#[trigger] kept@[k])@.xml_url != xml_url@,
        decreases n - i,
    {
        let ghost kept0 = outline_views(kept@);
        proof {
            assert(s0.skip(i as int).first() == s0[i as int]);
            assert(s0.skip(i as int).drop_first() =~= s0.skip(i as int + 1));
            assert(s0[i as int] == d.outlines@[i as int]@);
        }
        if bytes_eq(&d.outlines[i].xml_url, &xml_url) {
            i = i + 1;
            continue ;
        }
        let o = Outline {
            text: copy_bytes(&d.outlines[i].text),
            html_url: copy_bytes(&d.outlines[i].html_url),
            xml_url: copy_bytes(&d.outlines[i].xml_url),
        };
        proof {
            assert(o@ =~= s0[i as int]);
            assert(s0[i as int] == d@.outlines[i as int]);
            assert(wf_outline(s0[i as int]));
        }
        kept.push(o);
        proof {
            assert(outline_views(kept@) =~= kept0.push(o@));
            assert(kept0.push(o@) + remove_key(s0.skip(i as int + 1), xml_url@) =~= kept0 + (
            seq![s0[i as int]] + remove_key(s0.skip(i as int + 1), xml_url@)));
        }
        i = i + 1;
    }
    proof {
        assert(s0.skip(n as int) =~= Seq::<OutlineModel>::empty());
        assert(remove_key(s0.skip(n as int), xml_url@) == s0.skip(n as int));
        assert(remove_key(s0, xml_url@) =~= outline_views(kept@));
    }
    let d2 = FeedDocument { title: d.title, outlines: kept };
    proof {
        assert(d2@ =~= DocModel {
            title: old(rss_source)@.title,
            outlines: remove_key(old(rss_source)@.outlines, xml_url@),
        });
        assert(wf_doc(d2@));
        lemma_remove_key_len(old(rss_source)@.outlines, xml_url@);
        lemma_serialize_len(old(rss_source)@);
        lemma_serialize_len(d2@);
        assert(serialize_spec(d2@).len() <= serialize_spec(old(rss_source)@).len());
    }
    match serialize(&d2) {
        Ok(out) => {
            rss_source.document = out;
            rss_source.model = Ghost(d2@);
            Ok(())
        },
        Err(_) => {
            proof {
                assert(false);
            }
            Err(ErrorCode::DocumentCorrupt)
        },
    }
}

/// The union of the outlines of `a` and `b`, keyed by `xml_url`: each
/// outline of `b` is appended only when no outline already present shares
/// its key, so entries of `a` always win ties and keep their places.
pub open spec fn merge_spec(a: Seq<OutlineModel>, b: Seq<OutlineModel>) -> Seq<OutlineModel>
    decreases b.len(),
{
    if b.len() == 0 {
        a
    } else if has_key(a, b.first().xml_url) {
        merge_spec(a, b.drop_first())
    } else {
        merge_spec(a.push(b.first()), b.drop_first())
    }
}

/// Whether some outline of `outlines` carries `xml_url` as its key.
fn contains_key(outlines: &Vec<Outline>, xml_url: &Vec<u8>) -> (r: bool)
    ensures
        r == has_key(outline_views(outlines@), xml_url@),
{
    let n = outlines.len();
    let mut i: usize = 0;
    while i < n
        invariant
            n == outlines@.len(),
            0 <= i <= n,
            forall|k: int| 0 <= k < i ==> (#[trigger] outlines@[k])@.xml_url != xml_url@,
        decreases n - i,
    {
        if bytes_eq(&outlines[i].xml_url, xml_url) {
            proof {
                assert(outline_views(outlines@)[i as int].xml_url == xml_url@);
            }
            return true;
        }
        i = i + 1;
    }
    proof {
        assert forall|k: int|
            0 <= k < outline_views(outlines@).len() implies (#[trigger] outline_views(
            outlines@,
        )[k]).xml_url != xml_url@ by {
            assert(outline_views(outlines@)[k] == outlines@[k]@);
        }
    }
    false
}

/// Folds `other`'s document into this one: the union of outlines keyed by
/// `xml_url`, this document's entries first and winning ties, then the
/// unmatched entries of `other` in their original order.  Fails with
/// `DocumentCapacityExceeded`, leaving the document unchanged, exactly
/// when the merged document would not fit.
pub fn merge(rss_source: &mut RssSource, other: &RssSource) -> (r: Result<(), ErrorCode>)
    requires
        old(rss_source).wf(),
        other.wf(),
    ensures
        final(rss_source).wf(),
        ({
            let m2 = DocModel {
                title: old(rss_source)@.title,
                outlines: merge_spec(old(rss_source)@.outlines, other@.outlines),
            };
            if serialize_spec(m2).len() <= DOCUMENT_CAPACITY {
                r == Ok::<(), ErrorCode>(()) && final(rss_source)@ == m2
            } else {
                r == Err::<(), ErrorCode>(ErrorCode::DocumentCapacityExceeded)
                    && final(rss_source)@ == old(rss_source)@
            }
        }),
{
    let ghost a0 = old(rss_source)@.outlines;
    let ghost b0 = other@.outlines;
    let mut d = parse_own(rss_source);
    let mut od = parse_own(other);
    proof {
        assert(outline_views(od.outlines@) == b0);
        assert(outline_views(d.outlines@) == a0);
        assert forall|k: int|
            0 <= k < od.outlines@.len() implies wf_outline((#[trigger] od.outlines@[k])@) by {
            assert(od@.outlines[k] == od.outlines@[k]@);
        }
        assert forall|k: int|
            0 <= k < d.outlines@.len() implies wf_outline((#[trigger] d.outlines@[k])@) by {
            assert(d@.outlines[k] == d.outlines@[k]@);
        }
    }
    while od.outlines.len() > 0
        invariant
            wf_doc(d@),
            d@.title == old(rss_source)@.title,
            forall|k: int|
                0 <= k < od.outlines@.len() ==> wf_outline((#[trigger] od.outlines@[k])@),
            merge_spec(a0, b0) == merge_spec(
                outline_views(d.outlines@),
                outline_views(od.outlines@),
            ),
        decreases od.outlines@.len(),
    {
        let ghost cur = outline_views(d.outlines@);
        let ghost rem = outline_views(od.outlines@);
        let ghost prev = od.outlines@;
        let o = od.outlines.remove(0);
        proof {
            assert(od.outlines@ =~= prev.drop_first());
            assert(outline_views(od.outlines@) =~= rem.drop_first());
            assert(rem.first() == o@);
            assert forall|k: int|
                0 <= k < od.outlines@.len() implies wf_outline(
                (#[trigger] od.outlines@[k])@,
            ) by {
                assert(od.outlines@[k] == prev[k + 1]);
            }
            assert forall|k: int| 0 <= k < cur.len() implies wf_outline(#[trigger] cur[k]) by {
                assert(d@.outlines[k] == cur[k]);
            }
        }
        if !contains_key(&d.outlines, &o.xml_url) {
            d.outlines.push(o);
            proof {
                assert(outline_views(d.outlines@) =~= cur.push(rem.first()));
                assert forall|k: int|
                    0 <= k < d@.outlines.len() implies wf_outline(
                    #[trigger] d@.outlines[k],
                ) by {
                    if k < d@.outlines.len() - 1 {
                        assert(d@.outlines[k] == cur[k]);
                    } else {
                        assert(d@.outlines[k] == rem.first());
                        assert(rem.first() == prev[0]@);
                        assert(wf_outline(prev[0]@));
                    }
                }
            }
        }
    }
    proof {
        assert(outline_views(od.outlines@).len() == 0);
        assert(merge_spec(outline_views(d.outlines@), outline_views(od.outlines@))
            == outline_views(d.outlines@));
        assert(d@ =~= DocModel {
            title: old(rss_source)@.title,
            outlines: merge_spec(a0, b0),
        });
    }
    match serialize(&d) {
        Ok(out) => {
            rss_source.document = out;
            rss_source.model = Ghost(d@);
            Ok(())
        },
        Err(_) => Err(ErrorCode::DocumentCapacityExceeded),
    }
}

// ------------------------------------------------------------------
// Laws of merge and removal.
// ------------------------------------------------------------------

/// When every outline of `b` already has its key in `a`, merging appends
/// nothing.
proof fn lemma_merge_all_present(a: Seq<OutlineModel>, b: Seq<OutlineModel>)
    requires
        forall|i: int| 0 <= i < b.len() ==> has_key(a, (#[trigger] b[i]).xml_url),
    ensures
        merge_spec(a, b) == a,
    decreases b.len(),
{
    if b.len() > 0 {
        assert(has_key(a, b[0].xml_url));
        assert forall|i: int|
            0 <= i < b.drop_first().len() implies has_key(
            a,
            (#[trigger] b.drop_first()[i]).xml_url,
        ) by {
            assert(b.drop_first()[i] == b[i + 1]);
        }
        lemma_merge_all_present(a, b.drop_first());
    }
}

/// Merging a document with itself leaves it unchanged: every key of the
/// right operand is already present on the left.
pub proof fn lemma_merge_idempotent(a: Seq<OutlineModel>)
    ensures
        merge_spec(a, a) == a,
{
    assert forall|i: int| 0 <= i < a.len() implies has_key(a, (#[trigger] a[i]).xml_url) by {
        assert(0 <= i < a.len() && a[i].xml_url == a[i].xml_url);
    }
    lemma_merge_all_present(a, a);
}

/// The set of `xml_url` keys present in `s`.
pub open spec fn key_set(s: Seq<OutlineModel>) -> Set<Seq<u8>> {
    Set::new(|x: Seq<u8>| has_key(s, x))
}

/// Appending one outline adds exactly its key.
proof fn lemma_key_set_push(s: Seq<OutlineModel>, o: OutlineModel)
    ensures
        key_set(s.push(o)) == key_set(s).insert(o.xml_url),
{
    assert forall|x: Seq<u8>| #[trigger]
        key_set(s.push(o)).contains(x) implies key_set(s).insert(o.xml_url).contains(x) by {
        let i = choose|i: int| 0 <= i < s.push(o).len() && s.push(o)[i].xml_url == x;
        if i < s.len() {
            assert(s[i].xml_url == x);
        } else {
            assert(s.push(o)[i] == o);
        }
    }
    assert forall|x: Seq<u8>| #[trigger]
        key_set(s).insert(o.xml_url).contains(x) implies key_set(s.push(o)).contains(x) by {
        if x == o.xml_url {
            assert(s.push(o)[s.len() as int].xml_url == x);
        } else {
            let i = choose|i: int| 0 <= i < s.len() && s[i].xml_url == x;
            assert(s.push(o)[i].xml_url == x);
        }
    }
    assert(key_set(s.push(o)) =~= key_set(s).insert(o.xml_url));
}

/// Dropping the first outline removes at most its key.
proof fn lemma_key_set_cons(s: Seq<OutlineModel>)
    requires
        s.len() > 0,
    ensures
        key_set(s) == key_set(s.drop_first()).insert(s.first().xml_url),
{
    assert forall|x: Seq<u8>| #[trigger]
        key_set(s).contains(x) implies key_set(s.drop_first()).insert(
        s.first().xml_url,
    ).contains(x) by {
        let i = choose|i: int| 0 <= i < s.len() && s[i].xml_url == x;
        if i > 0 {
            assert(s.drop_first()[i - 1].xml_url == x);
        }
    }
    assert forall|x: Seq<u8>| #[trigger]
        key_set(s.drop_first()).insert(s.first().xml_url).contains(
        x,
    ) implies key_set(s).contains(x) by {
        if x == s.first().xml_url {
            assert(s[0].xml_url == x);
        } else {
            let i = choose|i: int| 0 <= i < s.drop_first().len() && s.drop_first()[i].xml_url
                == x;
            assert(s[i + 1].xml_url == x);
        }
    }
    assert(key_set(s) =~= key_set(s.drop_first()).insert(s.first().xml_url));
}

/// The keys of a merge are the union of the keys of the two operands.
pub proof fn lemma_merge_union(a: Seq<OutlineModel>, b: Seq<OutlineModel>)
    ensures
        key_set(merge_spec(a, b)) == key_set(a).union(key_set(b)),
    decreases b.len(),
{
    if b.len() == 0 {
        assert(key_set(b) =~= Set::<Seq<u8>>::empty());
        assert(key_set(a).union(key_set(b)) =~= key_set(a));
    } else {
        lemma_key_set_cons(b);
        if has_key(a, b.first().xml_url) {
            lemma_merge_union(a, b.drop_first());
            assert(key_set(a).contains(b.first().xml_url));
            assert(key_set(a).union(key_set(b.drop_first()).insert(b.first().xml_url))
                =~= key_set(a).union(key_set(b.drop_first())));
        } else {
            lemma_merge_union(a.push(b.first()), b.drop_first());
            lemma_key_set_push(a, b.first());
            assert(key_set(a).insert(b.first().xml_url).union(key_set(b.drop_first()))
                =~= key_set(a).union(key_set(b.drop_first()).insert(b.first().xml_url)));
        }
    }
}

/// A merge keeps every outline of the left operand, unchanged and in
/// place: on a key collision the left document's entry is the one kept.
pub proof fn lemma_merge_keeps_self(a: Seq<OutlineModel>, b: Seq<OutlineModel>)
    ensures
        a.len() <= merge_spec(a, b).len(),
        merge_spec(a, b).take(a.len() as int) == a,
    decreases b.len(),
{
    if b.len() == 0 {
        assert(merge_spec(a, b).take(a.len() as int) =~= a);
    } else if has_key(a, b.first().xml_url) {
        lemma_merge_keeps_self(a, b.drop_first());
    } else {
        lemma_merge_keeps_self(a.push(b.first()), b.drop_first());
        let m = merge_spec(a.push(b.first()), b.drop_first());
        assert forall|i: int| 0 <= i < a.len() implies m.take(a.len() as int)[i] == a[i] by {
            assert(m.take(a.len() as int + 1)[i] == m[i]);
            assert(m.take(a.len() as int)[i] == m[i]);
            assert(a.push(b.first())[i] == a[i]);
        }
        assert(m.take(a.len() as int) =~= a);
    }
}

/// Removing a key that no outline carries is a no-op.
pub proof fn lemma_remove_absent_noop(s: Seq<OutlineModel>, x: Seq<u8>)
    requires
        !has_key(s, x),
    ensures
        remove_key(s, x) == s,
    decreases s.len(),
{
    if s.len() > 0 {
        assert(s[0].xml_url != x);
        assert forall|i: int|
            0 <= i < s.drop_first().len() implies (#[trigger] s.drop_first()[i]).xml_url
            != x by {
            assert(s.drop_first()[i] == s[i + 1]);
        }
        lemma_remove_absent_noop(s.drop_first(), x);
        assert(seq![s.first()] + s.drop_first() =~= s);
    }
}

/// After a removal the key is gone.
proof fn lemma_remove_key_absent(s: Seq<OutlineModel>, x: Seq<u8>)
    ensures
        !has_key(remove_key(s, x), x),
    decreases s.len(),
{
    if s.len() == 0 {
    } else if s.first().xml_url == x {
        lemma_remove_key_absent(s.drop_first(), x);
    } else {
        lemma_remove_key_absent(s.drop_first(), x);
        if has_key(remove_key(s, x), x) {
            let i = choose|i: int|
                0 <= i < remove_key(s, x).len() && remove_key(s, x)[i].xml_url == x;
            if i == 0 {
                assert(remove_key(s, x)[0] == s.first());
            } else {
                assert(remove_key(s, x)[i] == remove_key(s.drop_first(), x)[i - 1]);
            }
        }
    }
}

/// Removal is idempotent: removing the same key twice gives the same
/// document as removing it once, also when the key was never present.
pub proof fn lemma_remove_idempotent(s: Seq<OutlineModel>, x: Seq<u8>)
    ensures
        remove_key(remove_key(s, x), x) == remove_key(s, x),
{
    lemma_remove_key_absent(s, x);
    lemma_remove_absent_noop(remove_key(s, x), x);
}

/// The length of the canonical markup, by its parts.
proof fn lemma_serialize_len(m: DocModel)
    ensures
        serialize_spec(m).len() == 68 + m.title.len() + crate::codec::body_bytes(
            m.outlines,
        ).len(),
{
    assert(serialize_spec(m).len() == crate::codec::lit_doc_open().len() + m.title.len()
        + crate::codec::lit_head_close().len() + crate::codec::body_bytes(m.outlines).len()
        + crate::codec::lit_doc_close().len());
}

/// A byte-for-byte copy of `src`.
fn copy_bytes(src: &Vec<u8>) -> (r: Vec<u8>)
    ensures
        r@ == src@,
{
    let mut r: Vec<u8> = Vec::new();
    let n = src.len();
    let mut i: usize = 0;
    while i < n
        invariant
            n == src@.len(),
            0 <= i <= n,
            r@ == src@.subrange(0, i as int),
        decreases n - i,
    {
        r.push(src[i]);
        proof {
            assert(r@ =~= src@.subrange(0, i as int + 1));
        }
        i = i + 1;
    }
    proof {
        assert(src@.subrange(0, n as int) =~= src@);
    }
    r
}

} // verus!
