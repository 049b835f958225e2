//! The outline codec: feed-list documents and their canonical markup form.
//!
//! A feed-list document is a title and an ordered list of outlines; its wire
//! form is one self-describing markup document, `serialize_spec` at the spec
//! level.  `serialize` writes exactly that form; `parse` accepts exactly the
//! byte buffers that are the canonical form of some well-formed document, and
//! reports `DocumentCorrupt` on every other buffer.  Together with
//! `lemma_serialize_spec_injective` this makes the codec round-trip lossless.

use vstd::prelude::*;

use crate::errors::ErrorCode;

verus! {

/// A serialized document may hold at most ten KiB.
pub const DOCUMENT_CAPACITY: usize = 10240;

/// The double-quote byte, which delimits outline attribute values.
pub const QUOTE: u8 = 34;

/// The `<` byte, which ends the document title.
pub const ANGLE: u8 = 60;

/// The mathematical content of one outline: a display name and two URLs.
/// Every outline's type is the fixed string `rss` and is not stored.
#[verifier::ext_equal]
pub ghost struct OutlineModel {
    pub text: Seq<u8>,
    pub html_url: Seq<u8>,
    pub xml_url: Seq<u8>,
}

/// The mathematical content of a feed-list document.
#[verifier::ext_equal]
pub ghost struct DocModel {
    pub title: Seq<u8>,
    pub outlines: Seq<OutlineModel>,
}

/// `s` does not contain the byte `d`.
pub open spec fn no_byte(s: Seq<u8>, d: u8) -> bool {
    forall|i: int| 0 <= i < s.len() ==> s[i] != d
}

/// An outline is well-formed when no attribute holds a double quote, the
/// byte that closes an attribute value in the markup.
pub open spec fn wf_outline(o: OutlineModel) -> bool {
    no_byte(o.text, QUOTE) && no_byte(o.html_url, QUOTE) && no_byte(o.xml_url, QUOTE)
}

/// A document is well-formed when its title holds no `<`, the byte that
/// ends the title in the markup, and every outline is well-formed.
pub open spec fn wf_doc(m: DocModel) -> bool {
    no_byte(m.title, ANGLE) && forall|i: int|
        0 <= i < m.outlines.len() ==> wf_outline(#[trigger] m.outlines[i])
}

/// The markup bytes of one outline entry.
pub open spec fn entry_bytes(o: OutlineModel) -> Seq<u8> {
    lit_entry_open() + o.text + lit_entry_mid() + o.html_url + lit_entry_xml() + o.xml_url
        + lit_entry_close()
}

/// The markup bytes of a document body: its entries in order.
pub open spec fn body_bytes(s: Seq<OutlineModel>) -> Seq<u8>
    decreases s.len(),
{
    if s.len() == 0 {
        Seq::empty()
    } else {
        entry_bytes(s.first()) + body_bytes(s.drop_first())
    }
}

/// The canonical markup form of a document.
pub open spec fn serialize_spec(m: DocModel) -> Seq<u8> {
    lit_doc_open() + m.title + lit_head_close() + body_bytes(m.outlines) + lit_doc_close()
}

/// `b` is the canonical form of some well-formed document.
pub open spec fn has_canonical_form(b: Seq<u8>) -> bool {
    exists|m: DocModel| wf_doc(m) && serialize_spec(m) == b
}

// ------------------------------------------------------------------
// The fixed markup fragments.
// ------------------------------------------------------------------

/// The byte sequence of `<opml version="2.0"><head><title>`.
pub open spec fn lit_doc_open() -> Seq<u8> {
    seq![60u8, 111u8, 112u8, 109u8, 108u8, 32u8, 118u8, 101u8, 114u8, 115u8, 105u8, 111u8, 110u8, 61u8, 34u8, 50u8, 46u8, 48u8, 34u8, 62u8, 60u8, 104u8, 101u8, 97u8, 100u8, 62u8, 60u8, 116u8, 105u8, 116u8, 108u8, 101u8, 62u8]
}

fn lit_doc_open_vec() -> (r: Vec<u8>)
    ensures
        r@ == lit_doc_open(),
{
    let r: Vec<u8> = vec![60u8, 111u8, 112u8, 109u8, 108u8, 32u8, 118u8, 101u8, 114u8, 115u8, 105u8, 111u8, 110u8, 61u8, 34u8, 50u8, 46u8, 48u8, 34u8, 62u8, 60u8, 104u8, 101u8, 97u8, 100u8, 62u8, 60u8, 116u8, 105u8, 116u8, 108u8, 101u8, 62u8];
    proof {
        assert(r@ =~= lit_doc_open());
    }
    r
}

/// The byte sequence of `</title></head><body>`.
pub open spec fn lit_head_close() -> Seq<u8> {
    seq![60u8, 47u8, 116u8, 105u8, 116u8, 108u8, 101u8, 62u8, 60u8, 47u8, 104u8, 101u8, 97u8, 100u8, 62u8, 60u8, 98u8, 111u8, 100u8, 121u8, 62u8]
}

fn lit_head_close_vec() -> (r: Vec<u8>)
    ensures
        r@ == lit_head_close(),
{
    let r: Vec<u8> = vec![60u8, 47u8, 116u8, 105u8, 116u8, 108u8, 101u8, 62u8, 60u8, 47u8, 104u8, 101u8, 97u8, 100u8, 62u8, 60u8, 98u8, 111u8, 100u8, 121u8, 62u8];
    proof {
        assert(r@ =~= lit_head_close());
    }
    r
}

/// The byte sequence of `<outline text="`.
pub open spec fn lit_entry_open() -> Seq<u8> {
    seq![60u8, 111u8, 117u8, 116u8, 108u8, 105u8, 110u8, 101u8, 32u8, 116u8, 101u8, 120u8, 116u8, 61u8, 34u8]
}

fn lit_entry_open_vec() -> (r: Vec<u8>)
    ensures
        r@ == lit_entry_open(),
{
    let r: Vec<u8> = vec![60u8, 111u8, 117u8, 116u8, 108u8, 105u8, 110u8, 101u8, 32u8, 116u8, 101u8, 120u8, 116u8, 61u8, 34u8];
    proof {
        assert(r@ =~= lit_entry_open());
    }
    r
}

/// The byte sequence of `" type="rss" htmlUrl="`.
pub open spec fn lit_entry_mid() -> Seq<u8> {
    seq![34u8, 32u8, 116u8, 121u8, 112u8, 101u8, 61u8, 34u8, 114u8, 115u8, 115u8, 34u8, 32u8, 104u8, 116u8, 109u8, 108u8, 85u8, 114u8, 108u8, 61u8, 34u8]
}

fn lit_entry_mid_vec() -> (r: Vec<u8>)
    ensures
        r@ == lit_entry_mid(),
{
    let r: Vec<u8> = vec![34u8, 32u8, 116u8, 121u8, 112u8, 101u8, 61u8, 34u8, 114u8, 115u8, 115u8, 34u8, 32u8, 104u8, 116u8, 109u8, 108u8, 85u8, 114u8, 108u8, 61u8, 34u8];
    proof {
        assert(r@ =~= lit_entry_mid());
    }
    r
}

/// The byte sequence of `" xmlUrl="`.
pub open spec fn lit_entry_xml() -> Seq<u8> {
    seq![34u8, 32u8, 120u8, 109u8, 108u8, 85u8, 114u8, 108u8, 61u8, 34u8]
}

fn lit_entry_xml_vec() -> (r: Vec<u8>)
    ensures
        r@ == lit_entry_xml(),
{
    let r: Vec<u8> = vec![34u8, 32u8, 120u8, 109u8, 108u8, 85u8, 114u8, 108u8, 61u8, 34u8];
    proof {
        assert(r@ =~= lit_entry_xml());
    }
    r
}

/// The byte sequence of `"/>`.
pub open spec fn lit_entry_close() -> Seq<u8> {
    seq![34u8, 47u8, 62u8]
}

fn lit_entry_close_vec() -> (r: Vec<u8>)
    ensures
        r@ == lit_entry_close(),
{
    let r: Vec<u8> = vec![34u8, 47u8, 62u8];
    proof {
        assert(r@ =~= lit_entry_close());
    }
    r
}

/// The byte sequence of `</body></opml>`.
pub open spec fn lit_doc_close() -> Seq<u8> {
    seq![60u8, 47u8, 98u8, 111u8, 100u8, 121u8, 62u8, 60u8, 47u8, 111u8, 112u8, 109u8, 108u8, 62u8]
}

fn lit_doc_close_vec() -> (r: Vec<u8>)
    ensures
        r@ == lit_doc_close(),
{
    let r: Vec<u8> = vec![60u8, 47u8, 98u8, 111u8, 100u8, 121u8, 62u8, 60u8, 47u8, 111u8, 112u8, 109u8, 108u8, 62u8];
    proof {
        assert(r@ =~= lit_doc_close());
    }
    r
}

/// The byte sequence of `Your Subscription List`.
pub open spec fn default_title() -> Seq<u8> {
    seq![89u8, 111u8, 117u8, 114u8, 32u8, 83u8, 117u8, 98u8, 115u8, 99u8, 114u8, 105u8, 112u8, 116u8, 105u8, 111u8, 110u8, 32u8, 76u8, 105u8, 115u8, 116u8]
}

pub fn default_title_vec() -> (r: Vec<u8>)
    ensures
        r@ == default_title(),
{
    let r: Vec<u8> = vec![89u8, 111u8, 117u8, 114u8, 32u8, 83u8, 117u8, 98u8, 115u8, 99u8, 114u8, 105u8, 112u8, 116u8, 105u8, 111u8, 110u8, 32u8, 76u8, 105u8, 115u8, 116u8];
    proof {
        assert(r@ =~= default_title());
    }
    r
}

/// The byte sequence of `24 ways`.
pub open spec fn default_text() -> Seq<u8> {
    seq![50u8, 52u8, 32u8, 119u8, 97u8, 121u8, 115u8]
}

pub fn default_text_vec() -> (r: Vec<u8>)
    ensures
        r@ == default_text(),
{
    let r: Vec<u8> = vec![50u8, 52u8, 32u8, 119u8, 97u8, 121u8, 115u8];
    proof {
        assert(r@ =~= default_text());
    }
    r
}

/// The byte sequence of `http://24ways.org/`.
pub open spec fn default_html_url() -> Seq<u8> {
    seq![104u8, 116u8, 116u8, 112u8, 58u8, 47u8, 47u8, 50u8, 52u8, 119u8, 97u8, 121u8, 115u8, 46u8, 111u8, 114u8, 103u8, 47u8]
}

pub fn default_html_url_vec() -> (r: Vec<u8>)
    ensures
        r@ == default_html_url(),
{
    let r: Vec<u8> = vec![104u8, 116u8, 116u8, 112u8, 58u8, 47u8, 47u8, 50u8, 52u8, 119u8, 97u8, 121u8, 115u8, 46u8, 111u8, 114u8, 103u8, 47u8];
    proof {
        assert(r@ =~= default_html_url());
    }
    r
}

/// The byte sequence of `http://feeds.feedburner.com/24ways`.
pub open spec fn default_xml_url() -> Seq<u8> {
    seq![104u8, 116u8, 116u8, 112u8, 58u8, 47u8, 47u8, 102u8, 101u8, 101u8, 100u8, 115u8, 46u8, 102u8, 101u8, 101u8, 100u8, 98u8, 117u8, 114u8, 110u8, 101u8, 114u8, 46u8, 99u8, 111u8, 109u8, 47u8, 50u8, 52u8, 119u8, 97u8, 121u8, 115u8]
}

pub fn default_xml_url_vec() -> (r: Vec<u8>)
    ensures
        r@ == default_xml_url(),
{
    let r: Vec<u8> = vec![104u8, 116u8, 116u8, 112u8, 58u8, 47u8, 47u8, 102u8, 101u8, 101u8, 100u8, 115u8, 46u8, 102u8, 101u8, 101u8, 100u8, 98u8, 117u8, 114u8, 110u8, 101u8, 114u8, 46u8, 99u8, 111u8, 109u8, 47u8, 50u8, 52u8, 119u8, 97u8, 121u8, 115u8];
    proof {
        assert(r@ =~= default_xml_url());
    }
    r
}


/// One feed entry: a display name, a home-page URL and the feed source URL
/// (`xml_url`, the entry's natural key).  The entry type is fixed to `rss`.
#[derive(Clone, Debug, PartialEq, Eq)]
pub struct Outline {
    pub text: Vec<u8>,
    pub html_url: Vec<u8>,
    pub xml_url: Vec<u8>,
}

impl View for Outline {
    type V = OutlineModel;

    open spec fn view(&self) -> OutlineModel {
        OutlineModel { text: self.text@, html_url: self.html_url@, xml_url: self.xml_url@ }
    }
}

/// The outline contents of a sequence of outlines.
pub open spec fn outline_views(s: Seq<Outline>) -> Seq<OutlineModel> {
    Seq::new(s.len(), |i: int| s[i]@)
}

/// A feed-list document: a title and an ordered list of outlines.
#[derive(Clone, Debug, PartialEq, Eq)]
pub struct FeedDocument {
    pub title: Vec<u8>,
    pub outlines: Vec<Outline>,
}

impl View for FeedDocument {
    type V = DocModel;

    open spec fn view(&self) -> DocModel {
        DocModel { title: self.title@, outlines: outline_views(self.outlines@) }
    }
}

// ------------------------------------------------------------------
// Byte-level helpers.
// ------------------------------------------------------------------

/// Whether `v` holds the byte `d` anywhere.
pub fn contains_byte(v: &Vec<u8>, d: u8) -> (r: bool)
    ensures
        r == !no_byte(v@, d),
{
    let n = v.len();
    let mut i: usize = 0;
    while i < n
        invariant
            n == v@.len(),
            0 <= i <= n,
            forall|k: int| 0 <= k < i ==> v@[k] != d,
        decreases n - i,
    {
        if v[i] == d {
            return true;
        }
        i = i + 1;
    }
    false
}

/// Whether two byte vectors hold the same bytes.
pub fn bytes_eq(a: &Vec<u8>, b: &Vec<u8>) -> (r: bool)
    ensures
        r == (a@ == b@),
{
    let n = a.len();
    if n != b.len() {
        return false;
    }
    let mut i: usize = 0;
    while i < n
        invariant
            n == a@.len(),
            n == b@.len(),
            0 <= i <= n,
            forall|k: int| 0 <= k < i ==> a@[k] == b@[k],
        decreases n - i,
    {
        if a[i] != b[i] {
            return false;
        }
        i = i + 1;
    }
    proof {
        assert(a@ =~= b@);
    }
    true
}

/// Whether `lit` occurs in `bytes` exactly at position `pos`.
fn match_lit(bytes: &Vec<u8>, pos: usize, lit: &Vec<u8>) -> (r: bool)
    requires
        pos <= bytes@.len(),
    ensures
        r == (pos + lit@.len() <= bytes@.len() && bytes@.subrange(
            pos as int,
            pos as int + lit@.len() as int,
        ) == lit@),
{
    let n = lit.len();
    if bytes.len() - pos < n {
        return false;
    }
    let mut i: usize = 0;
    while i < n
        invariant
            n == lit@.len(),
            pos + n <= bytes@.len() <= usize::MAX,
            0 <= i <= n,
            forall|k: int| 0 <= k < i ==> bytes@[pos + k] == lit@[k],
        decreases n - i,
    {
        if bytes[pos + i] != lit[i] {
            proof {
                assert(bytes@.subrange(pos as int, pos as int + n as int)[i as int] == bytes@[pos
                    + i]);
            }
            return false;
        }
        i = i + 1;
    }
    proof {
        assert(bytes@.subrange(pos as int, pos as int + n as int) =~= lit@);
    }
    true
}

/// The first position at or after `pos` holding the byte `delim`.
fn scan_delim(bytes: &Vec<u8>, pos: usize, delim: u8) -> (r: Option<usize>)
    requires
        pos <= bytes@.len(),
    ensures
        match r {
            Some(j) => pos <= j < bytes@.len() && bytes@[j as int] == delim && forall|k: int|
                pos <= k < j ==> bytes@[k] != delim,
            None => forall|k: int| pos <= k < bytes@.len() ==> bytes@[k] != delim,
        },
{
    let n = bytes.len();
    let mut i: usize = pos;
    while i < n
        invariant
            n == bytes@.len(),
            pos <= i <= n,
            forall|k: int| pos <= k < i ==> bytes@[k] != delim,
        decreases n - i,
    {
        if bytes[i] == delim {
            return Some(i);
        }
        i = i + 1;
    }
    None
}

/// The bytes of `bytes` from `from` (inclusive) to `to` (exclusive).
fn copy_range(bytes: &Vec<u8>, from: usize, to: usize) -> (r: Vec<u8>)
    requires
        from <= to <= bytes@.len(),
    ensures
        r@ == bytes@.subrange(from as int, to as int),
{
    let mut r: Vec<u8> = Vec::new();
    let mut i: usize = from;
    while i < to
        invariant
            from <= i <= to <= bytes@.len(),
            r@ == bytes@.subrange(from as int, i as int),
        decreases to - i,
    {
        r.push(bytes[i]);
        proof {
            assert(r@ =~= bytes@.subrange(from as int, i as int + 1));
        }
        i = i + 1;
    }
    r
}

/// Appends all of `src` to `out`.
fn append_bytes(out: &mut Vec<u8>, src: &Vec<u8>)
    ensures
        final(out)@ == old(out)@ + src@,
{
    let ghost out0 = out@;
    let n = src.len();
    let mut i: usize = 0;
    while i < n
        invariant
            n == src@.len(),
            0 <= i <= n,
            out@ == out0 + src@.subrange(0, i as int),
        decreases n - i,
    {
        out.push(src[i]);
        proof {
            assert(out@ =~= out0 + src@.subrange(0, i as int + 1));
        }
        i = i + 1;
    }
    proof {
        assert(src@.subrange(0, n as int) =~= src@);
    }
}

// ------------------------------------------------------------------
// Sequence lemmas for the markup layout.
// ------------------------------------------------------------------

/// Splitting a subrange of `s` at an interior point `b`.
proof fn lemma_subrange_split(s: Seq<u8>, a: int, b: int, c: int)
    requires
        0 <= a <= b <= c <= s.len(),
    ensures
        s.subrange(a, c) == s.subrange(a, b) + s.subrange(b, c),
{
    assert(s.subrange(a, c) =~= s.subrange(a, b) + s.subrange(b, c));
}

/// When the tail of `s` from `p` reads `a + b`, the two parts stand at
/// `p` and `p + a.len()`.
proof fn lemma_peel(s: Seq<u8>, p: int, a: Seq<u8>, b: Seq<u8>)
    requires
        0 <= p <= s.len(),
        s.subrange(p, s.len() as int) == a + b,
    ensures
        p + a.len() + b.len() == s.len(),
        s.subrange(p, p + a.len() as int) == a,
        s.subrange(p + a.len() as int, s.len() as int) == b,
{
    let t = s.subrange(p, s.len() as int);
    assert(t.len() == a.len() + b.len());
    assert forall|i: int| 0 <= i < a.len() implies s.subrange(p, p + a.len() as int)[i] == a[i] by {
        assert((a + b)[i] == a[i]);
        assert(t[i] == s[p + i]);
        assert(s.subrange(p, p + a.len() as int)[i] == s[p + i]);
    }
    assert(s.subrange(p, p + a.len() as int) =~= a);
    assert forall|i: int|
        0 <= i < b.len() implies s.subrange(p + a.len() as int, s.len() as int)[i] == b[i] by {
        assert((a + b)[a.len() + i] == b[i]);
        assert(t[a.len() + i] == s[p + a.len() + i]);
        assert(s.subrange(p + a.len() as int, s.len() as int)[i] == s[p + a.len() + i]);
    }
    assert(s.subrange(p + a.len() as int, s.len() as int) =~= b);
}

/// When the tail of `s` from `p` reads `a + b`, where `a` avoids the byte
/// `d` and `b` opens with it, the first `d` at or after `p` stands exactly
/// at `p + a.len()`.
proof fn lemma_first_delim(s: Seq<u8>, p: int, a: Seq<u8>, b: Seq<u8>, d: u8)
    requires
        0 <= p <= s.len(),
        s.subrange(p, s.len() as int) == a + b,
        no_byte(a, d),
        b.len() > 0,
        b[0] == d,
    ensures
        p + a.len() < s.len(),
        s[p + a.len() as int] == d,
        forall|k: int| p <= k < p + a.len() ==> s[k] != d,
{
    let t = s.subrange(p, s.len() as int);
    assert(t.len() == a.len() + b.len());
    assert forall|k: int| p <= k < p + a.len() implies s[k] != d by {
        assert((a + b)[k - p] == a[k - p]);
        assert(t[k - p] == s[p + (k - p)]);
    }
    assert((a + b)[a.len() as int] == b[0]);
    assert(t[a.len() as int] == s[p + a.len() as int]);
}

/// Appending one outline to a body appends its entry bytes.
proof fn lemma_body_snoc(s: Seq<OutlineModel>, o: OutlineModel)
    ensures
        body_bytes(s.push(o)) == body_bytes(s) + entry_bytes(o),
    decreases s.len(),
{
    if s.len() == 0 {
        assert(s.push(o).drop_first() =~= s);
        assert(body_bytes(s) == Seq::<u8>::empty());
        assert(s.push(o).first() == o);
        assert(body_bytes(s.push(o)) == entry_bytes(o) + body_bytes(s));
        assert(body_bytes(s.push(o)) =~= body_bytes(s) + entry_bytes(o));
    } else {
        assert(s.push(o).first() == s.first());
        assert(s.push(o).drop_first() =~= s.drop_first().push(o));
        lemma_body_snoc(s.drop_first(), o);
        assert(body_bytes(s.push(o)) == entry_bytes(s.first()) + (body_bytes(s.drop_first())
            + entry_bytes(o)));
        assert(body_bytes(s) == entry_bytes(s.first()) + body_bytes(s.drop_first()));
        assert(entry_bytes(s.first()) + (body_bytes(s.drop_first()) + entry_bytes(o)) =~= (
        entry_bytes(s.first()) + body_bytes(s.drop_first())) + entry_bytes(o));
    }
}

/// The body of the entries from position `k` on opens with the entry of
/// the outline at `k`.
proof fn lemma_body_unfold(s: Seq<OutlineModel>, k: int)
    requires
        0 <= k < s.len(),
    ensures
        body_bytes(s.skip(k)) == entry_bytes(s[k]) + body_bytes(s.skip(k + 1)),
{
    assert(s.skip(k).first() == s[k]);
    assert(s.skip(k).drop_first() =~= s.skip(k + 1));
}

// ------------------------------------------------------------------
// Serialization.
// ------------------------------------------------------------------

/// Writes the canonical markup of `doc`, with no size bound.
pub(crate) fn serialize_to_vec(doc: &FeedDocument) -> (r: Vec<u8>)
    ensures
        r@ == serialize_spec(doc@),
{
    let ghost head = lit_doc_open() + doc.title@ + lit_head_close();
    let ghost views = outline_views(doc.outlines@);
    let mut out: Vec<u8> = Vec::new();
    let lit_open = lit_doc_open_vec();
    append_bytes(&mut out, &lit_open);
    append_bytes(&mut out, &doc.title);
    let lit_hclose = lit_head_close_vec();
    append_bytes(&mut out, &lit_hclose);
    proof {
        assert(views.take(0) =~= Seq::<OutlineModel>::empty());
        assert(body_bytes(views.take(0)) == Seq::<u8>::empty());
        assert(out@ =~= head + body_bytes(views.take(0)));
    }
    let lit_eopen = lit_entry_open_vec();
    let lit_emid = lit_entry_mid_vec();
    let lit_exml = lit_entry_xml_vec();
    let lit_eclose = lit_entry_close_vec();
    let n = doc.outlines.len();
    let mut i: usize = 0;
    while i < n
        invariant
            n == doc.outlines@.len(),
            0 <= i <= n,
            views == outline_views(doc.outlines@),
            lit_eopen@ == lit_entry_open(),
            lit_emid@ == lit_entry_mid(),
            lit_exml@ == lit_entry_xml(),
            lit_eclose@ == lit_entry_close(),
            out@ == head + body_bytes(views.take(i as int)),
        decreases n - i,
    {
        let ghost before = out@;
        append_bytes(&mut out, &lit_eopen);
        append_bytes(&mut out, &doc.outlines[i].text);
        append_bytes(&mut out, &lit_emid);
        append_bytes(&mut out, &doc.outlines[i].html_url);
        append_bytes(&mut out, &lit_exml);
        append_bytes(&mut out, &doc.outlines[i].xml_url);
        append_bytes(&mut out, &lit_eclose);
        proof {
            assert(views[i as int] == doc.outlines@[i as int]@);
            assert(out@ =~= before + entry_bytes(views[i as int]));
            assert(views.take(i as int + 1) =~= views.take(i as int).push(views[i as int]));
            lemma_body_snoc(views.take(i as int), views[i as int]);
            assert(out@ =~= head + body_bytes(views.take(i as int + 1)));
        }
        i = i + 1;
    }
    let lit_dclose = lit_doc_close_vec();
    append_bytes(&mut out, &lit_dclose);
    proof {
        assert(views.take(n as int) =~= views);
        assert(out@ =~= serialize_spec(doc@));
    }
    out
}

/// Serializes `doc` to its canonical markup; fails with
/// `DocumentCapacityExceeded` exactly when that markup would not fit in
/// `DOCUMENT_CAPACITY` bytes.
pub fn serialize(doc: &FeedDocument) -> (r: Result<Vec<u8>, ErrorCode>)
    ensures
        match r {
            Ok(b) => b@ == serialize_spec(doc@) && b@.len() <= DOCUMENT_CAPACITY,
            Err(e) => e == ErrorCode::DocumentCapacityExceeded && serialize_spec(doc@).len()
                > DOCUMENT_CAPACITY,
        },
{
    let out = serialize_to_vec(doc);
    if out.len() <= DOCUMENT_CAPACITY {
        Ok(out)
    } else {
        Err(ErrorCode::DocumentCapacityExceeded)
    }
}

// ------------------------------------------------------------------
// Parsing.
// ------------------------------------------------------------------

/// Two sequences each made of one prefix, then a delimiter byte the
/// prefix avoids, then a tail: equal concatenations split equally.
proof fn lemma_strip_prefix(p: Seq<u8>, a: Seq<u8>, b: Seq<u8>)
    requires
        p + a == p + b,
    ensures
        a == b,
{
    assert((p + a).len() == p.len() + a.len());
    assert((p + b).len() == p.len() + b.len());
    assert(a.len() == b.len());
    assert forall|i: int| 0 <= i < a.len() implies a[i] == b[i] by {
        assert((p + a)[p.len() + i] == a[i]);
        assert((p + b)[p.len() + i] == b[i]);
    }
    assert(a =~= b);
}

/// Two equal concatenations whose left parts avoid the delimiter byte that
/// opens both right parts split at the same point.
proof fn lemma_delim_split(a1: Seq<u8>, b1: Seq<u8>, a2: Seq<u8>, b2: Seq<u8>, d: u8)
    requires
        no_byte(a1, d),
        no_byte(a2, d),
        b1.len() > 0,
        b2.len() > 0,
        b1[0] == d,
        b2[0] == d,
        a1 + b1 == a2 + b2,
    ensures
        a1 == a2,
        b1 == b2,
{
    let s = a1 + b1;
    assert(s.len() == a1.len() + b1.len());
    assert((a2 + b2).len() == a2.len() + b2.len());
    if a1.len() < a2.len() {
        assert(s[a1.len() as int] == b1[0]);
        assert((a2 + b2)[a1.len() as int] == a2[a1.len() as int]);
        assert(false);
    }
    if a2.len() < a1.len() {
        assert(s[a2.len() as int] == a1[a2.len() as int]);
        assert((a2 + b2)[a2.len() as int] == b2[0]);
        assert(false);
    }
    assert forall|i: int| 0 <= i < a1.len() implies a1[i] == a2[i] by {
        assert(s[i] == a1[i]);
        assert((a2 + b2)[i] == a2[i]);
    }
    assert(a1 =~= a2);
    assert forall|i: int| 0 <= i < b1.len() implies b1[i] == b2[i] by {
        assert(s[a1.len() + i] == b1[i]);
        assert((a2 + b2)[a1.len() + i] == b2[i]);
    }
    assert(b1 =~= b2);
}

/// The markup of an entry is at least fifty bytes and opens with `<o`.
proof fn lemma_entry_shape(o: OutlineModel)
    ensures
        entry_bytes(o).len() >= 50,
        entry_bytes(o)[0] == lit_entry_open()[0],
        entry_bytes(o)[1] == lit_entry_open()[1],
{
    let tail = o.text + (lit_entry_mid() + (o.html_url + (lit_entry_xml() + (o.xml_url
        + lit_entry_close()))));
    assert(entry_bytes(o) =~= lit_entry_open() + tail);
    assert((lit_entry_open() + tail)[0] == lit_entry_open()[0]);
    assert((lit_entry_open() + tail)[1] == lit_entry_open()[1]);
}

/// Equal entry lists follow from equal body markup (with the closing
/// literal appended, which marks where the body ends).
#[verifier::rlimit(100)]
proof fn lemma_body_inj(o1: Seq<OutlineModel>, o2: Seq<OutlineModel>)
    requires
        wf_entries(o1),
        wf_entries(o2),
        body_bytes(o1) + lit_doc_close() == body_bytes(o2) + lit_doc_close(),
    ensures
        o1 == o2,
    decreases o1.len(),
{
    let s = body_bytes(o1) + lit_doc_close();
    if o1.len() == 0 && o2.len() == 0 {
        assert(o1 =~= o2);
    } else if o1.len() == 0 {
        assert(body_bytes(o1) == Seq::<u8>::empty());
        assert(s =~= lit_doc_close());
        let e2 = entry_bytes(o2.first());
        lemma_entry_shape(o2.first());
        assert(body_bytes(o2) == e2 + body_bytes(o2.drop_first()));
        assert(s =~= e2 + (body_bytes(o2.drop_first()) + lit_doc_close()));
        assert((e2 + (body_bytes(o2.drop_first()) + lit_doc_close()))[1] == e2[1]);
        assert(false);
    } else if o2.len() == 0 {
        assert(body_bytes(o2) == Seq::<u8>::empty());
        assert(body_bytes(o2) + lit_doc_close() =~= lit_doc_close());
        let e1 = entry_bytes(o1.first());
        lemma_entry_shape(o1.first());
        assert(body_bytes(o1) == e1 + body_bytes(o1.drop_first()));
        assert(s =~= e1 + (body_bytes(o1.drop_first()) + lit_doc_close()));
        assert((e1 + (body_bytes(o1.drop_first()) + lit_doc_close()))[1] == e1[1]);
        assert(lit_doc_close()[1] != lit_entry_open()[1]);
        assert(false);
    } else {
        let f1 = o1.first();
        let f2 = o2.first();
        assert(wf_outline(f1));
        assert(wf_outline(f2));
        let tail_x_1 = lit_entry_close() + (body_bytes(o1.drop_first()) + lit_doc_close());
        let tail_x_2 = lit_entry_close() + (body_bytes(o2.drop_first()) + lit_doc_close());
        let tail_h_1 = lit_entry_xml() + (f1.xml_url + tail_x_1);
        let tail_h_2 = lit_entry_xml() + (f2.xml_url + tail_x_2);
        let tail_t_1 = lit_entry_mid() + (f1.html_url + tail_h_1);
        let tail_t_2 = lit_entry_mid() + (f2.html_url + tail_h_2);
        assert(body_bytes(o1) == entry_bytes(f1) + body_bytes(o1.drop_first()));
        assert(body_bytes(o2) == entry_bytes(f2) + body_bytes(o2.drop_first()));
        assert(s =~= lit_entry_open() + (f1.text + tail_t_1));
        assert(body_bytes(o2) + lit_doc_close() =~= lit_entry_open() + (f2.text + tail_t_2));
        lemma_strip_prefix(lit_entry_open(), f1.text + tail_t_1, f2.text + tail_t_2);
        assert(tail_t_1[0] == lit_entry_mid()[0]);
        assert(tail_t_2[0] == lit_entry_mid()[0]);
        lemma_delim_split(f1.text, tail_t_1, f2.text, tail_t_2, QUOTE);
        lemma_strip_prefix(lit_entry_mid(), f1.html_url + tail_h_1, f2.html_url + tail_h_2);
        assert(tail_h_1[0] == lit_entry_xml()[0]);
        assert(tail_h_2[0] == lit_entry_xml()[0]);
        lemma_delim_split(f1.html_url, tail_h_1, f2.html_url, tail_h_2, QUOTE);
        lemma_strip_prefix(lit_entry_xml(), f1.xml_url + tail_x_1, f2.xml_url + tail_x_2);
        assert(tail_x_1[0] == lit_entry_close()[0]);
        assert(tail_x_2[0] == lit_entry_close()[0]);
        lemma_delim_split(f1.xml_url, tail_x_1, f2.xml_url, tail_x_2, QUOTE);
        lemma_strip_prefix(
            lit_entry_close(),
            body_bytes(o1.drop_first()) + lit_doc_close(),
            body_bytes(o2.drop_first()) + lit_doc_close(),
        );
        assert forall|i: int|
            0 <= i < o1.drop_first().len() implies wf_outline(
            #[trigger] o1.drop_first()[i],
        ) by {
            assert(o1.drop_first()[i] == o1[i + 1]);
        }
        assert forall|i: int|
            0 <= i < o2.drop_first().len() implies wf_outline(
            #[trigger] o2.drop_first()[i],
        ) by {
            assert(o2.drop_first()[i] == o2[i + 1]);
        }
        lemma_body_inj(o1.drop_first(), o2.drop_first());
        assert(f1 =~= f2);
        assert forall|i: int| 0 <= i < o1.len() implies o1[i] == o2[i] by {
            if i == 0 {
                assert(o1[0] == f1);
                assert(o2[0] == f2);
            } else {
                assert(o1.drop_first()[i - 1] == o1[i]);
                assert(o2.drop_first()[i - 1] == o2[i]);
            }
        }
        assert(o1 =~= o2);
    }
}

/// Two well-formed documents with the same canonical markup are the same
/// document.  Together with the contracts of `serialize` and `parse` this
/// is the round-trip law: parsing the serialization of any well-formed
/// document yields that document back.
pub proof fn lemma_serialize_spec_injective(m1: DocModel, m2: DocModel)
    requires
        wf_doc(m1),
        wf_doc(m2),
        serialize_spec(m1) == serialize_spec(m2),
    ensures
        m1 == m2,
{
    let s = serialize_spec(m1);
    let tail2_1 = lit_head_close() + (body_bytes(m1.outlines) + lit_doc_close());
    let tail2_2 = lit_head_close() + (body_bytes(m2.outlines) + lit_doc_close());
    assert(s =~= lit_doc_open() + (m1.title + tail2_1));
    assert(serialize_spec(m2) =~= lit_doc_open() + (m2.title + tail2_2));
    lemma_strip_prefix(lit_doc_open(), m1.title + tail2_1, m2.title + tail2_2);
    assert(tail2_1[0] == lit_head_close()[0]);
    assert(tail2_2[0] == lit_head_close()[0]);
    lemma_delim_split(m1.title, tail2_1, m2.title, tail2_2, ANGLE);
    lemma_strip_prefix(
        lit_head_close(),
        body_bytes(m1.outlines) + lit_doc_close(),
        body_bytes(m2.outlines) + lit_doc_close(),
    );
    assert forall|i: int|
        0 <= i < m1.outlines.len() implies wf_outline(#[trigger] m1.outlines[i]) by {}
    assert forall|i: int|
        0 <= i < m2.outlines.len() implies wf_outline(#[trigger] m2.outlines[i]) by {}
    lemma_body_inj(m1.outlines, m2.outlines);
    assert(m1 =~= m2);
}

/// One step of parsing the wire body: at `pos` stands either one outline
/// entry, or the closing literal that must end the buffer.
enum ParseStep {
    Entry(Outline, usize),
    Close,
    Corrupt,
}

/// Every outline in `s` is well-formed.
pub open spec fn wf_entries(s: Seq<OutlineModel>) -> bool {
    forall|i: int| 0 <= i < s.len() ==> wf_outline(#[trigger] s[i])
}

/// Reads one entry or the closing literal at `pos`.  When the tail of the
/// buffer at `pos` is the canonical markup of the entries `rem` followed by
/// the closing literal, the step is deterministic: the first entry of `rem`,
/// or the close when `rem` is exhausted.
#[verifier::rlimit(100)]
fn parse_step(
    bytes: &Vec<u8>,
    pos: usize,
    lit_eopen: &Vec<u8>,
    lit_emid: &Vec<u8>,
    lit_exml: &Vec<u8>,
    lit_eclose: &Vec<u8>,
    lit_dclose: &Vec<u8>,
    Ghost(rem): Ghost<Seq<OutlineModel>>,
) -> (r: ParseStep)
    requires
        pos <= bytes@.len() <= usize::MAX,
        lit_eopen@ == lit_entry_open(),
        lit_emid@ == lit_entry_mid(),
        lit_exml@ == lit_entry_xml(),
        lit_eclose@ == lit_entry_close(),
        lit_dclose@ == lit_doc_close(),
    ensures
        match r {
            ParseStep::Entry(o, np) => pos < np <= bytes@.len() && bytes@.subrange(
                pos as int,
                np as int,
            ) == entry_bytes(o@) && wf_outline(o@),
            ParseStep::Close => bytes@.subrange(pos as int, bytes@.len() as int)
                == lit_doc_close(),
            ParseStep::Corrupt => true,
        },
        (wf_entries(rem) && bytes@.subrange(pos as int, bytes@.len() as int) == body_bytes(rem)
            + lit_doc_close()) ==> (if rem.len() == 0 {
            r is Close
        } else {
            r matches ParseStep::Entry(o, np) && o@ == rem.first() && np == pos + entry_bytes(
                rem.first(),
            ).len()
        }),
{
    let ghost canon = wf_entries(rem) && bytes@.subrange(pos as int, bytes@.len() as int)
        == body_bytes(rem) + lit_doc_close();
    let ghost o_k = rem.first();
    let ghost rest0 = body_bytes(rem.drop_first()) + lit_doc_close();
    let ghost tail_x = lit_entry_close() + rest0;
    let ghost tail_h = lit_entry_xml() + (o_k.xml_url + tail_x);
    let ghost tail_t = lit_entry_mid() + (o_k.html_url + tail_h);
    let ghost t_end: int = pos + 15 + o_k.text.len();
    let ghost h_end: int = t_end + 22 + o_k.html_url.len();
    let ghost x_end: int = h_end + 10 + o_k.xml_url.len();
    proof {
        if canon && rem.len() > 0 {
            assert(body_bytes(rem) == entry_bytes(rem.first()) + body_bytes(rem.drop_first()));
            assert(wf_outline(o_k));
            assert(bytes@.subrange(pos as int, bytes@.len() as int) =~= lit_entry_open() + (
            o_k.text + tail_t));
            lemma_peel(bytes@, pos as int, lit_entry_open(), o_k.text + tail_t);
            lemma_peel(bytes@, pos + 15, o_k.text, tail_t);
            assert(tail_t[0] == lit_entry_mid()[0]);
            lemma_first_delim(bytes@, pos + 15, o_k.text, tail_t, QUOTE);
            lemma_peel(bytes@, t_end, lit_entry_mid(), o_k.html_url + tail_h);
            lemma_peel(bytes@, t_end + 22, o_k.html_url, tail_h);
            assert(tail_h[0] == lit_entry_xml()[0]);
            lemma_first_delim(bytes@, t_end + 22, o_k.html_url, tail_h, QUOTE);
            lemma_peel(bytes@, h_end, lit_entry_xml(), o_k.xml_url + tail_x);
            lemma_peel(bytes@, h_end + 10, o_k.xml_url, tail_x);
            assert(tail_x[0] == lit_entry_close()[0]);
            lemma_first_delim(bytes@, h_end + 10, o_k.xml_url, tail_x, QUOTE);
            lemma_peel(bytes@, x_end, lit_entry_close(), rest0);
        }
        if canon && rem.len() == 0 {
            assert(body_bytes(rem) == Seq::<u8>::empty());
            assert(bytes@.subrange(pos as int, bytes@.len() as int) =~= lit_doc_close());
            assert(bytes@.len() - pos == 14);
            assert(bytes@.subrange(pos as int, pos as int + 14) =~= lit_doc_close());
        }
    }
    if !match_lit(bytes, pos, lit_eopen) {
        proof {
            if canon && rem.len() > 0 {
                assert(false);
            }
        }
        if !match_lit(bytes, pos, lit_dclose) {
            proof {
                if canon {
                    assert(false);
                }
            }
            return ParseStep::Corrupt;
        }
        if bytes.len() - pos != lit_dclose.len() {
            proof {
                if canon {
                    assert(false);
                }
            }
            return ParseStep::Corrupt;
        }
        proof {
            assert(bytes@.subrange(pos as int, bytes@.len() as int) =~= lit_doc_close());
        }
        return ParseStep::Close;
    }
    proof {
        if canon && rem.len() == 0 {
            assert(false);
        }
    }
    let tstart = pos + lit_eopen.len();
    let tq = match scan_delim(bytes, tstart, QUOTE) {
        Some(j) => j,
        None => {
            proof {
                if canon {
                    assert(bytes@[t_end] == QUOTE);
                    assert(false);
                }
            }
            return ParseStep::Corrupt;
        },
    };
    proof {
        if canon {
            if tq < t_end {
                assert(bytes@[tq as int] != QUOTE);
            }
            if tq > t_end {
                assert(bytes@[t_end] != QUOTE);
            }
            assert(tq == t_end);
        }
    }
    if !match_lit(bytes, tq, lit_emid) {
        proof {
            if canon {
                assert(false);
            }
        }
        return ParseStep::Corrupt;
    }
    let hstart = tq + lit_emid.len();
    let hq = match scan_delim(bytes, hstart, QUOTE) {
        Some(j) => j,
        None => {
            proof {
                if canon {
                    assert(bytes@[h_end] == QUOTE);
                    assert(false);
                }
            }
            return ParseStep::Corrupt;
        },
    };
    proof {
        if canon {
            if hq < h_end {
                assert(bytes@[hq as int] != QUOTE);
            }
            if hq > h_end {
                assert(bytes@[h_end] != QUOTE);
            }
            assert(hq == h_end);
        }
    }
    if !match_lit(bytes, hq, lit_exml) {
        proof {
            if canon {
                assert(false);
            }
        }
        return ParseStep::Corrupt;
    }
    let xstart = hq + lit_exml.len();
    let xq = match scan_delim(bytes, xstart, QUOTE) {
        Some(j) => j,
        None => {
            proof {
                if canon {
                    assert(bytes@[x_end] == QUOTE);
                    assert(false);
                }
            }
            return ParseStep::Corrupt;
        },
    };
    proof {
        if canon {
            if xq < x_end {
                assert(bytes@[xq as int] != QUOTE);
            }
            if xq > x_end {
                assert(bytes@[x_end] != QUOTE);
            }
            assert(xq == x_end);
        }
    }
    if !match_lit(bytes, xq, lit_eclose) {
        proof {
            if canon {
                assert(false);
            }
        }
        return ParseStep::Corrupt;
    }
    let text = copy_range(bytes, tstart, tq);
    let html_url = copy_range(bytes, hstart, hq);
    let xml_url = copy_range(bytes, xstart, xq);
    let newpos = xq + lit_eclose.len();
    let o = Outline { text, html_url, xml_url };
    proof {
        assert forall|j: int| 0 <= j < o.text@.len() implies o.text@[j] != QUOTE by {
            assert(o.text@[j] == bytes@[tstart + j]);
        }
        assert forall|j: int| 0 <= j < o.html_url@.len() implies o.html_url@[j] != QUOTE by {
            assert(o.html_url@[j] == bytes@[hstart + j]);
        }
        assert forall|j: int| 0 <= j < o.xml_url@.len() implies o.xml_url@[j] != QUOTE by {
            assert(o.xml_url@[j] == bytes@[xstart + j]);
        }
        assert(wf_outline(o@));
        lemma_subrange_split(bytes@, pos as int, tstart as int, tq as int);
        lemma_subrange_split(bytes@, pos as int, tq as int, hstart as int);
        lemma_subrange_split(bytes@, pos as int, hstart as int, hq as int);
        lemma_subrange_split(bytes@, pos as int, hq as int, xstart as int);
        lemma_subrange_split(bytes@, pos as int, xstart as int, xq as int);
        lemma_subrange_split(bytes@, pos as int, xq as int, newpos as int);
        assert(bytes@.subrange(pos as int, newpos as int) =~= entry_bytes(o@));
        if canon {
            assert(o@.text =~= o_k.text);
            assert(o@.html_url =~= o_k.html_url);
            assert(o@.xml_url =~= o_k.xml_url);
            assert(o@ =~= o_k);
        }
    }
    ParseStep::Entry(o, newpos)
}

/// Parses a byte buffer back into a feed-list document.  The parse
/// succeeds exactly on the buffers that are the canonical markup of some
/// well-formed document, and then returns a document with that content;
/// every other buffer is reported as `DocumentCorrupt`.
#[verifier::rlimit(100)]
pub fn parse(bytes: &Vec<u8>) -> (r: Result<FeedDocument, ErrorCode>)
    ensures
        match r {
            Ok(d) => wf_doc(d@) && serialize_spec(d@) == bytes@,
            Err(e) => e == ErrorCode::DocumentCorrupt && !has_canonical_form(bytes@),
        },
{
    let buffer_len = bytes.len();
    proof {
        assert(bytes@.len() == buffer_len <= usize::MAX);
    }
    let ghost gm: DocModel = choose|m: DocModel| wf_doc(m) && serialize_spec(m) == bytes@;
    let ghost tail2 = lit_head_close() + (body_bytes(gm.outlines) + lit_doc_close());
    let ghost tail1 = gm.title + tail2;
    proof {
        if has_canonical_form(bytes@) {
            assert(wf_doc(gm) && serialize_spec(gm) == bytes@);
            assert(bytes@ =~= lit_doc_open() + tail1);
            assert(bytes@.subrange(0, bytes@.len() as int) =~= bytes@);
        }
    }
    let lit_open = lit_doc_open_vec();
    if !match_lit(bytes, 0, &lit_open) {
        proof {
            if has_canonical_form(bytes@) {
                lemma_peel(bytes@, 0, lit_doc_open(), tail1);
                assert(false);
            }
        }
        return Err(ErrorCode::DocumentCorrupt);
    }
    proof {
        if has_canonical_form(bytes@) {
            lemma_peel(bytes@, 0, lit_doc_open(), tail1);
            lemma_first_delim(bytes@, 33, gm.title, tail2, ANGLE);
            assert(tail2[0] == lit_head_close()[0]);
            lemma_peel(bytes@, 33, gm.title, tail2);
            lemma_peel(
                bytes@,
                33 + gm.title.len() as int,
                lit_head_close(),
                body_bytes(gm.outlines) + lit_doc_close(),
            );
        }
    }
    let tpos = lit_open.len();
    let tend = match scan_delim(bytes, tpos, ANGLE) {
        Some(j) => j,
        None => {
            proof {
                if has_canonical_form(bytes@) {
                    assert(bytes@[33 + gm.title.len() as int] == ANGLE);
                    assert(false);
                }
            }
            return Err(ErrorCode::DocumentCorrupt);
        },
    };
    proof {
        if has_canonical_form(bytes@) {
            if tend < 33 + gm.title.len() {
                assert(bytes@[tend as int] != ANGLE);
            }
            if tend > 33 + gm.title.len() {
                assert(bytes@[33 + gm.title.len() as int] != ANGLE);
            }
            assert(tend == 33 + gm.title.len());
        }
    }
    let lit_hclose = lit_head_close_vec();
    if !match_lit(bytes, tend, &lit_hclose) {
        proof {
            if has_canonical_form(bytes@) {
                assert(false);
            }
        }
        return Err(ErrorCode::DocumentCorrupt);
    }
    let title = copy_range(bytes, tpos, tend);
    proof {
        assert forall|k: int| 0 <= k < title@.len() implies title@[k] != ANGLE by {
            assert(title@[k] == bytes@[tpos + k]);
        }
        if has_canonical_form(bytes@) {
            assert(title@ =~= gm.title);
        }
    }
    let mut pos = tend + lit_hclose.len();
    proof {
        lemma_subrange_split(bytes@, 0, 33, tend as int);
        lemma_subrange_split(bytes@, 0, tend as int, pos as int);
        assert(outline_views(Seq::<Outline>::empty()).len() == 0);
        assert(body_bytes(outline_views(Seq::<Outline>::empty())) == Seq::<u8>::empty());
        assert(bytes@.subrange(0, pos as int) =~= lit_doc_open() + title@ + lit_head_close()
            + body_bytes(outline_views(Seq::<Outline>::empty())));
        if has_canonical_form(bytes@) {
            assert(gm.outlines.skip(0) =~= gm.outlines);
            assert(bytes@.subrange(pos as int, bytes@.len() as int) == body_bytes(
                gm.outlines.skip(0),
            ) + lit_doc_close());
        }
    }
    let lit_eopen = lit_entry_open_vec();
    let lit_emid = lit_entry_mid_vec();
    let lit_exml = lit_entry_xml_vec();
    let lit_eclose = lit_entry_close_vec();
    let lit_dclose = lit_doc_close_vec();
    let mut outlines: Vec<Outline> = Vec::new();
    loop
        invariant
            lit_eopen@ == lit_entry_open(),
            lit_emid@ == lit_entry_mid(),
            lit_exml@ == lit_entry_xml(),
            lit_eclose@ == lit_entry_close(),
            lit_dclose@ == lit_doc_close(),
            pos <= bytes@.len() <= usize::MAX,
            bytes@.subrange(0, pos as int) == lit_doc_open() + title@ + lit_head_close()
                + body_bytes(outline_views(outlines@)),
            no_byte(title@, ANGLE),
            forall|k: int| 0 <= k < outlines@.len() ==> wf_outline((#[trigger] outlines@[k])@),
            has_canonical_form(bytes@) ==> {
                &&& wf_doc(gm)
                &&& serialize_spec(gm) == bytes@
                &&& outlines@.len() <= gm.outlines.len()
                &&& outline_views(outlines@) == gm.outlines.take(outlines@.len() as int)
                &&& title@ == gm.title
                &&& bytes@.subrange(pos as int, bytes@.len() as int) == body_bytes(
                    gm.outlines.skip(outlines@.len() as int),
                ) + lit_doc_close()
            },
        decreases bytes@.len() - pos,
    {
        let ghost k = outlines@.len() as int;
        proof {
            if has_canonical_form(bytes@) {
                assert forall|i: int|
                    0 <= i < gm.outlines.skip(k).len() implies wf_outline(
                    #[trigger] gm.outlines.skip(k)[i],
                ) by {
                    assert(gm.outlines.skip(k)[i] == gm.outlines[k + i]);
                }
                assert(wf_entries(gm.outlines.skip(k)));
            }
        }
        let step = parse_step(
            bytes,
            pos,
            &lit_eopen,
            &lit_emid,
            &lit_exml,
            &lit_eclose,
            &lit_dclose,
            Ghost(gm.outlines.skip(k)),
        );
        match step {
            ParseStep::Entry(o, np) => {
                let ghost views0 = outline_views(outlines@);
                proof {
                    lemma_subrange_split(bytes@, 0, pos as int, np as int);
                    lemma_body_snoc(views0, o@);
                    assert(bytes@.subrange(0, np as int) =~= lit_doc_open() + title@
                        + lit_head_close() + body_bytes(views0.push(o@)));
                }
                outlines.push(o);
                proof {
                    assert(outline_views(outlines@) =~= views0.push(o@));
                    if has_canonical_form(bytes@) {
                        assert(gm.outlines.skip(k).len() > 0);
                        assert(k < gm.outlines.len());
                        assert(gm.outlines.skip(k).first() == gm.outlines[k]);
                        assert(o@ == gm.outlines[k]);
                        assert(gm.outlines.take(k + 1) =~= gm.outlines.take(k).push(
                            gm.outlines[k],
                        ));
                        assert(outline_views(outlines@) == gm.outlines.take(
                            outlines@.len() as int,
                        ));
                        lemma_body_unfold(gm.outlines, k);
                        assert(bytes@.subrange(pos as int, bytes@.len() as int)
                            =~= entry_bytes(gm.outlines[k]) + (body_bytes(gm.outlines.skip(k + 1))
                            + lit_doc_close()));
                        lemma_peel(
                            bytes@,
                            pos as int,
                            entry_bytes(gm.outlines[k]),
                            body_bytes(gm.outlines.skip(k + 1)) + lit_doc_close(),
                        );
                        assert(bytes@.subrange(np as int, bytes@.len() as int) == body_bytes(
                            gm.outlines.skip(outlines@.len() as int),
                        ) + lit_doc_close());
                    }
                }
                pos = np;
            },
            ParseStep::Close => {
                proof {
                    if has_canonical_form(bytes@) {
                        if k < gm.outlines.len() {
                            assert(gm.outlines.skip(k).len() > 0);
                            assert(false);
                        }
                    }
                }
                let d = FeedDocument { title, outlines };
                proof {
                    lemma_subrange_split(bytes@, 0, pos as int, bytes@.len() as int);
                    assert(bytes@.subrange(0, bytes@.len() as int) =~= bytes@);
                    assert(serialize_spec(d@) =~= bytes@);
                    assert forall|i: int|
                        0 <= i < d@.outlines.len() implies wf_outline(
                        #[trigger] d@.outlines[i],
                    ) by {
                        assert(d@.outlines[i] == d.outlines@[i]@);
                    }
                    assert(wf_doc(d@));
                }
                return Ok(d);
            },
            ParseStep::Corrupt => {
                proof {
                    if has_canonical_form(bytes@) {
                        assert(false);
                    }
                }
                return Err(ErrorCode::DocumentCorrupt);
            },
        }
    }
}

} // verus!
