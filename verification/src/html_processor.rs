//! The reference rewriter: parse a document, enumerate the identifiers its
//! elements declare, and rewrite each identifier's attribute occurrences and
//! textual references through the shared mapping store.

use vstd::prelude::*;
use crate::bytes_util::push_all;
use crate::id_mapping::IdMapping;
use crate::rewrite::{
    attr_pattern_vec, lookup_call_prefix, lookup_call_prefix_vec, pairs_of, replace_literal,
    rewrite_calls, rewrite_hash_selectors, rewrite_seq, rw_calls, rw_hash, selector_call_prefix,
    selector_call_prefix_vec, lemma_rewrite_seq_snoc,
};

verus! {

/// A parse or processing failure inside the rewriting engine. The caller is
/// responsible for the pass-through fallback.
#[derive(Clone, Copy, Debug, PartialEq, Eq, Structural)]
pub struct RewriteError;

/// The identifiers the document's elements declare: the `id` attribute
/// values, in document order, as the HTML parser reports them. The parse is
/// deterministic: a function of the bytes alone.
pub uninterp spec fn doc_ids(content: Seq<u8>) -> Seq<Seq<u8>>;

/// Whether the rewriter can read `content` at all. HTML parsing is tolerant
/// and never fails on malformed markup, so only bytes that do not decode as
/// text are rejected.
pub uninterp spec fn is_parseable(content: Seq<u8>) -> bool;

/// Relies on `str::from_utf8` (fails exactly on bytes that are not valid
/// text), `scraper::Html::parse_document` (a best-effort parse that accepts
/// any text), `scraper::Selector::parse` on the constant selector `[id]`
/// (always accepted), and `scraper::ElementRef::attr`: together they
/// enumerate the `id` attribute values of the document's elements in
/// document order, deterministically in the input bytes.
#[verifier::external_body]
fn extract_ids(content: &[u8]) -> (r: Result<Vec<Vec<u8>>, RewriteError>)
    ensures
        (r is Ok) == is_parseable(content@),
        r matches Ok(ids) ==> ids.deep_view() == doc_ids(content@),
{
    let text = core::str::from_utf8(content).map_err(|_| RewriteError)?;
    let selector = scraper::Selector::parse("[id]").map_err(|_| RewriteError)?;
    let document = scraper::Html::parse_document(text);
    let mut ids: Vec<Vec<u8>> = Vec::new();
    for element in document.select(&selector) {
        if let Some(id) = element.value().attr("id") {
            ids.push(id.as_bytes().to_vec());
        }
    }
    Ok(ids)
}

/// The rewriting engine. It owns the mapping store that gives every
/// identifier its stable replacement across all documents it processes.
pub struct HtmlProcessor {
    id_mapping: IdMapping,
}

impl View for HtmlProcessor {
    type V = Map<Seq<u8>, Seq<u8>>;

    closed spec fn view(&self) -> Map<Seq<u8>, Seq<u8>> {
        self.id_mapping@
    }
}

impl HtmlProcessor {
    /// The processor's store is well-formed.
    pub closed spec fn wf(self) -> bool {
        self.id_mapping.wf()
    }

    /// Wrap a mapping store into a rewriting engine.
    pub fn new(id_mapping: IdMapping) -> (r: Self)
        requires
            id_mapping.wf(),
        ensures
            r.wf(),
            r@ == id_mapping@,
    {
        Self { id_mapping }
    }

    /// Rewrite the recognized element-lookup and selector calls referencing
    /// `old_id` to reference `new_id`.
    pub fn update_js_references(&self, content: &[u8], old_id: &[u8], new_id: &[u8]) -> (r: Vec<
        u8,
    >)
        ensures
            r@ == rw_calls(
                rw_calls(content@, lookup_call_prefix(), false, old_id@, new_id@),
                selector_call_prefix(),
                true,
                old_id@,
                new_id@,
            ),
    {
        let pre1 = lookup_call_prefix_vec();
        let a = rewrite_calls(content, pre1.as_slice(), false, old_id, new_id);
        let pre2 = selector_call_prefix_vec();
        rewrite_calls(a.as_slice(), pre2.as_slice(), true, old_id, new_id)
    }

    /// Rewrite the bare CSS id-selectors naming `old_id` to name `new_id`.
    pub fn update_css_references(&self, content: &[u8], old_id: &[u8], new_id: &[u8]) -> (r: Vec<
        u8,
    >)
        ensures
            r@ == rw_hash(content@, old_id@, new_id@),
    {
        rewrite_hash_selectors(content, old_id, new_id)
    }

    /// Rewrite a whole document: for each element identifier, in document
    /// order, obtain its stable replacement from the store and rewrite the
    /// attribute occurrence and every recognized reference. On success the
    /// result is exactly the rewriting of the input under the final store;
    /// on failure the store is untouched and the caller falls back to the
    /// original bytes. The store never loses or changes an earlier pairing,
    /// and gains pairings only for identifiers this document declares.
    pub fn process(&mut self, content: &[u8]) -> (r: Result<Vec<u8>, RewriteError>)
        requires
            old(self).wf(),
        ensures
            final(self).wf(),
            old(self)@.submap_of(final(self)@),
            (r is Ok) == is_parseable(content@),
            r is Err ==> final(self)@ == old(self)@,
            r is Ok ==> forall|j: int|
                0 <= j < doc_ids(content@).len() ==> final(self)@.contains_key(
                    #[trigger] doc_ids(content@)[j],
                ),
            r is Ok ==> forall|k: Seq<u8>| #[trigger]
                final(self)@.contains_key(k) ==> old(self)@.contains_key(k) || doc_ids(
                    content@,
                ).contains(k),
            r matches Ok(out) ==> out@ == rewrite_seq(
                content@,
                pairs_of(doc_ids(content@), final(self)@),
            ),
    {
        let ids = match extract_ids(content) {
            Ok(ids) => ids,
            Err(e) => { return Err(e) },
        };
        let n = ids.len();
        let mut out: Vec<u8> = Vec::new();
        push_all(&mut out, content);
        let mut i: usize = 0;
        proof {
            assert(out@ =~= content@);
            assert(ids.deep_view().take(0) =~= Seq::<Seq<u8>>::empty());
            assert(pairs_of(Seq::<Seq<u8>>::empty(), self@) =~= Seq::<(Seq<u8>, Seq<u8>)>::empty());
            assert(rewrite_seq(content@, Seq::<(Seq<u8>, Seq<u8>)>::empty()) == content@);
        }
        while i < n
            invariant
                i <= n,
                n == ids@.len(),
                ids.deep_view() == doc_ids(content@),
                self.wf(),
                old(self)@.submap_of(self@),
                forall|j: int|
                    0 <= j < i ==> self@.contains_key(#[trigger] ids.deep_view()[j]),
                forall|k: Seq<u8>| #[trigger]
                    self@.contains_key(k) ==> old(self)@.contains_key(k) || ids.deep_view().contains(
                        k,
                    ),
                out@ == rewrite_seq(content@, pairs_of(ids.deep_view().take(i as int), self@)),
            decreases n - i,
        {
            let ghost pre_map = self@;
            let new_id = self.id_mapping.get_or_create_mapping(ids[i].as_slice());
            proof {
                assert(ids.deep_view()[i as int] == ids@[i as int]@);
                assert(self@.contains_key(ids.deep_view()[i as int]));
                assert(ids.deep_view().contains(ids.deep_view()[i as int]));
                // earlier pairs keep their values in the grown store
                assert(pairs_of(ids.deep_view().take(i as int), pre_map) =~= pairs_of(
                    ids.deep_view().take(i as int),
                    self@,
                )) by {
                    assert forall|j: int| 0 <= j < i implies pre_map[#[trigger] ids.deep_view()[j]]
                        == self@[ids.deep_view()[j]] by {
                        assert(pre_map.dom().contains(ids.deep_view()[j]));
                    }
                }
                assert forall|k: Seq<u8>| #[trigger] old(self)@.dom().contains(k) implies self@.dom().contains(
                    k,
                ) && old(self)@[k] == self@[k] by {
                    assert(pre_map.dom().contains(k));
                }
            }
            let old_pat = attr_pattern_vec(ids[i].as_slice());
            let new_pat = attr_pattern_vec(new_id.as_slice());
            let s1 = replace_literal(out.as_slice(), old_pat.as_slice(), new_pat.as_slice());
            let s2 = self.update_js_references(s1.as_slice(), ids[i].as_slice(), new_id.as_slice());
            let s3 = self.update_css_references(
                s2.as_slice(),
                ids[i].as_slice(),
                new_id.as_slice(),
            );
            out = s3;
            proof {
                let key = ids.deep_view()[i as int];
                assert(new_id@ == self@[key]);
                lemma_rewrite_seq_snoc(
                    content@,
                    pairs_of(ids.deep_view().take(i as int), self@),
                    (key, new_id@),
                );
                assert(pairs_of(ids.deep_view().take(i + 1), self@) =~= pairs_of(
                    ids.deep_view().take(i as int),
                    self@,
                ).push((key, self@[key])));
            }
            i += 1;
        }
        proof {
            assert(ids.deep_view().take(n as int) =~= ids.deep_view());
        }
        Ok(out)
    }
}

} // verus!
