use vstd::pervasive::VecAdditionalExecFns;
use vstd::prelude::*;

use crate::diff::{edits_chain, spec_apply, Edit};
use crate::error::Error;
use crate::fmt::{canonical_of, fmt};
use crate::index::LineIndex;
use crate::proto::{edit_translated, text_edit_vec, PositionalEdit};
use crate::render::lemma_render_err_kind;

verus! {

/// One open document: its identifier, its current text, and the position
/// index built from that text.
pub struct Document {
    pub uri: String,
    pub text: String,
    pub index: LineIndex,
}

impl Document {
    /// The position index is well formed and was built from the document's
    /// own current text.
    pub open spec fn wf(self) -> bool {
        &&& self.index.wf()
        &&& self.index.chars@ == self.text@
    }
}

/// Whether `v` is the positional form of some ordered, non-overlapping edit
/// list that turns the text `chars` into `canon`.
pub open spec fn formatted_edits(
    starts: Seq<usize>,
    chars: Seq<char>,
    canon: Seq<char>,
    v: Seq<PositionalEdit>,
) -> bool {
    exists|edits: Seq<Edit>|
        {
            &&& #[trigger] edits_chain(edits, 0, chars.len() as int)
            &&& spec_apply(chars, edits) == canon
            &&& edits.len() == v.len()
            &&& forall|k: int|
                0 <= k < edits.len() ==> edit_translated(starts, chars, #[trigger] edits[k], v[k])
        }
}

/// The store of the open documents, keyed by document identifier. Each
/// "open" adds a document, each "change" replaces a document's text whole,
/// and formatting reads one document's current snapshot.
pub struct DocumentStore {
    pub docs: Vec<Document>,
}

impl DocumentStore {
    /// Every stored document is well formed and no identifier occurs twice.
    pub open spec fn wf(self) -> bool {
        &&& forall|i: int| 0 <= i < self.docs@.len() ==> (#[trigger] self.docs@[i]).wf()
        &&& forall|i: int, j: int|
            0 <= i < j < self.docs@.len() ==> self.docs@[i].uri@ != self.docs@[j].uri@
    }

    /// Whether a document with this identifier is open.
    pub open spec fn has_doc(self, uri: Seq<char>) -> bool {
        exists|i: int| 0 <= i < self.docs@.len() && (#[trigger] self.docs@[i]).uri@ == uri
    }

    /// The stored document with this identifier.
    pub open spec fn doc_at(self, uri: Seq<char>) -> Document {
        self.docs@[choose|i: int|
            0 <= i < self.docs@.len() && (#[trigger] self.docs@[i]).uri@ == uri]
    }

    /// The stored text of the document with this identifier.
    pub open spec fn doc_text(self, uri: Seq<char>) -> Seq<char> {
        self.doc_at(uri).text@
    }

    /// An empty store.
    pub fn new() -> (r: DocumentStore)
        ensures
            r.wf(),
            forall|u: Seq<char>| !(#[trigger] r.has_doc(u)),
            r.docs@.len() == 0,
    {
        DocumentStore { docs: Vec::new() }
    }

    /// The position of the document with this identifier, if any.
    fn find(&self, uri: &String) -> (r: Option<usize>)
        ensures
            (match r {
                Some(i) => i < self.docs@.len() && self.docs@[i as int].uri@ == uri@
                    && self.has_doc(uri@),
                None => !self.has_doc(uri@),
            }),
    {
        let mut i: usize = 0;
        while i < self.docs.len()
            invariant
                i <= self.docs@.len(),
                forall|k: int| 0 <= k < i ==> (#[trigger] self.docs@[k]).uri@ != uri@,
            decreases self.docs@.len() - i,
        {
            if self.docs[i].uri == *uri {
                return Some(i);
            }
            i = i + 1;
        }
        None
    }

    /// Under the store's invariant the identifier picks out one document,
    /// so the document at a found position is `doc_at`.
    proof fn lemma_found_doc(self, uri: Seq<char>, i: int)
        requires
            self.wf(),
            0 <= i < self.docs@.len(),
            self.docs@[i].uri@ == uri,
        ensures
            self.has_doc(uri),
            self.doc_at(uri) == self.docs@[i],
    {
        assert(self.has_doc(uri));
        let k = choose|k: int| 0 <= k < self.docs@.len() && (#[trigger] self.docs@[k]).uri@ == uri;
        if k != i {
            if k < i {
                assert(self.docs@[k].uri@ != self.docs@[i].uri@);
            } else {
                assert(self.docs@[i].uri@ != self.docs@[k].uri@);
            }
        }
    }

    /// Opens a document: stores its text and position index under the
    /// identifier, and fails if and only if the identifier is already open.
    pub fn insert_file(&mut self, uri: String, text: String) -> (r: Result<(), Error>)
        requires
            old(self).wf(),
        ensures
            final(self).wf(),
            (match r {
                Ok(()) => !old(self).has_doc(uri@) && final(self).has_doc(uri@)
                    && final(self).doc_text(uri@) == text@
                    && final(self).docs@.len() == old(self).docs@.len() + 1
                    && (forall|u: Seq<char>|
                    #[trigger] final(self).has_doc(u) <==> (old(self).has_doc(u) || u == uri@))
                    && (forall|u: Seq<char>|
                    #![trigger old(self).doc_at(u)]
                    #![trigger final(self).doc_at(u)]
                    old(self).has_doc(u) && u != uri@ ==> final(self).doc_at(u) == old(
                        self,
                    ).doc_at(u)),
                Err(e) => e == Error::DocumentAlreadyExists && old(self).has_doc(uri@)
                    && *final(self) == *old(self),
            }),
    {
        match self.find(&uri) {
            Some(_) => Err(Error::DocumentAlreadyExists),
            None => {
                let index = LineIndex::new(text.as_str());
                let ghost uri_view = uri@;
                let ghost old_docs = self.docs@;
                let doc = Document { uri, text, index };
                let ghost gdoc = doc;
                self.docs.push(doc);
                proof {
                    let n = old_docs.len() as int;
                    assert(self.docs@ =~= old_docs.push(gdoc));
                    assert(self.docs@[n].uri@ == uri_view);
                    assert(forall|k: int| 0 <= k < n ==> #[trigger] self.docs@[k] == old_docs[k]);
                    self.lemma_found_doc(uri_view, n);
                    assert forall|u: Seq<char>| #[trigger]
                        self.has_doc(u) <==> (old(self).has_doc(u) || u == uri_view) by {
                        if self.has_doc(u) {
                            let k = choose|k: int|
                                0 <= k < self.docs@.len() && (#[trigger] self.docs@[k]).uri@ == u;
                            if k < n {
                                assert(old_docs[k].uri@ == u);
                                assert(old(self).has_doc(u));
                            }
                        }
                        if old(self).has_doc(u) {
                            let k = choose|k: int|
                                0 <= k < old_docs.len() && (#[trigger] old_docs[k]).uri@ == u;
                            assert(self.docs@[k].uri@ == u);
                        }
                        if u == uri_view {
                            assert(self.docs@[n].uri@ == u);
                        }
                    }
                    assert(self.wf());
                    assert forall|u: Seq<char>|
                        old(self).has_doc(u) && u != uri_view implies #[trigger] self.doc_at(u)
                        == #[trigger] old(self).doc_at(u) by {
                        let k = choose|k: int|
                            0 <= k < old_docs.len() && (#[trigger] old_docs[k]).uri@ == u;
                        assert(self.docs@[k] == old_docs[k]);
                        old(self).lemma_found_doc(u, k);
                        self.lemma_found_doc(u, k);
                    }
                }
                Ok(())
            },
        }
    }

    /// Replaces a document's text whole, rebuilding its position index, and
    /// fails if and only if the identifier is not open.
    pub fn replace_file(&mut self, uri: &String, text: String) -> (r: Result<(), Error>)
        requires
            old(self).wf(),
        ensures
            final(self).wf(),
            (match r {
                Ok(()) => old(self).has_doc(uri@) && final(self).has_doc(uri@)
                    && final(self).doc_text(uri@) == text@
                    && final(self).docs@.len() == old(self).docs@.len()
                    && (forall|u: Seq<char>|
                        #[trigger] final(self).has_doc(u) <==> old(self).has_doc(u))
                    && (forall|u: Seq<char>|
                    #![trigger old(self).doc_at(u)]
                    #![trigger final(self).doc_at(u)]
                    old(self).has_doc(u) && u != uri@ ==> final(self).doc_at(u) == old(
                        self,
                    ).doc_at(u)),
                Err(e) => e == Error::UnknownDocument && !old(self).has_doc(uri@)
                    && *final(self) == *old(self),
            }),
    {
        match self.find(uri) {
            None => Err(Error::UnknownDocument),
            Some(i) => {
                let index = LineIndex::new(text.as_str());
                let new_uri = uri.clone();
                let ghost uri_view = uri@;
                let ghost old_docs = self.docs@;
                let doc = Document { uri: new_uri, text, index };
                let ghost gdoc = doc;
                self.docs.set(i, doc);
                proof {
                    let n = old_docs.len() as int;
                    assert(self.docs@ =~= old_docs.update(i as int, gdoc));
                    assert(self.docs@[i as int].uri@ == uri_view);
                    assert(forall|k: int|
                        0 <= k < n && k != i ==> #[trigger] self.docs@[k] == old_docs[k]);
                    self.lemma_found_doc(uri_view, i as int);
                    assert forall|u: Seq<char>| #[trigger]
                        self.has_doc(u) <==> old(self).has_doc(u) by {
                        if self.has_doc(u) {
                            let k = choose|k: int|
                                0 <= k < self.docs@.len() && (#[trigger] self.docs@[k]).uri@ == u;
                            if k == i {
                                assert(old_docs[i as int].uri@ == uri_view);
                                assert(old(self).has_doc(u));
                            } else {
                                assert(old_docs[k].uri@ == u);
                            }
                        }
                        if old(self).has_doc(u) {
                            let k = choose|k: int|
                                0 <= k < old_docs.len() && (#[trigger] old_docs[k]).uri@ == u;
                            if k == i {
                                assert(self.docs@[i as int].uri@ == u);
                            } else {
                                assert(self.docs@[k].uri@ == u);
                            }
                        }
                    }
                    assert(self.wf());
                    assert forall|u: Seq<char>|
                        old(self).has_doc(u) && u != uri_view implies #[trigger] self.doc_at(u)
                        == #[trigger] old(self).doc_at(u) by {
                        let k = choose|k: int|
                            0 <= k < old_docs.len() && (#[trigger] old_docs[k]).uri@ == u;
                        assert(k != i) by {
                            assert(old_docs[i as int].uri@ == uri_view);
                        }
                        assert(self.docs@[k] == old_docs[k]);
                        old(self).lemma_found_doc(u, k);
                        self.lemma_found_doc(u, k);
                    }
                }
                Ok(())
            },
        }
    }

    /// Formats the document with this identifier: returns the positional
    /// edits that turn its stored text into the canonical text, `None` when
    /// the text is already canonical, the renderer's error when the text
    /// holds constructs the renderer refuses, and the unknown-document
    /// error if and only if the identifier is not open.
    pub fn format_document(&self, uri: &String) -> (r: Result<Option<Vec<PositionalEdit>>, Error>)
        requires
            self.wf(),
        ensures
            !self.has_doc(uri@) ==> r == Err::<Option<Vec<PositionalEdit>>, Error>(
                Error::UnknownDocument,
            ),
            r == Err::<Option<Vec<PositionalEdit>>, Error>(Error::UnknownDocument)
                ==> !self.has_doc(uri@),
            self.has_doc(uri@) ==> (match canonical_of(self.doc_text(uri@)) {
                Err(e) => r matches Err(e2) && e2 == e,
                Ok(canon) => r matches Ok(opt) && (match opt {
                    None => canon == self.doc_text(uri@),
                    Some(v) => canon != self.doc_text(uri@) && v@.len() > 0 && formatted_edits(
                        self.doc_at(uri@).index.starts@,
                        self.doc_at(uri@).index.chars@,
                        canon,
                        v@,
                    ),
                }),
            }),
    {
        let i = match self.find(uri) {
            None => {
                return Err(Error::UnknownDocument);
            },
            Some(i) => i,
        };
        proof {
            self.lemma_found_doc(uri@, i as int);
        }
        let doc = &self.docs[i];
        let edits = match fmt(doc.text.as_str()) {
            Ok(edits) => edits,
            Err(e) => {
                proof {
                    lemma_render_err_kind(
                        crate::parse::parse_of(doc.text@),
                        crate::render::init_state(),
                    );
                }
                return Err(e);
            },
        };
        if edits.len() == 0 {
            proof {
                assert(spec_apply(doc.text@, edits@) =~= doc.text@);
            }
            Ok(None)
        } else {
            let v = text_edit_vec(&doc.index, &edits);
            proof {
                assert(formatted_edits(
                    doc.index.starts@,
                    doc.index.chars@,
                    spec_apply(doc.text@, edits@),
                    v@,
                ));
            }
            Ok(Some(v))
        }
    }
}

} // verus!
