//! Open buffer overlay.

use vstd::prelude::*;
use vstd::string::*;

use crate::model::{detect_language, is_file_of, LangId};
use crate::path::{DocPath, Part};
use crate::position::{index_of, lemma_index_of_bounds, Encoding, LineIndex};
use crate::protocol::Range;
use crate::text::{
    byte_offset, lemma_byte_offset_ends, lemma_byte_offset_monotone, lemma_char_index_of_offset,
    same_text, split_text, text_len,
};
use crate::types::{uri_parts, DocUri, DocVersion};

verus! {

#[derive(Clone, Copy, Debug, PartialEq, Eq, Structural)]
pub enum OpenOutcome {
    Indexed,
    Unsupported,
}

/// One edit: a range to replace, or the whole text where there is none.
#[derive(Debug)]
pub struct ContentChange {
    pub range: Option<Range>,
    pub text: String,
}

#[derive(Debug)]
pub struct OpenDoc {
    pub version: DocVersion,
    pub lang: LangId,
    pub text: String,
    pub path: Option<DocPath>,
}

/// An open document as a value.
pub struct DocView {
    pub version: DocVersion,
    pub lang: LangId,
    pub text: Seq<char>,
    pub path: Option<Seq<Part>>,
}

/// The components of an optional path.
pub open spec fn path_view(path: Option<DocPath>) -> Option<Seq<Part>> {
    match path {
        Some(path) => Some(path@),
        None => None,
    }
}

impl View for OpenDoc {
    type V = DocView;

    open spec fn view(&self) -> DocView {
        DocView {
            version: self.version,
            lang: self.lang,
            text: self.text@,
            path: path_view(self.path),
        }
    }
}

// ---------------------------------------------------------------------------
// Languages of documents

/// Exact language ids and aliases of the protocol.
pub open spec fn language_with_id(id: Seq<char>) -> Option<LangId> {
    if id == "python"@ || id == "py"@ {
        Some(LangId::Python)
    } else if id == "javascript"@ || id == "js"@ || id == "jsx"@ {
        Some(LangId::JavaScript)
    } else if id == "typescript"@ || id == "ts"@ {
        Some(LangId::TypeScript)
    } else if id == "typescriptreact"@ || id == "tsx"@ {
        Some(LangId::Tsx)
    } else if id == "c"@ {
        Some(LangId::C)
    } else if id == "cpp"@ || id == "c++"@ || id == "cc"@ || id == "cxx"@ {
        Some(LangId::Cpp)
    } else if id == "rust"@ || id == "rs"@ {
        Some(LangId::Rust)
    } else if id == "go"@ {
        Some(LangId::Go)
    } else if id == "ruby"@ || id == "rb"@ {
        Some(LangId::Ruby)
    } else {
        None
    }
}

/// Whether `lang` is the language of a document: the one its id names, or for an
/// unknown id the one its path's extension names.
pub open spec fn is_language_of(uri: Seq<char>, id: Seq<char>, lang: LangId) -> bool {
    match language_with_id(id) {
        Some(named) => lang == named,
        None => uri_parts(uri) matches Some(path) && is_file_of(path, lang),
    }
}

/// Exact language ids and aliases; an unknown spelling names none.
pub fn lang_from_id(id: &str) -> (r: Option<LangId>)
    ensures
        r == language_with_id(id@),
{
    if same_text(id, "python") || same_text(id, "py") {
        Some(LangId::Python)
    } else if same_text(id, "javascript") || same_text(id, "js") || same_text(id, "jsx") {
        Some(LangId::JavaScript)
    } else if same_text(id, "typescript") || same_text(id, "ts") {
        Some(LangId::TypeScript)
    } else if same_text(id, "typescriptreact") || same_text(id, "tsx") {
        Some(LangId::Tsx)
    } else if same_text(id, "c") {
        Some(LangId::C)
    } else if same_text(id, "cpp") || same_text(id, "c++") || same_text(id, "cc") || same_text(
        id,
        "cxx",
    ) {
        Some(LangId::Cpp)
    } else if same_text(id, "rust") || same_text(id, "rs") {
        Some(LangId::Rust)
    } else if same_text(id, "go") {
        Some(LangId::Go)
    } else if same_text(id, "ruby") || same_text(id, "rb") {
        Some(LangId::Ruby)
    } else {
        None
    }
}

/// The language of a document, from its id or its path.
pub fn lang_for(uri: &DocUri, language_id: &str) -> (r: Option<LangId>)
    ensures
        match r {
            Some(lang) => is_language_of(uri@, language_id@, lang),
            None => forall|lang: LangId| !is_language_of(uri@, language_id@, lang),
        },
{
    match lang_from_id(language_id) {
        Some(lang) => Some(lang),
        None => match uri.to_path() {
            Some(path) => detect_language(path),
            None => None,
        },
    }
}

// ---------------------------------------------------------------------------
// Edits

/// The character index that a position names; the end of the text where its
/// line does not exist.
pub open spec fn edit_index(s: Seq<char>, pos: crate::protocol::Position, encoding: Encoding) -> int {
    match index_of(s, pos, encoding) {
        Some(i) => i,
        None => s.len() as int,
    }
}

/// A text with a range replaced. A range that ends before it starts is empty.
pub open spec fn patched(
    s: Seq<char>,
    range: Range,
    replacement: Seq<char>,
    encoding: Encoding,
) -> Seq<char> {
    let start = edit_index(s, range.start, encoding);
    let end = edit_index(s, range.end, encoding);
    s.take(start) + replacement + s.skip(if end < start {
        start
    } else {
        end
    })
}

/// A text after one edit.
pub open spec fn changed(s: Seq<char>, change: ContentChange, encoding: Encoding) -> Seq<char> {
    match change.range {
        Some(range) => patched(s, range, change.text@, encoding),
        None => change.text@,
    }
}

/// A text after a list of edits, each on the result of the one before.
pub open spec fn edited(s: Seq<char>, changes: Seq<ContentChange>, encoding: Encoding) -> Seq<char>
    decreases changes.len(),
{
    if changes.len() == 0 {
        s
    } else {
        changed(edited(s, changes.drop_last(), encoding), changes.last(), encoding)
    }
}

/// Replace a range of a text.
pub fn apply_patch(text: &str, range: Range, replacement: &str, encoding: Encoding) -> (r: String)
    ensures
        r@ == patched(text@, range, replacement@, encoding),
{
    let ghost s = text@;
    let lines = LineIndex::new(text);
    let len: usize = text_len(text);
    let ghost i = edit_index(s, range.start, encoding);
    let ghost j = edit_index(s, range.end, encoding);
    let ghost k = if j < i {
        i
    } else {
        j
    };
    proof {
        lemma_index_of_bounds(s, range.start, encoding);
        lemma_index_of_bounds(s, range.end, encoding);
        lemma_byte_offset_ends(s);
        lemma_byte_offset_monotone(s, i, s.len() as int);
        lemma_byte_offset_monotone(s, j, s.len() as int);
        if j < i {
            lemma_byte_offset_monotone(s, j, i);
        } else {
            lemma_byte_offset_monotone(s, i, j);
        }
        lemma_char_index_of_offset(s, i);
        lemma_char_index_of_offset(s, k);
    }
    let start: usize = match lines.to_byte_offset(text, range.start, encoding) {
        Some(start) => start,
        None => len,
    };
    let mut end: usize = match lines.to_byte_offset(text, range.end, encoding) {
        Some(end) => end,
        None => len,
    };
    if end < start {
        end = start;
    }
    assert(start == byte_offset(s, i) && end == byte_offset(s, k));
    let mut r: String = split_text(text, start).0.to_owned();
    r.append(replacement);
    r.append(split_text(text, end).1);
    r
}

/// Apply a list of edits.
pub fn apply_changes(text: &str, changes: &Vec<ContentChange>, encoding: Encoding) -> (r: String)
    ensures
        r@ == edited(text@, changes@, encoding),
{
    let mut r: String = text.to_owned();
    let mut n: usize = 0;
    while n < changes.len()
        invariant
            n <= changes@.len(),
            r@ == edited(text@, changes@.take(n as int), encoding),
        decreases changes.len() - n,
    {
        let change = &changes[n];
        assert(changes@.take(n as int + 1).drop_last() =~= changes@.take(n as int));
        r = match change.range {
            Some(range) => apply_patch(r.as_str(), range, change.text.as_str(), encoding),
            None => change.text.clone(),
        };
        n += 1;
    }
    assert(changes@.take(n as int) =~= changes@);
    r
}

// ---------------------------------------------------------------------------
// The store

/// One open document with its address.
#[derive(Debug)]
pub struct OpenEntry {
    pub uri: DocUri,
    pub doc: OpenDoc,
}

/// The open documents by address.
#[derive(Debug)]
pub struct BufferStore {
    docs: Vec<OpenEntry>,
}

/// The documents of a list of entries by address.
pub open spec fn documents(entries: Seq<OpenEntry>) -> Map<Seq<char>, DocView>
    decreases entries.len(),
{
    if entries.len() == 0 {
        Map::empty()
    } else {
        documents(entries.drop_last()).insert(entries.last().uri@, entries.last().doc@)
    }
}

/// No address occurs twice.
pub open spec fn addresses_differ(entries: Seq<OpenEntry>) -> bool {
    forall|i: int, j: int|
        0 <= i < j < entries.len() ==> (#[trigger] entries[i]).uri@ != (#[trigger] entries[j]).uri@
}

/// The map holds each entry under its address, and nothing else.
pub proof fn lemma_documents(entries: Seq<OpenEntry>)
    requires
        addresses_differ(entries),
    ensures
        forall|i: int|
            0 <= i < entries.len() ==> documents(entries).contains_key(
                (#[trigger] entries[i]).uri@,
            ) && documents(entries)[entries[i].uri@] == entries[i].doc@,
        forall|uri: Seq<char>| #[trigger]
            documents(entries).contains_key(uri) ==> exists|i: int|
                0 <= i < entries.len() && (#[trigger] entries[i]).uri@ == uri,
    decreases entries.len(),
{
    if entries.len() > 0 {
        let rest = entries.drop_last();
        assert forall|i: int, j: int| 0 <= i < j < rest.len() implies (#[trigger] rest[i]).uri@ != (
        #[trigger] rest[j]).uri@ by {
            assert(rest[i] == entries[i] && rest[j] == entries[j]);
        }
        lemma_documents(rest);
        let last = entries.len() - 1;
        assert forall|i: int| 0 <= i < entries.len() implies documents(entries).contains_key(
            (#[trigger] entries[i]).uri@,
        ) && documents(entries)[entries[i].uri@] == entries[i].doc@ by {
            if i < last {
                assert(rest[i] == entries[i]);
                assert(entries[i].uri@ != entries[last].uri@);
            }
        }
        assert forall|uri: Seq<char>| #[trigger]
            documents(entries).contains_key(uri) implies exists|i: int|
            0 <= i < entries.len() && (#[trigger] entries[i]).uri@ == uri by {
            if uri == entries[last].uri@ {
            } else {
                assert(documents(rest).contains_key(uri));
                let i = choose|i: int| 0 <= i < rest.len() && (#[trigger] rest[i]).uri@ == uri;
                assert(entries[i].uri@ == uri);
            }
        }
    }
}

impl View for BufferStore {
    type V = Map<Seq<char>, DocView>;

    /// The open documents by address.
    closed spec fn view(&self) -> Map<Seq<char>, DocView> {
        documents(self.docs@)
    }
}

impl Default for BufferStore {
    fn default() -> (r: Self)
        ensures
            r@ == Map::<Seq<char>, DocView>::empty(),
    {
        BufferStore { docs: Vec::new() }
    }
}

impl BufferStore {
    #[verifier::type_invariant]
    spec fn distinct(&self) -> bool {
        addresses_differ(self.docs@)
    }

    fn place(&self, uri: &DocUri) -> (r: Option<usize>)
        ensures
            match r {
                Some(i) => i < self.docs@.len() && self.docs@[i as int].uri@ == uri@
                    && self@.contains_key(uri@) && self@[uri@] == self.docs@[i as int].doc@,
                None => !self@.contains_key(uri@) && forall|k: int|
                    0 <= k < self.docs@.len() ==> (#[trigger] self.docs@[k]).uri@ != uri@,
            },
            addresses_differ(self.docs@),
    {
        proof {
            use_type_invariant(self);
            lemma_documents(self.docs@);
        }
        let mut i: usize = 0;
        while i < self.docs.len()
            invariant
                i <= self.docs@.len(),
                addresses_differ(self.docs@),
                forall|k: int|
                    0 <= k < self.docs@.len() ==> documents(self.docs@).contains_key(
                        (#[trigger] self.docs@[k]).uri@,
                    ) && documents(self.docs@)[self.docs@[k].uri@] == self.docs@[k].doc@,
                forall|k: int| 0 <= k < i ==> (#[trigger] self.docs@[k]).uri@ != uri@,
            decreases self.docs.len() - i,
        {
            if self.docs[i].uri.same(uri) {
                return Some(i);
            }
            i += 1;
        }
        None
    }

    /// Put a document at an address, in place of any that is there.
    fn put(&mut self, uri: &DocUri, doc: OpenDoc)
        ensures
            final(self)@ == old(self)@.insert(uri@, doc@),
    {
        let place = self.place(uri);
        let mut docs: Vec<OpenEntry> = Vec::new();
        proof {
            use_type_invariant(&*self);
            lemma_documents(self.docs@);
        }
        let ghost before = self.docs@;
        std::mem::swap(&mut docs, &mut self.docs);
        match place {
            Some(i) => {
                docs.set(i, OpenEntry { uri: uri.clone(), doc });
            },
            None => {
                docs.push(OpenEntry { uri: uri.clone(), doc });
            },
        }
        proof {
            assert(addresses_differ(docs@));
            lemma_documents(docs@);
            let now = documents(docs@);
            assert forall|key: Seq<char>| now.contains_key(key) <==> documents(before).insert(
                uri@,
                doc@,
            ).contains_key(key) by {
                if documents(before).contains_key(key) && key != uri@ {
                    let i = choose|i: int| 0 <= i < before.len() && (#[trigger] before[i]).uri@ == key;
                    assert(docs@[i] == before[i]);
                }
                if now.contains_key(key) && key != uri@ {
                    let i = choose|i: int| 0 <= i < docs@.len() && (#[trigger] docs@[i]).uri@ == key;
                    assert(docs@[i] == before[i]);
                }
                if key == uri@ {
                    match place {
                        Some(i) => {
                            assert(docs@[i as int].uri@ == key);
                        },
                        None => {
                            assert(docs@[before.len() as int].uri@ == key);
                        },
                    }
                }
            }
            assert forall|key: Seq<char>| now.contains_key(key) implies now[key] == documents(
                before,
            ).insert(uri@, doc@)[key] by {
                let i = choose|i: int| 0 <= i < docs@.len() && (#[trigger] docs@[i]).uri@ == key;
                if key != uri@ {
                    assert(docs@[i] == before[i]);
                }
            }
            assert(now =~= documents(before).insert(uri@, doc@));
        }
        self.docs = docs;
    }

    /// Open a document. One of no known language is left out.
    pub fn open(
        &mut self,
        uri: &DocUri,
        version: DocVersion,
        language_id: &str,
        text: String,
    ) -> (r: OpenOutcome)
        ensures
            match r {
                OpenOutcome::Indexed => exists|lang: LangId| #[trigger]
                    is_language_of(uri@, language_id@, lang) && final(self)@ == old(self)@.insert(
                        uri@,
                        DocView { version, lang, text: text@, path: uri_parts(uri@) },
                    ),
                OpenOutcome::Unsupported => final(self)@ == old(self)@ && forall|lang: LangId|
                    !is_language_of(uri@, language_id@, lang),
            },
    {
        let lang: LangId = match lang_for(uri, language_id) {
            Some(lang) => lang,
            None => {
                return OpenOutcome::Unsupported;
            },
        };
        let path: Option<DocPath> = match uri.to_path() {
            Some(path) => Some(path.clone()),
            None => None,
        };
        self.put(uri, OpenDoc { version, lang, text, path });
        OpenOutcome::Indexed
    }

    /// Apply the edits of one notification. A stale notification is a client
    /// protocol violation: rejected, never repaired.
    pub fn change(
        &mut self,
        uri: &DocUri,
        version: DocVersion,
        changes: &Vec<ContentChange>,
        encoding: Encoding,
    ) -> (r: bool)
        ensures
            r == (old(self)@.contains_key(uri@) && version.0 > old(self)@[uri@].version.0),
            !r ==> final(self)@ == old(self)@,
            r ==> final(self)@ == old(self)@.insert(
                uri@,
                DocView {
                    version,
                    text: edited(old(self)@[uri@].text, changes@, encoding),
                    ..old(self)@[uri@]
                },
            ),
    {
        let place: usize = match self.place(uri) {
            Some(place) => place,
            None => {
                return false;
            },
        };
        let doc = &self.docs[place].doc;
        if !version.is_newer_than(doc.version) {
            return false;
        }
        let text: String = apply_changes(doc.text.as_str(), changes, encoding);
        let path: Option<DocPath> = match &doc.path {
            Some(path) => Some(path.clone()),
            None => None,
        };
        let lang: LangId = doc.lang;
        self.put(uri, OpenDoc { version, lang, text, path });
        true
    }

    /// Take the saved text of a document; says whether it differs from the
    /// buffer's.
    pub fn save(&mut self, uri: &DocUri, text: &str) -> (r: bool)
        ensures
            r == (old(self)@.contains_key(uri@) && old(self)@[uri@].text != text@),
            !r ==> final(self)@ == old(self)@,
            r ==> final(self)@ == old(self)@.insert(
                uri@,
                DocView { text: text@, ..old(self)@[uri@] },
            ),
    {
        let place: usize = match self.place(uri) {
            Some(place) => place,
            None => {
                return false;
            },
        };
        let doc = &self.docs[place].doc;
        if same_text(doc.text.as_str(), text) {
            return false;
        }
        let path: Option<DocPath> = match &doc.path {
            Some(path) => Some(path.clone()),
            None => None,
        };
        let version: DocVersion = doc.version;
        let lang: LangId = doc.lang;
        self.put(uri, OpenDoc { version, lang, text: text.to_owned(), path });
        true
    }

    /// Forget a document; says whether it was open.
    pub fn close(&mut self, uri: &DocUri) -> (r: bool)
        ensures
            r == old(self)@.contains_key(uri@),
            final(self)@ == old(self)@.remove(uri@),
    {
        let place: usize = match self.place(uri) {
            Some(place) => place,
            None => {
                assert(self@.remove(uri@) =~= self@);
                return false;
            },
        };
        let mut docs: Vec<OpenEntry> = Vec::new();
        let ghost before = self.docs@;
        proof {
            lemma_documents(before);
        }
        std::mem::swap(&mut docs, &mut self.docs);
        docs.remove(place);
        proof {
            let now = documents(docs@);
            assert forall|i: int, j: int| 0 <= i < j < docs@.len() implies (#[trigger] docs@[i]).uri@
                != (#[trigger] docs@[j]).uri@ by {
                let a = if i < place {
                    i
                } else {
                    i + 1
                };
                let b = if j < place {
                    j
                } else {
                    j + 1
                };
                assert(docs@[i] == before[a] && docs@[j] == before[b]);
            }
            lemma_documents(docs@);
            assert forall|key: Seq<char>| now.contains_key(key) <==> documents(before).remove(
                uri@,
            ).contains_key(key) by {
                if documents(before).contains_key(key) && key != uri@ {
                    let i = choose|i: int| 0 <= i < before.len() && (#[trigger] before[i]).uri@ == key;
                    if i < place {
                        assert(docs@[i] == before[i]);
                    } else {
                        assert(docs@[i - 1] == before[i]);
                    }
                }
                if now.contains_key(key) {
                    let i = choose|i: int| 0 <= i < docs@.len() && (#[trigger] docs@[i]).uri@ == key;
                    let a = if i < place {
                        i
                    } else {
                        i + 1
                    };
                    assert(docs@[i] == before[a]);
                    assert(before[place as int].uri@ != before[a].uri@);
                }
            }
            assert forall|key: Seq<char>| now.contains_key(key) implies now[key] == documents(
                before,
            ).remove(uri@)[key] by {
                let i = choose|i: int| 0 <= i < docs@.len() && (#[trigger] docs@[i]).uri@ == key;
                let a = if i < place {
                    i
                } else {
                    i + 1
                };
                assert(docs@[i] == before[a]);
            }
            assert(now =~= documents(before).remove(uri@));
        }
        self.docs = docs;
        true
    }

    /// The document at an address.
    pub fn get(&self, uri: &DocUri) -> (r: Option<&OpenDoc>)
        ensures
            match r {
                Some(doc) => self@.contains_key(uri@) && self@[uri@] == doc@,
                None => !self@.contains_key(uri@),
            },
    {
        match self.place(uri) {
            Some(i) => Some(&self.docs[i].doc),
            None => None,
        }
    }

    /// An open document of a path.
    pub fn by_path(&self, path: &DocPath) -> (r: Option<&OpenDoc>)
        ensures
            match r {
                Some(doc) => path_view(doc.path) == Some(path@) && exists|uri: Seq<char>|
                    self@.contains_key(uri) && #[trigger] self@[uri] == doc@,
                None => forall|uri: Seq<char>|
                    self@.contains_key(uri) ==> (#[trigger] self@[uri]).path != Some(path@),
            },
    {
        proof {
            use_type_invariant(self);
            lemma_documents(self.docs@);
        }
        let mut i: usize = 0;
        while i < self.docs.len()
            invariant
                i <= self.docs@.len(),
                forall|k: int|
                    0 <= k < self.docs@.len() ==> documents(self.docs@).contains_key(
                        (#[trigger] self.docs@[k]).uri@,
                    ) && documents(self.docs@)[self.docs@[k].uri@] == self.docs@[k].doc@,
                forall|k: int| 0 <= k < i ==> (#[trigger] self.docs@[k]).doc@.path != Some(path@),
            decreases self.docs.len() - i,
        {
            let doc = &self.docs[i].doc;
            if let Some(own) = &doc.path {
                if own.same(path) {
                    assert(self@[self.docs@[i as int].uri@] == doc@);
                    return Some(doc);
                }
            }
            i += 1;
        }
        proof {
            assert forall|uri: Seq<char>| self@.contains_key(uri) implies (#[trigger] self@[uri]).path
                != Some(path@) by {
                let k = choose|k: int| 0 <= k < self.docs@.len() && (#[trigger] self.docs@[k]).uri@ == uri;
                assert(self.docs@[k].doc@.path != Some(path@));
            }
        }
        None
    }

    /// Every open document with its address, in no stated order.
    pub fn iter(&self) -> (r: &Vec<OpenEntry>)
        ensures
            documents(r@) == self@,
            addresses_differ(r@),
    {
        proof {
            use_type_invariant(self);
        }
        &self.docs
    }
}

// ---------------------------------------------------------------------------
// Laws

/// A full-text edit makes everything before it in the notification irrelevant.
pub proof fn full_text_edit_wins(
    s: Seq<char>,
    before: Seq<ContentChange>,
    full: ContentChange,
    encoding: Encoding,
)
    requires
        full.range is None,
    ensures
        edited(s, before.push(full), encoding) == full.text@,
{
    assert(before.push(full).drop_last() =~= before);
}

/// Edits apply in order: a list of edits is its first part, then its second.
pub proof fn edits_compose(
    s: Seq<char>,
    first: Seq<ContentChange>,
    second: Seq<ContentChange>,
    encoding: Encoding,
)
    ensures
        edited(s, first + second, encoding) == edited(edited(s, first, encoding), second, encoding),
    decreases second.len(),
{
    if second.len() == 0 {
        assert(first + second =~= first);
    } else {
        edits_compose(s, first, second.drop_last(), encoding);
        assert((first + second).drop_last() =~= first + second.drop_last());
    }
}

} // verus!
