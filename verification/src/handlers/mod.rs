//! Query handlers over the snapshot.

use vstd::prelude::*;
use vstd::string::*;

use crate::convert::{
    diagnostic_to_lsp, path_to_uri, shows_diagnostic, uri_of_path,
};
use crate::index::query::{document_of, file_for_uri};
use crate::index::snapshot::IndexSnapshot;
use crate::index::{gives, Analysis, Reader, SourceText};
use crate::model::{Diagnostic, FileExtraction, SourceRange, Symbol};
use crate::path::{DocPath, Part};
use crate::position::{
    byte_column_range, offset_of, position_at, positions_are_ordered, range_in, range_without_text,
    Encoding, SourceFile,
};
use crate::protocol::{Location, LspDiagnostic, Position, Range};
use crate::text::{char_index_at, lemma_byte_offset_monotone, lemma_char_index_at};
use crate::types::DocUri;

pub mod complete;
pub mod diagnostics;
pub mod goto;
pub mod hover;
pub mod symbol;

pub use complete::completion_at;
pub use diagnostics::diagnostics_for;
pub use goto::{definition_at, references_at};
pub use hover::hover_at;
pub use symbol::{document_symbols, workspace_symbols};

verus! {

/// The texts a request has looked up so far, by path; `None` where there was none
/// to be had.
pub type Texts = Map<Seq<Part>, Option<Seq<char>>>;

/// Every text of `before` is there unchanged.
pub open spec fn grows(before: Texts, after: Texts) -> bool {
    forall|path: Seq<Part>| #[trigger]
        before.contains_key(path) ==> after.contains_key(path) && after[path] == before[path]
}

/// One looked-up file.
#[derive(Debug)]
pub struct LoadedFile {
    path: DocPath,
    source: Option<SourceFile>,
}

/// The text of an optional file.
pub open spec fn source_view(source: Option<SourceFile>) -> Option<Seq<char>> {
    match source {
        Some(source) => Some(source@),
        None => None,
    }
}

spec fn loaded_texts(files: Seq<LoadedFile>) -> Texts
    decreases files.len(),
{
    if files.len() == 0 {
        Map::empty()
    } else {
        loaded_texts(files.drop_last()).insert(
            files.last().path@,
            source_view(files.last().source),
        )
    }
}

/// What was asked before is still there, in front.
pub open spec fn asks_on(before: Seq<Seq<Part>>, after: Seq<Seq<Part>>) -> bool {
    before.len() <= after.len() && forall|k: int|
        0 <= k < before.len() ==> #[trigger] after[k] == before[k]
}

/// Each text looked up was asked for once, also where there was none to be had, and
/// nothing else was.
pub open spec fn asked_once(asked: Seq<Seq<Part>>, texts: Texts) -> bool {
    &&& forall|i: int, j: int| 0 <= i < j < asked.len() ==> #[trigger] asked[i] != #[trigger] asked[j]
    &&& forall|path: Seq<Part>| #[trigger] texts.contains_key(path) == asked.contains(path)
}

spec fn paths_differ(files: Seq<LoadedFile>) -> bool {
    forall|i: int, j: int|
        0 <= i < j < files.len() ==> (#[trigger] files[i]).path@ != (#[trigger] files[j]).path@
}

proof fn lemma_loaded_texts(files: Seq<LoadedFile>)
    requires
        paths_differ(files),
    ensures
        forall|i: int|
            0 <= i < files.len() ==> loaded_texts(files).contains_key((#[trigger] files[i]).path@)
                && loaded_texts(files)[files[i].path@] == source_view(files[i].source),
        forall|path: Seq<Part>| #[trigger]
            loaded_texts(files).contains_key(path) ==> exists|i: int|
                0 <= i < files.len() && (#[trigger] files[i]).path@ == path,
    decreases files.len(),
{
    if files.len() > 0 {
        let rest = files.drop_last();
        let last = files.len() - 1;
        assert forall|i: int, j: int| 0 <= i < j < rest.len() implies (#[trigger] rest[i]).path@ != (
        #[trigger] rest[j]).path@ by {
            assert(rest[i] == files[i] && rest[j] == files[j]);
        }
        lemma_loaded_texts(rest);
        assert forall|i: int| 0 <= i < files.len() implies loaded_texts(files).contains_key(
            (#[trigger] files[i]).path@,
        ) && loaded_texts(files)[files[i].path@] == source_view(files[i].source) by {
            if i < last {
                assert(rest[i] == files[i]);
                assert(files[i].path@ != files[last].path@);
            }
        }
        assert forall|path: Seq<Part>| #[trigger]
            loaded_texts(files).contains_key(path) implies exists|i: int|
            0 <= i < files.len() && (#[trigger] files[i]).path@ == path by {
            if path == files[last].path@ {
            } else {
                assert(loaded_texts(rest).contains_key(path));
                let i = choose|i: int| 0 <= i < rest.len() && (#[trigger] rest[i]).path@ == path;
                assert(files[i].path@ == path);
            }
        }
    }
}

/// The files looked up, one for each path.
#[derive(Debug)]
struct Memo {
    files: Vec<LoadedFile>,
}

impl View for Memo {
    type V = Texts;

    closed spec fn view(&self) -> Texts {
        loaded_texts(self.files@)
    }
}

impl Memo {
    #[verifier::type_invariant]
    spec fn distinct(&self) -> bool {
        paths_differ(self.files@)
    }

    fn new() -> (r: Memo)
        ensures
            r@ == Map::<Seq<Part>, Option<Seq<char>>>::empty(),
    {
        Memo { files: Vec::new() }
    }

    /// The place of a file.
    fn find(&self, path: &DocPath) -> (r: Option<usize>)
        ensures
            match r {
                Some(i) => i < self.files@.len() && self@.contains_key(path@) && self@[path@]
                    == source_view(self.files@[i as int].source),
                None => !self@.contains_key(path@),
            },
    {
        proof {
            use_type_invariant(self);
            lemma_loaded_texts(self.files@);
        }
        let mut i: usize = 0;
        while i < self.files.len()
            invariant
                i <= self.files@.len(),
                forall|k: int|
                    0 <= k < self.files@.len() ==> loaded_texts(self.files@).contains_key(
                        (#[trigger] self.files@[k]).path@,
                    ) && loaded_texts(self.files@)[self.files@[k].path@] == source_view(
                        self.files@[k].source,
                    ),
                forall|k: int| 0 <= k < i ==> (#[trigger] self.files@[k]).path@ != path@,
            decreases self.files.len() - i,
        {
            if self.files[i].path.same(path) {
                return Some(i);
            }
            i += 1;
        }
        None
    }

    /// Keep a file that is not there yet, and give its place.
    fn keep(&mut self, path: &DocPath, source: Option<SourceFile>) -> (r: usize)
        requires
            !old(self)@.contains_key(path@),
        ensures
            final(self)@ == old(self)@.insert(path@, source_view(source)),
            r < final(self).files@.len(),
            final(self).files@[r as int].source == source,
    {
        proof {
            use_type_invariant(&*self);
        }
        let ghost before = self.files@;
        let mut files: Vec<LoadedFile> = Vec::new();
        std::mem::swap(&mut files, &mut self.files);
        let at: usize = files.len();
        files.push(LoadedFile { path: path.clone(), source });
        proof {
            assert(files@.drop_last() =~= before);
            lemma_loaded_texts(before);
            assert forall|i: int, j: int| 0 <= i < j < files@.len() implies (#[trigger] files@[i]).path@
                != (#[trigger] files@[j]).path@ by {
                assert(files@[i] == before[i]);
                if j < before.len() {
                    assert(files@[j] == before[j]);
                }
            }
        }
        self.files = files;
        at
    }
}

/// The protocol range of a byte range of a file, by the texts at hand.
pub open spec fn range_by(
    texts: Texts,
    path: Seq<Part>,
    range: SourceRange,
    encoding: Encoding,
) -> Range {
    match texts[path] {
        Some(text) => range_in(text, range, encoding),
        None => byte_column_range(range),
    }
}

/// A location shows a byte range of a file.
pub open spec fn shows_location(
    location: Location,
    texts: Texts,
    path: DocPath,
    range: SourceRange,
    encoding: Encoding,
) -> bool {
    &&& uri_of_path(path.spelling()) == Some(location.uri@)
    &&& texts.contains_key(path@)
    &&& location.range == range_by(texts, path@, range, encoding)
}

/// A shown location stays one as more texts are looked up.
pub proof fn lemma_location_stays(
    location: Location,
    before: Texts,
    after: Texts,
    path: DocPath,
    range: SourceRange,
    encoding: Encoding,
)
    requires
        shows_location(location, before, path, range, encoding),
        grows(before, after),
    ensures
        shows_location(location, after, path, range, encoding),
{
}

/// The range of a symbol's name: the identifier when captured, else the symbol.
pub open spec fn selection_of(symbol: Symbol) -> SourceRange {
    match symbol.name_range {
        Some(range) => range,
        None => symbol.source_range,
    }
}

/// Per-request context: snapshot, source lookup, encoding; text and line indices
/// memoized per path.
pub struct QueryCtx<'a, S: SourceText> {
    snapshot: &'a IndexSnapshot,
    reader: Reader<'a, S>,
    encoding: Encoding,
    memo: Memo,
}

impl<'a, S: SourceText> QueryCtx<'a, S> {
    /// The findings queried.
    pub closed spec fn findings(&self) -> Analysis {
        self.snapshot@
    }

    /// The snapshot queried.
    pub closed spec fn queried(&self) -> IndexSnapshot {
        *self.snapshot
    }

    /// Where texts come from.
    pub closed spec fn origin(&self) -> S {
        self.reader.origin()
    }

    /// The paths that the source was asked for, one for each time it was.
    pub closed spec fn asked(&self) -> Seq<Seq<Part>> {
        self.reader.asked()
    }

    /// The column encoding.
    pub closed spec fn spec_encoding(&self) -> Encoding {
        self.encoding
    }

    /// The texts looked up so far.
    pub closed spec fn texts(&self) -> Texts {
        self.memo@
    }

    /// The same query, with the texts it had and maybe more.
    pub open spec fn continues(&self, before: &Self) -> bool {
        &&& self.findings() == before.findings()
        &&& self.queried() == before.queried()
        &&& self.origin() == before.origin()
        &&& self.spec_encoding() == before.spec_encoding()
        &&& grows(before.texts(), self.texts())
        &&& forall|path: Seq<Part>| #[trigger]
            self.texts().contains_key(path) && !before.texts().contains_key(path)
                ==> gives(self.origin(), path, self.texts()[path])
        &&& asks_on(before.asked(), self.asked())
        &&& asked_once(before.asked(), before.texts()) ==> asked_once(self.asked(), self.texts())
    }

    pub fn new(snapshot: &'a IndexSnapshot, sources: &'a S, encoding: Encoding) -> (r: Self)
        ensures
            r.findings() == snapshot@,
            r.queried() == *snapshot,
            r.origin() == *sources,
            r.spec_encoding() == encoding,
            r.texts() == Map::<Seq<Part>, Option<Seq<char>>>::empty(),
            r.asked() == Seq::<Seq<Part>>::empty(),
            asked_once(r.asked(), r.texts()),
    {
        QueryCtx { snapshot, reader: Reader::new(sources), encoding, memo: Memo::new() }
    }

    pub fn snapshot(&self) -> (r: &'a IndexSnapshot)
        ensures
            r@ == self.findings(),
            *r == self.queried(),
    {
        self.snapshot
    }

    /// The column encoding.
    pub fn encoding(&self) -> (r: Encoding)
        ensures
            r == self.spec_encoding(),
    {
        self.encoding
    }

    /// Extraction for a document URI.
    pub fn document(&self, uri: &DocUri) -> (r: Option<&'a FileExtraction>)
        ensures
            match r {
                Some(file) => document_of(self.findings(), uri@) == Some(*file),
                None => document_of(self.findings(), uri@) is None,
            },
    {
        file_for_uri(self.snapshot, uri)
    }

    /// Look up a file once; later lookups find it again.
    fn file(&mut self, path: &DocPath) -> (r: usize)
        ensures
            final(self).continues(old(self)),
            final(self).texts().contains_key(path@),
            r < final(self).memo.files@.len(),
            final(self).texts()[path@] == source_view(final(self).memo.files@[r as int].source),
    {
        if let Some(i) = self.memo.find(path) {
            return i;
        }
        let source: Option<SourceFile> = match self.reader.look_up(path) {
            Some(text) => Some(SourceFile::new(text)),
            None => None,
        };
        let at: usize = self.memo.keep(path, source);
        proof {
            let (before, after) = (old(self).asked(), self.asked());
            assert forall|other: Seq<Part>| #[trigger] after.contains(other) == (before.contains(
                other,
            ) || other == path@) by {
                if before.contains(other) {
                    let k = choose|k: int| 0 <= k < before.len() && before[k] == other;
                    assert(after[k] == other);
                }
                assert(after[before.len() as int] == path@);
            }
            if asked_once(before, old(self).texts()) {
                assert(!before.contains(path@));
            }
        }
        at
    }

    /// The byte that a position of a file names.
    pub fn byte_at(&mut self, path: &DocPath, pos: Position) -> (r: Option<usize>)
        ensures
            final(self).continues(old(self)),
            final(self).texts().contains_key(path@),
            r == (match final(self).texts()[path@] {
                Some(text) => offset_of(text, pos, final(self).spec_encoding()),
                None => None,
            }),
    {
        let i: usize = self.file(path);
        match &self.memo.files[i].source {
            Some(source) => source.to_byte_offset(pos, self.encoding),
            None => None,
        }
    }

    /// The text of a file.
    pub fn text(&mut self, path: &DocPath) -> (r: Option<String>)
        ensures
            final(self).continues(old(self)),
            final(self).texts().contains_key(path@),
            match r {
                Some(text) => final(self).texts()[path@] == Some(text@),
                None => final(self).texts()[path@] is None,
            },
    {
        let i: usize = self.file(path);
        match &self.memo.files[i].source {
            Some(source) => Some(source.text().to_owned()),
            None => None,
        }
    }

    /// The protocol range of a byte range of a file.
    pub fn range_for(&mut self, path: &DocPath, range: &SourceRange) -> (r: Range)
        ensures
            final(self).continues(old(self)),
            final(self).texts().contains_key(path@),
            r == range_by(final(self).texts(), path@, *range, final(self).spec_encoding()),
    {
        let i: usize = self.file(path);
        match &self.memo.files[i].source {
            Some(source) => source.range(range, self.encoding),
            None => range_without_text(range),
        }
    }

    /// Range of a symbol, and of its name.
    pub fn symbol_ranges(&mut self, symbol: &Symbol) -> (r: (Range, Range))
        ensures
            final(self).continues(old(self)),
            final(self).texts().contains_key(symbol.file_path@),
            r.0 == range_by(
                final(self).texts(),
                symbol.file_path@,
                symbol.source_range,
                final(self).spec_encoding(),
            ),
            r.1 == range_by(
                final(self).texts(),
                symbol.file_path@,
                selection_of(*symbol),
                final(self).spec_encoding(),
            ),
    {
        let range: Range = self.range_for(&symbol.file_path, &symbol.source_range);
        let selection: Range = match &symbol.name_range {
            Some(name) => self.range_for(&symbol.file_path, name),
            None => range,
        };
        (range, selection)
    }

    /// Location of a symbol; a path without an address has none.
    pub fn location(&mut self, symbol: &Symbol) -> (r: Option<Location>)
        ensures
            final(self).continues(old(self)),
            match r {
                Some(location) => shows_location(
                    location,
                    final(self).texts(),
                    symbol.file_path,
                    symbol.source_range,
                    final(self).spec_encoding(),
                ),
                None => uri_of_path(symbol.file_path.spelling()) is None,
            },
    {
        match path_to_uri(&symbol.file_path) {
            Some(uri) => {
                let range: Range = self.range_for(&symbol.file_path, &symbol.source_range);
                Some(Location { uri, range })
            },
            None => None,
        }
    }

    /// Protocol form of one diagnostic.
    pub fn diagnostic(&mut self, diagnostic: &Diagnostic) -> (r: LspDiagnostic)
        ensures
            final(self).continues(old(self)),
            final(self).texts().contains_key(diagnostic.path@),
            shows_diagnostic(
                r,
                final(self).texts()[diagnostic.path@],
                *diagnostic,
                final(self).spec_encoding(),
            ),
    {
        let i: usize = self.file(&diagnostic.path);
        match &self.memo.files[i].source {
            Some(source) => diagnostic_to_lsp(Some(source), diagnostic, self.encoding),
            None => diagnostic_to_lsp(None, diagnostic, self.encoding),
        }
    }
}

/// The byte that a position of a file names, by the texts at hand.
pub open spec fn byte_by(texts: Texts, path: Seq<Part>, pos: Position, encoding: Encoding) -> Option<
    usize,
> {
    match texts[path] {
        Some(text) => offset_of(text, pos, encoding),
        None => None,
    }
}

/// What a cursor points at: the extraction of its document, and the byte of its
/// position.
pub open spec fn cursor_of(
    a: Analysis,
    texts: Texts,
    uri: Seq<char>,
    pos: Position,
    encoding: Encoding,
) -> Option<(FileExtraction, usize)> {
    match document_of(a, uri) {
        Some(file) => match byte_by(texts, file.path@, pos, encoding) {
            Some(byte) => Some((file, byte)),
            None => None,
        },
        None => None,
    }
}

/// The text of the document under a cursor has been looked up.
pub open spec fn has_looked(a: Analysis, texts: Texts, uri: Seq<char>) -> bool {
    document_of(a, uri) matches Some(file) ==> texts.contains_key(file.path@)
}

/// Find what a cursor points at.
pub fn cursor<'a, S: SourceText>(ctx: &mut QueryCtx<'a, S>, uri: &DocUri, pos: Position) -> (r:
    Option<(&'a FileExtraction, usize)>)
    ensures
        final(ctx).continues(old(ctx)),
        has_looked(final(ctx).findings(), final(ctx).texts(), uri@),
        match r {
            Some(found) => cursor_of(
                final(ctx).findings(),
                final(ctx).texts(),
                uri@,
                pos,
                final(ctx).spec_encoding(),
            ) == Some((*found.0, found.1)),
            None => cursor_of(
                final(ctx).findings(),
                final(ctx).texts(),
                uri@,
                pos,
                final(ctx).spec_encoding(),
            ) is None,
        },
{
    let file: &'a FileExtraction = match ctx.document(uri) {
        Some(file) => file,
        None => {
            return None;
        },
    };
    match ctx.byte_at(&file.path, pos) {
        Some(byte) => Some((file, byte)),
        None => None,
    }
}

/// The name of a symbol is shown inside the symbol wherever its bytes lie inside
/// the symbol's.
pub proof fn selection_sits_inside(text: Seq<char>, symbol: Symbol, encoding: Encoding)
    requires
        symbol.source_range.byte_start <= selection_of(symbol).byte_start,
        selection_of(symbol).byte_start <= selection_of(symbol).byte_end,
        selection_of(symbol).byte_end <= symbol.source_range.byte_end,
    ensures
        ({
            let outer = range_in(text, symbol.source_range, encoding);
            let inner = range_in(text, selection_of(symbol), encoding);
            &&& not_after(outer.start, inner.start)
            &&& not_after(inner.start, inner.end)
            &&& not_after(inner.end, outer.end)
        }),
{
    let outer = symbol.source_range;
    let inner = selection_of(symbol);
    lemma_positions_follow_bytes(text, outer.byte_start as int, inner.byte_start as int, encoding);
    lemma_positions_follow_bytes(text, inner.byte_start as int, inner.byte_end as int, encoding);
    lemma_positions_follow_bytes(text, inner.byte_end as int, outer.byte_end as int, encoding);
}

/// A position does not come after another. Lines that the protocol cannot count
/// are one line.
pub open spec fn not_after(a: Position, b: Position) -> bool {
    a.line < b.line || a.line == b.line && (a.character <= b.character || a.line == u32::MAX)
}

proof fn lemma_positions_follow_bytes(text: Seq<char>, low: int, high: int, encoding: Encoding)
    requires
        0 <= low <= high,
    ensures
        not_after(position_at(text, low, encoding), position_at(text, high, encoding)),
{
    let i = char_index_at(text, low);
    let j = char_index_at(text, high);
    lemma_char_index_at(text, low);
    lemma_char_index_at(text, high);
    if j < i {
        lemma_byte_offset_monotone(text, j + 1, i);
    }
    if i < j {
        positions_are_ordered(text, i, j, encoding);
    }
}

/// Over the life of a query the source is asked for a path at most once, also where
/// it had no text, and what was looked up stays as it was.
pub proof fn each_path_is_asked_for_once<'a, S: SourceText>(
    fresh: QueryCtx<'a, S>,
    later: QueryCtx<'a, S>,
    path: Seq<Part>,
    i: int,
    j: int,
)
    requires
        asked_once(fresh.asked(), fresh.texts()),
        later.continues(&fresh),
        0 <= i < later.asked().len(),
        0 <= j < later.asked().len(),
        later.asked()[i] == path,
        later.asked()[j] == path,
    ensures
        i == j,
        later.texts().contains_key(path),
        fresh.texts().contains_key(path) ==> i < fresh.asked().len() && later.texts()[path]
            == fresh.texts()[path],
{
    if i < j {
        assert(later.asked()[i] != later.asked()[j]);
    }
    if j < i {
        assert(later.asked()[j] != later.asked()[i]);
    }
    assert(later.asked().contains(path));
    if fresh.texts().contains_key(path) {
        assert(fresh.asked().contains(path));
        let k = choose|k: int| 0 <= k < fresh.asked().len() && fresh.asked()[k] == path;
        assert(later.asked()[k] == path);
        if k < i {
            assert(later.asked()[k] != later.asked()[i]);
        }
        if i < k {
            assert(later.asked()[i] != later.asked()[k]);
        }
    }
}

/// What continues a query that continues another continues that.
pub proof fn continuing_composes<'a, S: SourceText>(
    first: QueryCtx<'a, S>,
    second: QueryCtx<'a, S>,
    third: QueryCtx<'a, S>,
)
    requires
        second.continues(&first),
        third.continues(&second),
    ensures
        third.continues(&first),
{
}

} // verus!
