//! Pull diagnostics for one document.

use vstd::prelude::*;

use super::{grows, QueryCtx, Texts};
use crate::convert::shows_diagnostic;
use crate::index::{Analysis, SourceText};
use crate::lookup::places_where;
use crate::model::Diagnostic;
use crate::order::gather;
use crate::path::Part;
use crate::position::Encoding;
use crate::protocol::LspDiagnostic;
use crate::types::{uri_parts, DocUri};

verus! {

/// The places of the diagnostics of one path.
pub open spec fn is_about(diagnostics: Seq<Diagnostic>, path: Seq<Part>) -> spec_fn(int) -> bool {
    |i: int| diagnostics[i].path@ == path
}

/// The diagnostics of one document, in their order.
pub open spec fn diagnostics_about(a: Analysis, uri: Seq<char>) -> Seq<Diagnostic> {
    match uri_parts(uri) {
        Some(path) => gather(
            a.diagnostics@,
            places_where(a.diagnostics@.len() as int, is_about(a.diagnostics@, path)),
        ),
        None => Seq::empty(),
    }
}

/// A protocol diagnostic shows one of the engine by the texts at hand.
pub open spec fn shows_by(
    shown: LspDiagnostic,
    texts: Texts,
    diagnostic: Diagnostic,
    encoding: Encoding,
) -> bool {
    texts.contains_key(diagnostic.path@) && shows_diagnostic(
        shown,
        texts[diagnostic.path@],
        diagnostic,
        encoding,
    )
}

/// A list shows diagnostics, one for one.
pub open spec fn shows_diagnostics(
    shown: Seq<LspDiagnostic>,
    texts: Texts,
    diagnostics: Seq<Diagnostic>,
    encoding: Encoding,
) -> bool {
    &&& shown.len() == diagnostics.len()
    &&& forall|i: int|
        0 <= i < shown.len() ==> shows_by(#[trigger] shown[i], texts, diagnostics[i], encoding)
}

/// The diagnostics of one document; none for a document without a path.
pub fn diagnostics_for<'a, S: SourceText>(ctx: &mut QueryCtx<'a, S>, uri: &DocUri) -> (r: Vec<
    LspDiagnostic,
>)
    ensures
        final(ctx).continues(old(ctx)),
        shows_diagnostics(
            r@,
            final(ctx).texts(),
            diagnostics_about(final(ctx).findings(), uri@),
            final(ctx).spec_encoding(),
        ),
{
    let mut r: Vec<LspDiagnostic> = Vec::new();
    let path = match uri.to_path() {
        Some(path) => path,
        None => {
            return r;
        },
    };
    let data = ctx.snapshot().tables().findings();
    let ghost p = is_about(data.diagnostics@, path@);
    let mut i: usize = 0;
    while i < data.diagnostics.len()
        invariant
            *data == ctx.findings(),
            ctx.continues(old(ctx)),
            i <= data.diagnostics@.len(),
            p == is_about(data.diagnostics@, path@),
            shows_diagnostics(
                r@,
                ctx.texts(),
                gather(data.diagnostics@, places_where(i as int, p)),
                ctx.spec_encoding(),
            ),
        decreases data.diagnostics.len() - i,
    {
        let diagnostic = &data.diagnostics[i];
        let ghost before = gather(data.diagnostics@, places_where(i as int, p));
        let ghost now = gather(data.diagnostics@, places_where(i as int + 1, p));
        if diagnostic.path.same(path) {
            assert(p(i as int));
            assert(now =~= before.push(*diagnostic));
            let ghost texts = ctx.texts();
            let ghost listed = r@;
            let shown = ctx.diagnostic(diagnostic);
            assert(grows(texts, ctx.texts()));
            r.push(shown);
            proof {
                assert forall|k: int| 0 <= k < r@.len() implies shows_by(
                    #[trigger] r@[k],
                    ctx.texts(),
                    now[k],
                    ctx.spec_encoding(),
                ) by {
                    if k < listed.len() {
                        assert(r@[k] == listed[k]);
                        assert(shows_by(listed[k], texts, before[k], ctx.spec_encoding()));
                    }
                }
            }
        } else {
            assert(!p(i as int));
            assert(now =~= before);
        }
        i += 1;
    }
    r
}

} // verus!
