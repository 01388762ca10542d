//! textDocument/hover.

use vstd::prelude::*;
use vstd::string::*;

use super::{cursor, cursor_of, has_looked, range_by, QueryCtx};
use crate::convert::{kind_word, word_of};
use crate::index::query::{innermost_symbol, smallest_symbol_at};
use crate::index::SourceText;
use crate::model::Symbol;
use crate::protocol::{Hover, Position, Range};
use crate::types::DocUri;

verus! {

/// The markdown shown for a symbol: its name and kind, its signature as code, and
/// its documentation.
pub open spec fn hover_text(symbol: Symbol) -> Seq<char> {
    let signature = match symbol.signature {
        Some(signature) => signature@,
        None => symbol.name@,
    };
    let head = "**"@ + symbol.name@ + "** ("@ + word_of(symbol.kind) + ")\n\n```"@
        + symbol.language.spec_name() + "\n"@ + signature + "\n```"@;
    match symbol.docstring {
        Some(docstring) => head + "\n\n"@ + docstring@,
        None => head,
    }
}

/// The markdown shown for a symbol.
pub fn describe(symbol: &Symbol) -> (r: String)
    ensures
        r@ == hover_text(*symbol),
{
    let mut value: String = "**".to_owned();
    value.append(symbol.name.as_str());
    value.append("** (");
    value.append(kind_word(symbol.kind));
    value.append(")\n\n```");
    value.append(symbol.language.name());
    value.append("\n");
    match &symbol.signature {
        Some(signature) => value.append(signature.as_str()),
        None => value.append(symbol.name.as_str()),
    }
    value.append("\n```");
    if let Some(docstring) = &symbol.docstring {
        value.append("\n\n");
        value.append(docstring.as_str());
    }
    value
}

/// What is shown for the symbol under the cursor.
pub fn hover_at<'a, S: SourceText>(ctx: &mut QueryCtx<'a, S>, uri: &DocUri, pos: Position) -> (r:
    Option<Hover>)
    ensures
        final(ctx).continues(old(ctx)),
        has_looked(final(ctx).findings(), final(ctx).texts(), uri@),
        match cursor_of(
            final(ctx).findings(),
            final(ctx).texts(),
            uri@,
            pos,
            final(ctx).spec_encoding(),
        ) {
            Some((file, byte)) => match innermost_symbol(file, byte) {
                Some(symbol) => r matches Some(hover) && hover.value@ == hover_text(symbol)
                    && hover.range == range_by(
                    final(ctx).texts(),
                    file.path@,
                    symbol.source_range,
                    final(ctx).spec_encoding(),
                ),
                None => r is None,
            },
            None => r is None,
        },
{
    match cursor(ctx, uri, pos) {
        Some((file, byte)) => match smallest_symbol_at(file, byte) {
            Some(symbol) => {
                let range: Range = ctx.range_for(&file.path, &symbol.source_range);
                Some(Hover { value: describe(symbol), range })
            },
            None => None,
        },
        None => None,
    }
}

} // verus!
