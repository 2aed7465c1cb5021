use vstd::prelude::*;

pub mod text;
pub mod scanner;
pub mod numbering;
pub mod lexer;
pub mod tables;

use crate::lexer::{classify, lemma_lex_from, lex_from, tokens_view, LexicalError, token_fits};
use crate::numbering::{add_line_numbers, lines_of, numbered};
use crate::scanner::{remove_comments, stripped};
use crate::tables::{build_tables, describe, descriptor_lines, listing, pseudocode, token_end, DescriptorTable};

verus! {

/// The text of a file that was read for analysis.
pub struct Clean {
    pub base: String,
}

/// Everything shown for one input: the numbered cleaned text, and the tables or
/// the first lexical error.
pub struct Analysis {
    pub cleaned_display: String,
    pub tables: Result<DescriptorTable, LexicalError>,
}

/// Strips comments, numbers the cleaned lines, classifies the cleaned text and,
/// when that succeeds, builds the descriptor tables from it.
pub fn process(raw_text: String) -> (r: Analysis)
    ensures
        r.cleaned_display@ == numbered(lines_of(stripped(raw_text@))),
        ({
            let clean = stripped(raw_text@);
            match lex_from(clean, 0) {
                Err(e) => r.tables == Err::<DescriptorTable, LexicalError>(e),
                Ok(ts) => r.tables matches Ok(d) && {
                    let desc = describe(ts);
                    &&& d.keywords@ == listing(desc.0, lexer::TokenCategory::Keyword)
                    &&& d.identifiers@ == listing(desc.0, lexer::TokenCategory::Identifier)
                    &&& d.consts@ == listing(desc.0, lexer::TokenCategory::NumericConstant)
                    &&& d.operators@ == listing(desc.0, lexer::TokenCategory::Operator)
                    &&& d.strings@ == listing(desc.0, lexer::TokenCategory::StringLiteral)
                    &&& d.separators@ == listing(desc.0, lexer::TokenCategory::Separator)
                    &&& d.descriptors@ == descriptor_lines(desc.0)
                    &&& d.pseudocode@ == pseudocode(clean, ts, desc.1)
                },
            }
        }),
{
    let cleaned = remove_comments(raw_text);
    let display = add_line_numbers(cleaned.clone());
    let tables = match classify(&cleaned) {
        Ok(tokens) => {
            proof {
                lemma_lex_from(cleaned@, 0);
                let ts = tokens_view(tokens@);
                assert forall|k: int| 0 <= k < ts.len() implies token_end(#[trigger] ts[k]) <= cleaned@.len() by {
                    assert(token_fits(cleaned@, ts[k]));
                }
            }
            Ok(build_tables(&cleaned, &tokens))
        },
        Err(e) => Err(e),
    };
    Analysis { cleaned_display: display, tables }
}

} // verus!
