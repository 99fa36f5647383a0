//! The shared-string table: the texts that cells of the string kind refer to by index.

use vstd::prelude::*;
use crate::errors::Error;
use crate::text::same_text;
use crate::xml_events::{has_failure, lemma_failure_in_front, views, Token, TokenView};

verus! {

/// How far the reading of a shared-strings part has come.
pub struct StringsRun {
    /// The strings collected so far, in document order.
    pub strings: Seq<Seq<char>>,
    /// Whether the last start element was a `t`.
    pub capturing: bool,
    /// Whether the tokenizer failed.
    pub failed: bool,
}

/// The run after one more token. A `t` start element switches capturing on and any other
/// start element switches it off; character data is appended, as it is, while capturing
/// is on.
pub open spec fn with_token(run: StringsRun, token: TokenView) -> StringsRun {
    if run.failed {
        run
    } else {
        match token {
            TokenView::Start { name, .. } => StringsRun {
                strings: run.strings,
                capturing: name == "t"@,
                failed: false,
            },
            TokenView::Characters(text) => if run.capturing {
                StringsRun { strings: run.strings.push(text), capturing: true, failed: false }
            } else {
                run
            },
            TokenView::Failure => StringsRun {
                strings: run.strings,
                capturing: run.capturing,
                failed: true,
            },
            _ => run,
        }
    }
}

/// The run over the tokens of a shared-strings part, begun with `strings` and with
/// capturing off.
pub open spec fn strings_run(strings: Seq<Seq<char>>, tokens: Seq<TokenView>) -> StringsRun
    decreases tokens.len(),
{
    if tokens.len() == 0 {
        StringsRun { strings, capturing: false, failed: false }
    } else {
        with_token(strings_run(strings, tokens.drop_last()), tokens.last())
    }
}

/// After a read failure the remaining tokens change nothing.
pub proof fn lemma_strings_run_stops(strings: Seq<Seq<char>>, tokens: Seq<TokenView>, k: int)
    requires
        0 <= k <= tokens.len(),
        strings_run(strings, tokens.take(k)).failed,
    ensures
        strings_run(strings, tokens) == strings_run(strings, tokens.take(k)),
    decreases tokens.len(),
{
    if k == tokens.len() {
        assert(tokens.take(k) =~= tokens);
    } else {
        assert(tokens.drop_last().take(k) =~= tokens.take(k));
        lemma_strings_run_stops(strings, tokens.drop_last(), k);
    }
}

/// Reading a shared-strings part fails exactly when the tokenizer failed on it.
pub proof fn lemma_strings_run_fails_on_failure(strings: Seq<Seq<char>>, tokens: Seq<TokenView>)
    ensures
        strings_run(strings, tokens).failed <==> has_failure(tokens),
    decreases tokens.len(),
{
    if tokens.len() > 0 {
        lemma_strings_run_fails_on_failure(strings, tokens.drop_last());
        lemma_failure_in_front(tokens);
    }
}

/// Reading only ever appends: the strings that were there keep their indices.
pub proof fn lemma_strings_run_appends(strings: Seq<Seq<char>>, tokens: Seq<TokenView>)
    ensures
        strings.is_prefix_of(strings_run(strings, tokens).strings),
    decreases tokens.len(),
{
    if tokens.len() > 0 {
        lemma_strings_run_appends(strings, tokens.drop_last());
    }
}

/// Reads the tokens of a shared-strings part and appends its strings to `strings`. The
/// tokenizer's read failure ends the reading with `Error::XmlRead`, and is the only
/// failure.
pub fn read_shared_strings(tokens: &Vec<Token>, strings: &mut Vec<String>) -> (r: Result<(), Error>)
    ensures
        views(final(strings)@) == strings_run(views(old(strings)@), views(tokens@)).strings,
        r == if strings_run(views(old(strings)@), views(tokens@)).failed {
            Err::<(), Error>(Error::XmlRead)
        } else {
            Ok::<(), Error>(())
        },
{
    let mut capturing = false;
    let mut i: usize = 0;
    assert(views(tokens@).take(0) =~= Seq::<TokenView>::empty());
    while i < tokens.len()
        invariant
            i <= tokens.len(),
            strings_run(views(old(strings)@), views(tokens@).take(i as int)) == (StringsRun {
                strings: views(strings@),
                capturing,
                failed: false,
            }),
        decreases tokens.len() - i,
    {
        let ghost upto = views(tokens@).take(i + 1);
        let ghost before = views(strings@);
        assert(upto.drop_last() =~= views(tokens@).take(i as int));
        assert(upto.last() == tokens@[i as int]@);
        match &tokens[i] {
            Token::Start { name, .. } => {
                capturing = same_text(name.as_str(), "t");
            },
            Token::Characters(text) => {
                if capturing {
                    strings.push(text.clone());
                    assert(views(strings@) =~= before.push(text@));
                }
            },
            Token::Failure => {
                proof {
                    lemma_strings_run_stops(views(old(strings)@), views(tokens@), i + 1);
                }
                return Err(Error::XmlRead);
            },
            _ => {},
        }
        i = i + 1;
    }
    assert(views(tokens@).take(i as int) =~= views(tokens@));
    Ok(())
}

} // verus!
