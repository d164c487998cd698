//! Laws of the positionals read from a Cobra usage line.

use vstd::prelude::*;
use crate::cobra_helptext::{reserved, usage_args, usage_args_of};
use crate::spec::ArgV;
use crate::text::words;

verus! {

/// A word of a usage line that names a positional: `<name>` or `[name]`.
pub open spec fn positional_word(w: Seq<char>) -> bool {
    w.len() >= 2 && ((w[0] == '<' && w[w.len() - 1] == '>') || (w[0] == '[' && w[w.len() - 1] == ']'))
}

/// `a` is the positional that the word `w` names: its name is what the
/// brackets hold, and it is required exactly when the brackets are angled.
pub open spec fn named_by_word(a: ArgV, w: Seq<char>) -> bool {
    &&& positional_word(w)
    &&& a.name == w.subrange(1, w.len() - 1)
    &&& (a.required <==> w[0] == '<')
}

proof fn lemma_usage_args_of_words(ws: Seq<Seq<char>>, has_subcommands: bool)
    ensures
        forall|k: int| 0 <= k < usage_args_of(ws, has_subcommands).len() ==> exists|i: int| 0 <= i < ws.len()
            && named_by_word(#[trigger] usage_args_of(ws, has_subcommands)[k], ws[i]),
        forall|i: int| 0 <= i < ws.len() && positional_word(#[trigger] ws[i])
            && !reserved(ws[i].subrange(1, ws[i].len() - 1), has_subcommands)
            ==> exists|k: int| 0 <= k < usage_args_of(ws, has_subcommands).len()
                && named_by_word(usage_args_of(ws, has_subcommands)[k], ws[i]),
    decreases ws.len(),
{
    if ws.len() > 0 {
        let init = ws.drop_last();
        lemma_usage_args_of_words(init, has_subcommands);
        let rest = usage_args_of(init, has_subcommands);
        let out = usage_args_of(ws, has_subcommands);
        let w = ws.last();
        assert forall|k: int| 0 <= k < out.len() implies exists|i: int| 0 <= i < ws.len()
            && named_by_word(#[trigger] out[k], ws[i]) by {
            if k < rest.len() {
                assert(out[k] == rest[k]);
                let i = choose|i: int| 0 <= i < init.len() && named_by_word(rest[k], init[i]);
                assert(ws[i] == init[i]);
            } else {
                assert(ws[ws.len() - 1] == w);
                assert(named_by_word(out[k], ws[ws.len() - 1]));
            }
        }
        assert forall|i: int| 0 <= i < ws.len() && positional_word(#[trigger] ws[i])
            && !reserved(ws[i].subrange(1, ws[i].len() - 1), has_subcommands)
            implies exists|k: int| 0 <= k < out.len() && named_by_word(out[k], ws[i]) by {
            if i < init.len() {
                assert(init[i] == ws[i]);
                assert(positional_word(init[i]));
                let k = choose|k: int| 0 <= k < rest.len() && named_by_word(rest[k], init[i]);
                assert(out[k] == rest[k]);
            } else {
                assert(ws[i] == w);
                assert(named_by_word(out[rest.len() as int], w));
            }
        }
    }
}

/// The positionals read from a usage line are exactly its bracketed words
/// that are not reserved placeholders: each comes from such a word, named by
/// what its brackets hold and required exactly when they are angled
/// (`<name>`), optional for `[name]`; and each such word gives one.
pub proof fn lemma_usage_positionals(line: Seq<char>, has_subcommands: bool)
    ensures
        forall|k: int| 0 <= k < usage_args(line, has_subcommands).len() ==> exists|i: int| 0 <= i < words(line).len()
            && named_by_word(#[trigger] usage_args(line, has_subcommands)[k], words(line)[i]),
        forall|i: int| 0 <= i < words(line).len() && positional_word(#[trigger] words(line)[i])
            && !reserved(words(line)[i].subrange(1, words(line)[i].len() - 1), has_subcommands)
            ==> exists|k: int| 0 <= k < usage_args(line, has_subcommands).len()
                && named_by_word(usage_args(line, has_subcommands)[k], words(line)[i]),
{
    let ws = words(line);
    let out = usage_args(line, has_subcommands);
    lemma_usage_args_of_words(ws, has_subcommands);
    assert forall|i: int| 0 <= i < ws.len() && positional_word(#[trigger] ws[i])
        && !reserved(ws[i].subrange(1, ws[i].len() - 1), has_subcommands)
        implies exists|k: int| 0 <= k < out.len() && named_by_word(out[k], ws[i]) by {
        let k = choose|k: int| 0 <= k < usage_args_of(ws, has_subcommands).len()
            && named_by_word(usage_args_of(ws, has_subcommands)[k], ws[i]);
        assert(named_by_word(out[k], ws[i]));
    }
}

} // verus!
