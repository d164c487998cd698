//! Laws of the command line a form runs.

use vstd::prelude::*;
use crate::form::{Field, FieldMeta, run_args, run_parts};
use crate::text::{join, words};

verus! {

/// Whether a form entry is a positional argument with text filled in.
pub open spec fn filled_positional(e: (FieldMeta, Field)) -> bool {
    e.0 is Arg && e.1 is Text && e.1->Text_0.chars@.len() > 0
}

/// The texts of the filled positional entries, in the order the form lists
/// them.
pub open spec fn positional_texts(fields: Seq<(FieldMeta, Field)>) -> Seq<Seq<char>> {
    fields.filter(|e: (FieldMeta, Field)| filled_positional(e)).map_values(|e: (FieldMeta, Field)| e.1->Text_0.chars@)
}

proof fn lemma_run_parts_positionals(fields: Seq<(FieldMeta, Field)>)
    ensures
        run_parts(fields).1 == positional_texts(fields),
    decreases fields.len(),
{
    reveal(Seq::filter);
    if fields.len() > 0 {
        let init = fields.drop_last();
        lemma_run_parts_positionals(init);
        let p = |e: (FieldMeta, Field)| filled_positional(e);
        let f = |e: (FieldMeta, Field)| e.1->Text_0.chars@;
        let sub = init.filter(p);
        if p(fields.last()) {
            assert(fields.filter(p) == sub.push(fields.last()));
            assert(sub.push(fields.last()).map_values(f) =~= sub.map_values(f).push(f(fields.last())));
        } else {
            assert(fields.filter(p) == sub);
        }
    }
}

/// A form's command line ends with the texts of its filled positional
/// fields, exactly and in the order the fields appear in the form.
pub proof fn lemma_positionals_close_the_argv(command_path: Seq<Seq<char>>, sep: Seq<char>, fields: Seq<(FieldMeta, Field)>)
    ensures
        ({
            let vals = positional_texts(fields);
            let args = run_args(command_path, sep, fields);
            &&& vals.len() <= args.len()
            &&& args.subrange(args.len() - vals.len(), args.len() as int) == vals
        }),
{
    lemma_run_parts_positionals(fields);
    let (fl, pos) = run_parts(fields);
    let args = run_args(command_path, sep, fields);
    let front = words(join(command_path, sep)) + fl;
    assert(args == front + pos);
    assert(args.subrange(front.len() as int, args.len() as int) =~= pos);
}

} // verus!
