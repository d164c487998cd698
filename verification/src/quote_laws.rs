//! Laws of how a token is quoted for the shell.

use vstd::prelude::*;
use crate::shell_quote::{escaped, quoted_token};

verus! {

/// The characters a POSIX shell reads literally outside quotes: ASCII
/// letters and digits, and `- _ . / : = @ % + ,`.
pub open spec fn shell_literal(c: char) -> bool {
    ||| ('a' <= c && c <= 'z')
    ||| ('A' <= c && c <= 'Z')
    ||| ('0' <= c && c <= '9')
    ||| c == '-' ||| c == '_' ||| c == '.' ||| c == '/' ||| c == ':'
    ||| c == '=' ||| c == '@' ||| c == '%' ||| c == '+' ||| c == ','
}

proof fn lemma_escaped_len(t: Seq<char>)
    ensures
        escaped(t).len() >= t.len(),
    decreases t.len(),
{
    if t.len() > 0 {
        lemma_escaped_len(t.drop_last());
    }
}

/// A token goes out bare exactly when it is non-empty and made only of
/// characters the shell reads literally; any other token (the empty one,
/// or one holding a space, a quote, `&`, `?`, `*`, `;`, `|`, `$`, ...) goes
/// out wrapped in single quotes.
pub proof fn lemma_bare_only_when_literal(t: Seq<char>)
    ensures
        (t.len() > 0 && forall|i: int| 0 <= i < t.len() ==> shell_literal(#[trigger] t[i])) ==> quoted_token(t) == t,
        !(t.len() > 0 && forall|i: int| 0 <= i < t.len() ==> shell_literal(#[trigger] t[i])) ==> {
            let q = quoted_token(t);
            &&& q != t
            &&& q.len() >= t.len() + 2
            &&& q[0] == '\''
            &&& q[q.len() - 1] == '\''
        },
{
    lemma_escaped_len(t);
    let q = quoted_token(t);
    if !(t.len() > 0 && forall|i: int| 0 <= i < t.len() ==> shell_literal(#[trigger] t[i])) {
        if t.len() > 0 {
            let i = choose|i: int| 0 <= i < t.len() && !shell_literal(#[trigger] t[i]);
            assert(!crate::shell_quote::all_safe(t)) by {
                assert(!crate::shell_quote::safe_char(t[i]));
            }
        }
        assert(q == seq!['\''] + escaped(t) + seq!['\'']);
    }
}

} // verus!
