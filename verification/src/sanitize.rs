//! Query sanitization: only an explicit allow-list of characters survives.
use vstd::prelude::*;

use crate::text::{char_is_alphanumeric, char_is_whitespace, is_alnum, is_space};

verus! {

/// A character the sanitizer keeps: alphanumerics, whitespace, a small set
/// of literal symbols, and the CJK Unified Ideographs block.
pub open spec fn allowed_query_char(c: char) -> bool {
    ||| is_alnum(c)
    ||| is_space(c)
    ||| c == '_'
    ||| c == '-'
    ||| c == '.'
    ||| c == '('
    ||| c == ')'
    ||| c == '['
    ||| c == ']'
    ||| c == '{'
    ||| c == '}'
    ||| c == '+'
    ||| c == '='
    ||| (0x4e00 <= c as u32 && c as u32 <= 0x9fff)
}

/// The sanitized form of a query: the allowed characters, in order.
pub open spec fn spec_sanitize(s: Seq<char>) -> Seq<char> {
    s.filter(|c: char| allowed_query_char(c))
}

fn char_allowed(c: char) -> (r: bool)
    ensures
        r == allowed_query_char(c),
{
    if char_is_alphanumeric(c) || char_is_whitespace(c) {
        return true;
    }
    if c == '_' || c == '-' || c == '.' || c == '(' || c == ')' || c == '[' || c == ']' || c == '{'
        || c == '}' || c == '+' || c == '=' {
        return true;
    }
    let u = c as u32;
    0x4e00 <= u && u <= 0x9fff
}

/// Drops every character outside the allow-list; case is preserved.
pub fn sanitize_search_query(query: &str) -> (r: String)
    ensures
        r@ == spec_sanitize(query@),
{
    let n = query.unicode_len();
    let mut out = String::new();
    let mut i: usize = 0;
    while i < n
        invariant
            n == query@.len(),
            0 <= i <= n,
            out@ == spec_sanitize(query@.take(i as int)),
        decreases n - i,
    {
        let c = query.get_char(i);
        if char_allowed(c) {
            let piece = query.substring_char(i, i + 1);
            out.append(piece);
            proof {
                assert(piece@ =~= seq![query@[i as int]]);
            }
        }
        proof {
            reveal_with_fuel(Seq::filter, 2);
            let pred = |ch: char| allowed_query_char(ch);
            let prefix = query@.take(i as int);
            let next = query@.take(i + 1 as int);
            assert(next.drop_last() =~= prefix);
            assert(next.last() == query@[i as int]);
            if pred(query@[i as int]) {
                assert(next.filter(pred) =~= prefix.filter(pred).push(query@[i as int]));
            } else {
                assert(next.filter(pred) == prefix.filter(pred));
            }
        }
        i = i + 1;
    }
    proof {
        assert(query@.take(n as int) =~= query@);
    }
    out
}

/// Every element of an already all-allowed sequence survives filtering.
proof fn lemma_filter_all_kept(s: Seq<char>, pred: spec_fn(char) -> bool)
    requires
        forall|i: int| 0 <= i < s.len() ==> pred(#[trigger] s[i]),
    ensures
        s.filter(pred) == s,
    decreases s.len(),
{
    reveal_with_fuel(Seq::filter, 2);
    if s.len() == 0 {
        assert(s.filter(pred) =~= s);
    } else {
        lemma_filter_all_kept(s.drop_last(), pred);
        assert(pred(s.last()));
        assert(s.filter(pred) =~= s.drop_last().push(s.last()));
        assert(s.drop_last().push(s.last()) =~= s);
    }
}

/// Sanitization is idempotent: sanitizing an already sanitized query
/// changes nothing.
pub proof fn lemma_sanitize_idempotent(s: Seq<char>)
    ensures
        spec_sanitize(spec_sanitize(s)) == spec_sanitize(s),
{
    let pred = |c: char| allowed_query_char(c);
    let once = s.filter(pred);
    assert forall|i: int| 0 <= i < once.len() implies pred(#[trigger] once[i]) by {
        s.lemma_filter_pred(pred, i);
    }
    lemma_filter_all_kept(once, pred);
}

} // verus!
