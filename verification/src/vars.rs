//! The user's template variables, given on the command line as `KEY=VALUE`.
use vstd::prelude::*;
use crate::cell::{dedup, lemma_dedup_push};
use crate::render::{find_char, var_views};
use crate::text::{chars_of, push_str_chars, same_text, string_of, string_of_range};

verus! {

/// What `format!("{:?}", s)` writes for a string `s`: `s` quoted, with the
/// characters that Rust's `Debug` escapes escaped.
pub uninterp spec fn str_debug(s: Seq<char>) -> Seq<char>;

/// `format!("{:?}", s)`. The contract names the result and says nothing of
/// how `Debug` quotes and escapes.
#[verifier::external_body]
fn debug_quoted(s: &str) -> (r: String)
    ensures
        r@ == str_debug(s@),
{
    format!("{s:?}")
}

/// `expected KEY=VALUE, got `
pub open spec fn key_val_error_prefix() -> Seq<char> {
    seq!['e', 'x', 'p', 'e', 'c', 't', 'e', 'd', ' ', 'K', 'E', 'Y', '=', 'V', 'A', 'L', 'U', 'E', ',', ' ', 'g', 'o', 't', ' ']
}

/// `KEY=VALUE` split at its first `=`; the error names the argument.
pub open spec fn key_val(s: Seq<char>) -> Result<(Seq<char>, Seq<char>), Seq<char>> {
    let i = find_char(s, 0, '=');
    if i < s.len() {
        Ok((s.take(i), s.skip(i + 1)))
    } else {
        Err(key_val_error_prefix() + str_debug(s))
    }
}

/// Splits a `KEY=VALUE` argument at its first `=`.
pub fn parse_key_val(s: &str) -> (r: Result<(String, String), String>)
    ensures
        match r {
            Ok((k, v)) => key_val(s@) == Ok::<(Seq<char>, Seq<char>), Seq<char>>((k@, v@)),
            Err(e) => key_val(s@) == Err::<(Seq<char>, Seq<char>), Seq<char>>(e@),
        },
{
    let chars = chars_of(s);
    let mut i: usize = 0;
    while i < chars.len() && chars[i] != '='
        invariant
            i <= chars.len(),
            chars@ == s@,
            find_char(chars@, 0, '=') == find_char(chars@, i as int, '='),
        decreases chars.len() - i,
    {
        i = i + 1;
    }
    if i < chars.len() {
        let k = string_of_range(&chars, 0, i);
        let v = string_of_range(&chars, i + 1, chars.len());
        assert(k@ =~= s@.take(i as int));
        assert(v@ =~= s@.skip(i + 1));
        Ok((k, v))
    } else {
        let mut msg: Vec<char> = Vec::new();
        push_str_chars(&mut msg, "expected KEY=VALUE, got ");
        let q = debug_quoted(s);
        push_str_chars(&mut msg, q.as_str());
        proof {
            reveal_strlit("expected KEY=VALUE, got ");
        }
        assert(msg@ =~= key_val_error_prefix() + str_debug(s@));
        Err(string_of(&msg))
    }
}

/// The value that the last pair with key `k` gives it.
pub open spec fn last_value(pairs: Seq<(Seq<char>, Seq<char>)>, k: Seq<char>) -> Option<Seq<char>>
    decreases pairs.len(),
{
    if pairs.len() == 0 {
        None
    } else if pairs.last().0 == k {
        Some(pairs.last().1)
    } else {
        last_value(pairs.drop_last(), k)
    }
}

pub open spec fn keys_of(pairs: Seq<(Seq<char>, Seq<char>)>) -> Seq<Seq<char>> {
    pairs.map_values(|p: (Seq<char>, Seq<char>)| p.0)
}

/// The variables that `KEY=VALUE` pairs define: each key once, in the order
/// of its first pair, with the value of its last pair.
pub fn make_vars(pairs: Vec<(String, String)>) -> (r: Vec<(String, String)>)
    ensures
        keys_of(var_views(r@)) == dedup(keys_of(var_views(pairs@))),
        forall|j: int|
            0 <= j < r@.len() ==> last_value(var_views(pairs@), #[trigger] r@[j].0@) == Some(
                r@[j].1@,
            ),
{
    let ghost pv = var_views(pairs@);
    let mut out: Vec<(String, String)> = Vec::new();
    let mut i: usize = 0;
    while i < pairs.len()
        invariant
            i <= pairs.len(),
            pv == var_views(pairs@),
            keys_of(var_views(out@)) == dedup(keys_of(pv.take(i as int))),
            forall|a: int, b: int| 0 <= a < b < out@.len() ==> #[trigger] out@[a].0@ != #[trigger] out@[b].0@,
            forall|j: int|
                0 <= j < out@.len() ==> last_value(pv.take(i as int), #[trigger] out@[j].0@) == Some(
                    out@[j].1@,
                ),
        decreases pairs.len() - i,
    {
        let key = &pairs[i].0;
        let value = &pairs[i].1;
        let ghost ov = var_views(out@);
        let ghost next = pv.take(i + 1);
        assert(next.drop_last() =~= pv.take(i as int));
        assert(next.last() == (key@, value@));
        assert(keys_of(next) =~= keys_of(pv.take(i as int)).push(key@));
        proof {
            lemma_dedup_push(keys_of(pv.take(i as int)), key@);
        }
        let mut found = out.len();
        let mut m: usize = 0;
        while m < out.len()
            invariant
                m <= out.len(),
                found == out.len() || (found < m && out@[found as int].0@ == key@),
                found == out.len() ==> forall|q: int| 0 <= q < m ==> out@[q].0@ != key@,
            decreases out.len() - m,
        {
            if found == out.len() && same_text(out[m].0.as_str(), key.as_str()) {
                found = m;
            }
            m = m + 1;
        }
        if found < out.len() {
            proof {
                assert(keys_of(ov)[found as int] == key@);
                assert(dedup(keys_of(pv.take(i as int))).contains(key@));
            }
            let ghost old_out = out@;
            let k2 = out[found].0.clone();
            out.set(found, (k2, value.clone()));
            assert(keys_of(var_views(out@)) =~= keys_of(ov));
            assert forall|j: int| 0 <= j < out@.len() implies last_value(next, #[trigger] out@[j].0@)
                == Some(out@[j].1@) by {
                if j != found {
                    assert(out@[j] == old_out[j]);
                    if j < found {
                        assert(old_out[j].0@ != old_out[found as int].0@);
                    } else {
                        assert(old_out[found as int].0@ != old_out[j].0@);
                    }
                }
            }
        } else {
            proof {
                assert(!dedup(keys_of(pv.take(i as int))).contains(key@)) by {
                    if dedup(keys_of(pv.take(i as int))).contains(key@) {
                        let q = choose|q: int| 0 <= q < ov.len() && keys_of(ov)[q] == key@;
                        assert(out@[q].0@ == key@);
                    }
                }
            }
            let ghost old_out = out@;
            out.push((key.clone(), value.clone()));
            assert(keys_of(var_views(out@)) =~= keys_of(ov).push(key@));
            assert forall|j: int| 0 <= j < out@.len() implies last_value(next, #[trigger] out@[j].0@)
                == Some(out@[j].1@) by {
                if j < old_out.len() {
                    assert(out@[j] == old_out[j]);
                }
            }
        }
        i = i + 1;
    }
    assert(pv.take(pairs.len() as int) =~= pv);
    out
}

} // verus!
