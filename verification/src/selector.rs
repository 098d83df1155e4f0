//! The selector: turns the user's list of index tokens into the canonical
//! requested-index set — ascending, duplicate-free, non-empty.

use vstd::prelude::*;
use crate::digits::{is_digit, digit_val, digits_val};

verus! {

/// A token names a segment index when it is a non-empty string of decimal
/// digits whose value fits the index type.
pub open spec fn is_index_token(s: Seq<char>) -> bool {
    &&& s.len() > 0
    &&& forall|i: int| 0 <= i < s.len() ==> is_digit(#[trigger] s[i])
    &&& digits_val(s) <= usize::MAX as nat
}

/// A non-empty token list in which every token names an index.
pub open spec fn tokens_valid(toks: Seq<Seq<char>>) -> bool {
    &&& toks.len() > 0
    &&& forall|j: int| 0 <= j < toks.len() ==> is_index_token(#[trigger] toks[j])
}

/// A sequence of indices in strictly ascending order (hence duplicate-free).
pub open spec fn strictly_ascending(s: Seq<usize>) -> bool {
    forall|i: int, j: int| 0 <= i < j < s.len() ==> s[i] < s[j]
}

/// An ascending sequence is determined by its element set: two strictly
/// ascending sequences with the same members are equal. So a contract that
/// asks for some ascending, duplicate-free sequence holding exactly given
/// values names one sequence only.
pub proof fn lemma_ascending_same_set_equal(a: Seq<usize>, b: Seq<usize>)
    requires
        strictly_ascending(a),
        strictly_ascending(b),
        forall|v: usize| a.contains(v) <==> b.contains(v),
    ensures
        a == b,
    decreases a.len(),
{
    if a.len() == 0 {
        if b.len() > 0 {
            assert(b.contains(b[0]));
        }
        assert(a =~= b);
    } else {
        assert(a.contains(a.last()));
        if b.len() == 0 {
            assert(b.contains(a.last()));
        }
        let la = a.last();
        let lb = b.last();
        assert(la <= lb) by {
            let j = choose|j: int| 0 <= j < b.len() && b[j] == la;
            if j < b.len() - 1 {
                assert(b[j] < lb);
            }
        }
        assert(lb <= la) by {
            assert(b.contains(lb));
            let j = choose|j: int| 0 <= j < a.len() && a[j] == lb;
            if j < a.len() - 1 {
                assert(a[j] < la);
            }
        }
        assert forall|v: usize| a.drop_last().contains(v) <==> b.drop_last().contains(v) by {
            assert forall|s: Seq<usize>, w: usize|
                strictly_ascending(s) && s.len() > 0 implies (s.drop_last().contains(w) <==> (
            s.contains(w) && w != s.last())) by {
                if s.drop_last().contains(w) {
                    let j = choose|j: int| 0 <= j < s.len() - 1 && s.drop_last()[j] == w;
                    assert(s[j] == w && s[j] < s.last());
                }
                if s.contains(w) && w != s.last() {
                    let j = choose|j: int| 0 <= j < s.len() && s[j] == w;
                    assert(j < s.len() - 1);
                    assert(s.drop_last()[j] == w);
                }
            }
        }
        assert(strictly_ascending(a.drop_last()) && strictly_ascending(b.drop_last())) by {
            assert(forall|i: int, j: int| 0 <= i < j < a.len() - 1 ==> a[i] < a[j]);
            assert(forall|i: int, j: int| 0 <= i < j < b.len() - 1 ==> b[i] < b[j]);
        }
        lemma_ascending_same_set_equal(a.drop_last(), b.drop_last());
        assert(a =~= a.drop_last().push(la));
        assert(b =~= b.drop_last().push(lb));
    }
}

/// Why no requested-index set could be formed.
pub enum SelectError {
    /// A token is not a decimal non-negative integer in range; holds the
    /// first offending token.
    InvalidIndex(String),
    /// The token list was empty, so no index was requested.
    NoIndices,
}

/// Dropping a digit from the end of a digit string never increases its value.
proof fn lemma_digits_val_prefix_le(s: Seq<char>, i: int)
    requires
        0 <= i <= s.len(),
    ensures
        digits_val(s.take(i)) <= digits_val(s),
    decreases s.len() - i,
{
    if i < s.len() {
        assert(s.take(i + 1).drop_last() =~= s.take(i));
        assert(digits_val(s.take(i + 1)) == digits_val(s.take(i)) * 10 + digit_val(s.take(i + 1).last()));
        lemma_digits_val_prefix_le(s, i + 1);
    } else {
        assert(s.take(i) =~= s);
    }
}

/// Parses one token: `Some` exactly when the whole token is a decimal
/// non-negative integer whose value fits, and then the value itself.
pub fn parse_index_token(s: &str) -> (r: Option<usize>)
    ensures
        r is Some <==> is_index_token(s@),
        r matches Some(v) ==> v as nat == digits_val(s@),
{
    let len = s.unicode_len();
    if len == 0 {
        return None;
    }
    let mut i: usize = 0;
    let mut acc: usize = 0;
    while i < len
        invariant
            len == s@.len(),
            0 <= i <= len,
            forall|k: int| 0 <= k < i ==> is_digit(#[trigger] s@[k]),
            acc as nat == digits_val(s@.take(i as int)),
        decreases len - i,
    {
        let c = s.get_char(i);
        let u = c as u32;
        if u < 48 || u > 57 {
            return None;
        }
        let d = (u - 48) as usize;
        proof {
            assert(s@.take(i + 1).drop_last() =~= s@.take(i as int));
            assert(s@.take(i + 1).last() == s@[i as int]);
            assert(digits_val(s@.take(i + 1)) == acc * 10 + d);
        }
        if acc > (usize::MAX - d) / 10 {
            proof {
                assert(acc * 10 + d > usize::MAX) by (nonlinear_arith)
                    requires
                        acc > (usize::MAX - d) / 10,
                        d <= usize::MAX,
                ;
                lemma_digits_val_prefix_le(s@, i + 1);
            }
            return None;
        }
        proof {
            assert(acc * 10 + d <= usize::MAX) by (nonlinear_arith)
                requires
                    acc <= (usize::MAX - d) / 10,
                    d <= usize::MAX,
            ;
        }
        acc = acc * 10 + d;
        i = i + 1;
    }
    proof {
        assert(s@.take(len as int) =~= s@);
    }
    Some(acc)
}

/// Inserts `x` into an ascending duplicate-free vector, keeping it so; the
/// element set grows by exactly `x`.
fn insert_sorted(ids: &mut Vec<usize>, x: usize)
    requires
        strictly_ascending(old(ids)@),
    ensures
        strictly_ascending(final(ids)@),
        forall|v: usize| final(ids)@.contains(v) <==> (old(ids)@.contains(v) || v == x),
{
    let ghost orig = ids@;
    let mut p: usize = 0;
    while p < ids.len() && ids[p] < x
        invariant
            ids@ == orig,
            0 <= p <= ids@.len(),
            forall|k: int| 0 <= k < p ==> orig[k] < x,
        decreases ids@.len() - p,
    {
        p = p + 1;
    }
    if p < ids.len() && ids[p] == x {
        proof {
            assert(orig.contains(x));
        }
        return;
    }
    ids.insert(p, x);
    proof {
        orig.insert_ensures(p as int, x);
        assert forall|v: usize| ids@.contains(v) implies (orig.contains(v) || v == x) by {
            let k = choose|k: int| 0 <= k < ids@.len() && ids@[k] == v;
            if k < p {
                assert(orig[k] == v);
            } else if k > p {
                assert(orig[k - 1] == v);
            }
        }
        assert forall|v: usize| (orig.contains(v) || v == x) implies ids@.contains(v) by {
            if orig.contains(v) {
                let k = choose|k: int| 0 <= k < orig.len() && orig[k] == v;
                if k < p {
                    assert(ids@[k] == v);
                } else {
                    assert(ids@[k + 1] == v);
                }
            } else {
                assert(ids@[p as int] == x);
            }
        }
        assert forall|a: int, b: int| 0 <= a < b < ids@.len() implies ids@[a] < ids@[b] by {
            if b < p {
                assert(ids@[a] == orig[a] && ids@[b] == orig[b]);
            } else if a > p {
                assert(ids@[a] == orig[a - 1] && ids@[b] == orig[b - 1]);
            } else if a < p && b == p {
                assert(ids@[a] == orig[a] && orig[a] < x);
            } else if a == p {
                assert(ids@[b] == orig[b - 1] && orig[b - 1] >= x && orig[b - 1] != x);
            } else {
                assert(ids@[a] == orig[a] && ids@[b] == orig[b - 1]);
                assert(orig[a] < x);
                assert(orig[b - 1] >= x);
            }
        }
    }
}

/// The selector. `Ok` exactly when the token list is non-empty and every
/// token is a valid index: the result is then the ascending, duplicate-free
/// set of exactly the token values. Otherwise the error says which rule was
/// broken, naming the first offending token.
pub fn parse_indices(tokens: &Vec<String>) -> (r: Result<Vec<usize>, SelectError>)
    ensures
        ({
            let toks = tokens.deep_view();
            &&& (r is Ok <==> tokens_valid(toks))
            &&& (r matches Ok(ids) ==> {
                &&& strictly_ascending(ids@)
                &&& forall|v: usize| ids@.contains(v) <==> exists|j: int|
                    0 <= j < toks.len() && digits_val(#[trigger] toks[j]) == v as nat
            })
            &&& (r matches Err(e) ==> match e {
                SelectError::InvalidIndex(t) => exists|j: int|
                    {
                        &&& 0 <= j < toks.len()
                        &&& !is_index_token(#[trigger] toks[j])
                        &&& t@ == toks[j]
                        &&& forall|k: int| 0 <= k < j ==> is_index_token(#[trigger] toks[k])
                    },
                SelectError::NoIndices => toks.len() == 0,
            })
        }),
{
    if tokens.len() == 0 {
        return Err(SelectError::NoIndices);
    }
    let mut ids: Vec<usize> = Vec::new();
    let mut j: usize = 0;
    while j < tokens.len()
        invariant
            0 <= j <= tokens@.len(),
            tokens.deep_view().len() == tokens@.len(),
            forall|k: int| 0 <= k < tokens@.len() ==> tokens.deep_view()[k] == tokens@[k]@,
            forall|k: int| 0 <= k < j ==> is_index_token(#[trigger] tokens.deep_view()[k]),
            strictly_ascending(ids@),
            forall|v: usize| ids@.contains(v) <==> exists|k: int|
                0 <= k < j && digits_val(#[trigger] tokens.deep_view()[k]) == v as nat,
        decreases tokens@.len() - j,
    {
        let tok = &tokens[j];
        match parse_index_token(tok.as_str()) {
            Some(v) => {
                insert_sorted(&mut ids, v);
                proof {
                    assert(digits_val(tokens.deep_view()[j as int]) == v as nat);
                }
            },
            None => {
                let t = String::from_str(tok.as_str());
                proof {
                    let toks = tokens.deep_view();
                    assert(!is_index_token(toks[j as int]) && t@ == toks[j as int]
                        && forall|k: int| 0 <= k < j ==> is_index_token(#[trigger] toks[k]));
                }
                return Err(SelectError::InvalidIndex(t));
            },
        }
        j = j + 1;
    }
    Ok(ids)
}

} // verus!
