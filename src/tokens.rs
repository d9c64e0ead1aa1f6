use vstd::prelude::*;

verus! {

/// ASCII whitespace: space, tab, line feed, form feed, carriage return.
pub open spec fn is_ascii_ws(c: char) -> bool {
    c == ' ' || c == '\t' || c == '\n' || c == '\x0C' || c == '\r'
}

/// The maximal runs of characters of `s` that are not ASCII whitespace, in
/// order.
pub open spec fn tokens(s: Seq<char>) -> Seq<Seq<char>>
    decreases s.len(),
{
    if s.len() == 0 {
        Seq::empty()
    } else {
        let t = tokens(s.drop_last());
        let c = s.last();
        if is_ascii_ws(c) {
            t
        } else if s.len() >= 2 && !is_ascii_ws(s[s.len() - 2]) {
            t.drop_last().push(t.last().push(c))
        } else {
            t.push(seq![c])
        }
    }
}

/// The views of a sequence of strings.
pub open spec fn strs(v: Seq<String>) -> Seq<Seq<char>> {
    v.map_values(|s: String| s@)
}

/// A line holds no token exactly when all of it is ASCII whitespace.
pub proof fn lemma_no_tokens_iff_blank(s: Seq<char>)
    ensures
        tokens(s).len() == 0 <==> forall|i: int| 0 <= i < s.len() ==> is_ascii_ws(#[trigger] s[i]),
    decreases s.len(),
{
    if s.len() > 0 {
        let p = s.drop_last();
        lemma_no_tokens_iff_blank(p);
        if is_ascii_ws(s.last()) {
            if tokens(s).len() == 0 {
                assert forall|i: int| 0 <= i < s.len() implies is_ascii_ws(#[trigger] s[i]) by {
                    if i < s.len() - 1 {
                        assert(s[i] == p[i]);
                    }
                }
            } else {
                let i = choose|i: int| 0 <= i < p.len() && !is_ascii_ws(#[trigger] p[i]);
                assert(s[i] == p[i]);
            }
        } else {
            if s.len() >= 2 && !is_ascii_ws(s[s.len() - 2]) {
                assert(!is_ascii_ws(p[p.len() - 1]));
            }
            assert(!is_ascii_ws(s[s.len() - 1]));
        }
    }
}

/// Relies on str::split_ascii_whitespace: the sub-slices of `s` separated by
/// runs of ASCII whitespace, in order, with no empty ones.
#[verifier::external_body]
pub(crate) fn split_tokens(s: &str) -> (r: Vec<String>)
    ensures
        strs(r@) == tokens(s@),
{
    s.split_ascii_whitespace().map(|t| t.to_string()).collect()
}

} // verus!
