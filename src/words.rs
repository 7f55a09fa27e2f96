use vstd::prelude::*;

verus! {

/// The characters that `char::is_ascii_whitespace` accepts.
pub open spec fn is_ascii_ws(c: char) -> bool {
    c == ' ' || c == '\t' || c == '\n' || c == '\x0C' || c == '\r'
}

/// The maximal runs of non-whitespace characters of `s`, in order.
pub open spec fn words(s: Seq<char>) -> Seq<Seq<char>>
    decreases s.len(),
{
    if s.len() == 0 {
        seq![]
    } else {
        let init = s.drop_last();
        let c = s.last();
        if is_ascii_ws(c) {
            words(init)
        } else if init.len() == 0 || is_ascii_ws(init.last()) {
            words(init).push(seq![c])
        } else {
            let w = words(init);
            w.update(w.len() - 1, w.last().push(c))
        }
    }
}

/// Relies on str::split_ascii_whitespace: the words of `s` between runs of
/// ASCII whitespace, in order, with no empty word.
#[verifier::external_body]
pub(crate) fn split_words(s: &str) -> (r: Vec<String>)
    ensures
        r@.map_values(|w: String| w@) == words(s@),
{
    s.split_ascii_whitespace().map(|w| w.to_string()).collect()
}

} // verus!
