use vstd::prelude::*;
use vstd::string::StringExecFns;

verus! {

/// The text of each string of a sequence.
pub open spec fn views(v: Seq<String>) -> Seq<Seq<char>> {
    v.map_values(|s: String| s@)
}

/// The items of `items` with `sep` between each two neighbours.
pub open spec fn joined(items: Seq<Seq<char>>, sep: Seq<char>) -> Seq<char>
    decreases items.len(),
{
    if items.len() == 0 {
        Seq::empty()
    } else if items.len() == 1 {
        items[0]
    } else {
        joined(items.drop_last(), sep) + sep + items.last()
    }
}

/// `s` between backticks.
pub open spec fn quoted(s: Seq<char>) -> Seq<char> {
    seq!['`'] + s + seq!['`']
}

/// Relies on itertools::join: the `Display` text of each item, in order,
/// with `sep` between neighbours (a `String` displays as itself).
#[verifier::external_body]
fn join_with(items: &Vec<String>, sep: &str) -> (r: String)
    ensures
        r@ == joined(views(items@), sep@),
{
    itertools::join(items, sep)
}

/// `s` between backticks.
pub fn quote(s: &str) -> (r: String)
    ensures
        r@ == quoted(s@),
{
    let mut r = String::from_str("`");
    r.append(s);
    r.append("`");
    proof {
        reveal_strlit("`");
    }
    r
}

/// Each string between backticks, joined by `", "`.
pub fn quoted_list(items: &Vec<String>) -> (r: String)
    ensures
        r@ == joined(views(items@).map_values(|s: Seq<char>| quoted(s)), ", "@),
{
    let mut q: Vec<String> = Vec::new();
    let mut i: usize = 0;
    while i < items.len()
        invariant
            i <= items@.len(),
            q@.len() == i,
            forall|j: int| 0 <= j < i ==> #[trigger] q@[j]@ == quoted(items@[j]@),
        decreases items@.len() - i,
    {
        let item = quote(items[i].as_str());
        q.push(item);
        i = i + 1;
    }
    assert(views(q@) =~= views(items@).map_values(|s: Seq<char>| quoted(s)));
    join_with(&q, ", ")
}

} // verus!
