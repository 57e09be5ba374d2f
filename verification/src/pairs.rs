//! Lists of named texts.

use crate::text::same_text;
use vstd::prelude::*;

verus! {

/// The texts by name, a repeated name standing for its last text.
pub open spec fn by_name(pairs: Seq<(Seq<char>, Seq<char>)>) -> Map<Seq<char>, Seq<char>>
    decreases pairs.len(),
{
    if pairs.len() == 0 {
        Map::empty()
    } else {
        by_name(pairs.drop_last()).insert(pairs.last().0, pairs.last().1)
    }
}

/// The values of pairs.
pub open spec fn pair_views(pairs: Seq<(String, String)>) -> Seq<(Seq<char>, Seq<char>)> {
    pairs.map_values(|p: (String, String)| (p.0@, p.1@))
}

/// The text of a name.
pub fn lookup<'a>(pairs: &'a Vec<(String, String)>, name: &str) -> (r: Option<&'a str>)
    ensures
        match r {
            Some(v) => {
                &&& by_name(pair_views(pairs@)).contains_key(name@)
                &&& by_name(pair_views(pairs@))[name@] == v@
            },
            None => !by_name(pair_views(pairs@)).contains_key(name@),
        },
{
    let ghost all = pair_views(pairs@);
    let mut i: usize = pairs.len();
    assert(all.take(i as int) =~= all);
    while i > 0
        invariant
            i <= pairs@.len(),
            all == pair_views(pairs@),
            by_name(all).contains_key(name@) == by_name(all.take(i as int)).contains_key(name@),
            by_name(all.take(i as int)).contains_key(name@) ==> by_name(all)[name@] == by_name(
                all.take(i as int),
            )[name@],
        decreases i,
    {
        i = i - 1;
        assert(all.take(i + 1).drop_last() =~= all.take(i as int));
        assert(all.take(i + 1).last() == (pairs@[i as int].0@, pairs@[i as int].1@));
        if same_text(pairs[i].0.as_str(), name) {
            return Some(pairs[i].1.as_str());
        }
    }
    None
}

} // verus!
