//! The answer of the image search, and what is shown of it.

use vstd::prelude::*;
use vstd::string::*;

verus! {

/// The answer to a search.
pub struct Response {
    pub search: Vec<Search>,
}

/// One image that was found.
pub struct Search {
    pub id: u64,
    pub image: String,
    pub representations: SearchImages,
}

/// The addresses of an image in its sizes, each without a scheme.
pub struct SearchImages {
    pub thumb: String,
    pub medium: String,
}

/// A tag, and the other names under which it is asked for.
pub struct Alias {
    pub tag: String,
    pub names: Vec<String>,
}

/// Whether `i` is the place of the first alias of `aliases` that has the
/// name `name`.
pub open spec fn is_first_named(aliases: Seq<Alias>, name: Seq<char>, i: int) -> bool {
    &&& 0 <= i < aliases.len()
    &&& aliases[i].names.deep_view().contains(name)
    &&& forall|j: int| 0 <= j < i ==> !(#[trigger] aliases[j]).names.deep_view().contains(name)
}

/// Whether an alias of `aliases` has the name `name`.
pub open spec fn is_named(aliases: Seq<Alias>, name: Seq<char>) -> bool {
    exists|i: int| 0 <= i < aliases.len() && (#[trigger] aliases[i]).names.deep_view().contains(name)
}

impl Response {
    /// The image that is shown: the first that was found, if any was.
    pub fn first(&self) -> (found: Option<&Search>)
        ensures
            self.search@.len() == 0 ==> found is None,
            self.search@.len() > 0 ==> found == Some(&self.search@[0]),
    {
        if self.search.len() == 0 {
            None
        } else {
            Some(&self.search[0])
        }
    }
}

impl Search {
    /// The address of the image in its medium size.
    pub fn image_url(&self) -> (url: String)
        ensures
            url@ == "http:"@ + self.representations.medium@,
    {
        String::from_str("http:").concat(self.representations.medium.as_str())
    }
}

/// Whether `name` stands in `names`.
fn holds_name(names: &Vec<String>, name: &String) -> (held: bool)
    ensures
        held == names.deep_view().contains(name@),
{
    let mut i: usize = 0;
    while i < names.len()
        invariant
            i <= names.len(),
            forall|j: int| 0 <= j < i ==> (#[trigger] names.deep_view()[j]) != name@,
        decreases names.len() - i,
    {
        assert(names.deep_view()[i as int] == names@[i as int]@);
        if names[i] == *name {
            return true;
        }
        i += 1;
    }
    false
}

/// The tag that is searched for when `asked` is asked for: the tag of the
/// first alias that has `asked` as a name, and `asked` itself where none
/// has.
pub fn resolve_tag(asked: &str, aliases: &Vec<Alias>) -> (tag: String)
    ensures
        !is_named(aliases@, asked@) ==> tag@ == asked@,
        forall|i: int| is_first_named(aliases@, asked@, i) ==> tag@ == aliases@[i].tag@,
{
    let wanted = asked.to_owned();
    let mut i: usize = 0;
    while i < aliases.len()
        invariant
            i <= aliases.len(),
            wanted@ == asked@,
            forall|j: int| 0 <= j < i ==> !(#[trigger] aliases@[j]).names.deep_view().contains(asked@),
        decreases aliases.len() - i,
    {
        if holds_name(&aliases[i].names, &wanted) {
            proof {
                assert forall|k: int| is_first_named(aliases@, asked@, k) implies k == i by {
                    if k < i {
                        assert(!aliases@[k].names.deep_view().contains(asked@));
                    } else if k > i {
                        assert(aliases@[i as int].names.deep_view().contains(asked@));
                    }
                }
            }
            return aliases[i].tag.clone();
        }
        i += 1;
    }
    proof {
        assert forall|k: int| !is_first_named(aliases@, asked@, k) by {
            if 0 <= k < aliases@.len() {
                assert(!aliases@[k].names.deep_view().contains(asked@));
            }
        }
    }
    wanted
}

} // verus!
