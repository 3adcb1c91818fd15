//! Names and text: views of string lists, lookup of a name in a list, and
//! joining with a separator.

use vstd::prelude::*;
use vstd::string::StringExecFns;

verus! {

/// The views of the items of a sequence, in order.
pub open spec fn views<T: View>(s: Seq<T>) -> Seq<T::V> {
    s.map_values(|x: T| x@)
}

/// `i` is the first position of `s` that holds `x`.
pub open spec fn is_first_index<A>(s: Seq<A>, x: A, i: int) -> bool {
    &&& 0 <= i < s.len()
    &&& s[i] == x
    &&& forall|j: int| 0 <= j < i ==> s[j] != x
}

/// The position of `x` in `s`: the only one where no item occurs twice.
pub open spec fn index_of<A>(s: Seq<A>, x: A) -> int {
    choose|i: int| is_first_index(s, x, i)
}

/// The parts of `parts` in order, with `sep` between each two.
pub open spec fn join(parts: Seq<Seq<char>>, sep: Seq<char>) -> Seq<char>
    decreases parts.len(),
{
    if parts.len() == 0 {
        Seq::empty()
    } else if parts.len() == 1 {
        parts[0]
    } else {
        join(parts.drop_last(), sep) + sep + parts.last()
    }
}

/// Where `x` occurs in `s`, `index_of(s, x)` is a position that holds it.
pub proof fn lemma_index_of<A>(s: Seq<A>, x: A)
    requires
        s.contains(x),
    ensures
        is_first_index(s, x, index_of(s, x)),
{
    lemma_first_index_exists(s, x, choose|i: int| 0 <= i < s.len() && s[i] == x);
}

proof fn lemma_first_index_exists<A>(s: Seq<A>, x: A, i: int)
    requires
        0 <= i < s.len(),
        s[i] == x,
    ensures
        exists|j: int| is_first_index(s, x, j),
    decreases i,
{
    if exists|j: int| 0 <= j < i && s[j] == x {
        let j = choose|j: int| 0 <= j < i && s[j] == x;
        lemma_first_index_exists(s, x, j);
    } else {
        assert(is_first_index(s, x, i));
    }
}

/// Where `x` first occurs at position `i` of `s`, `index_of(s, x)` is `i`.
pub proof fn lemma_index_is(s: Seq<Seq<char>>, x: Seq<char>, i: int)
    requires
        is_first_index(s, x, i),
    ensures
        index_of(s, x) == i,
{
    let c = index_of(s, x);
    assert(is_first_index(s, x, c));
}

/// Where `x` stands at position `i` of `s` and nowhere else, `index_of(s,
/// x)` is `i`.
pub proof fn lemma_index_of_unique(s: Seq<usize>, i: int)
    requires
        s.no_duplicates(),
        0 <= i < s.len(),
    ensures
        index_of(s, s[i]) == i,
{
    assert(is_first_index(s, s[i], i));
    let c = index_of(s, s[i]);
    assert(is_first_index(s, s[i], c));
}

/// `position` is where `x` first occurs in `s`, or `None` where it does not
/// occur.
pub open spec fn is_position<A>(s: Seq<A>, x: A, position: Option<usize>) -> bool {
    match position {
        Some(i) => is_first_index(s, x, i as int),
        None => !s.contains(x),
    }
}

/// Where `name` first occurs among `names`.
pub fn find_name(names: &Vec<String>, name: &String) -> (r: Option<usize>)
    ensures
        is_position(views(names@), name@, r),
{
    let mut i: usize = 0;
    while i < names.len()
        invariant
            i <= names@.len(),
            forall|j: int| 0 <= j < i ==> views(names@)[j] != name@,
        decreases names@.len() - i,
    {
        if names[i] == *name {
            assert(views(names@)[i as int] == name@);
            return Some(i);
        }
        assert(views(names@)[i as int] != name@);
        i += 1;
    }
    assert(!views(names@).contains(name@));
    None
}

/// A copy of `s`.
pub fn copy_string(s: &String) -> (r: String)
    ensures
        r@ == s@,
{
    s.clone()
}

/// A copy of a list of strings.
pub fn copy_strings(v: &Vec<String>) -> (r: Vec<String>)
    ensures
        views(r@) == views(v@),
{
    let mut r: Vec<String> = Vec::new();
    let mut i: usize = 0;
    while i < v.len()
        invariant
            i <= v@.len(),
            r@.len() == i,
            forall|j: int| 0 <= j < i ==> r@[j]@ == v@[j]@,
        decreases v@.len() - i,
    {
        r.push(v[i].clone());
        i += 1;
    }
    assert(views(r@) =~= views(v@));
    r
}

/// The strings of `parts` in order, with `sep` between each two.
pub fn join_strings(parts: &Vec<String>, sep: &str) -> (r: String)
    ensures
        r@ == join(views(parts@), sep@),
{
    let mut r = String::new();
    let mut i: usize = 0;
    while i < parts.len()
        invariant
            i <= parts@.len(),
            r@ == join(views(parts@).take(i as int), sep@),
        decreases parts@.len() - i,
    {
        let ghost before = views(parts@).take(i as int);
        let ghost after = views(parts@).take(i + 1);
        proof {
            assert(after.drop_last() =~= before);
            assert(after.last() == parts@[i as int]@);
        }
        if i > 0 {
            r.append(sep);
        } else {
            assert(before.len() == 0);
            assert(r@ + parts@[i as int]@ =~= parts@[i as int]@);
        }
        r.append(parts[i].as_str());
        i += 1;
    }
    assert(views(parts@).take(parts@.len() as int) =~= views(parts@));
    r
}

} // verus!
