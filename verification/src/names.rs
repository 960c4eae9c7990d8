use vstd::prelude::*;

verus! {

/// The position of the first occurrence of `name` in `names`, or -1 when it
/// does not occur.
pub open spec fn index_of(names: Seq<Seq<char>>, name: Seq<char>) -> int
    decreases names.len(),
{
    if names.len() == 0 {
        -1
    } else {
        let r = index_of(names.drop_last(), name);
        if r >= 0 {
            r
        } else if names.last() == name {
            names.len() - 1
        } else {
            -1
        }
    }
}

/// The views of a vector of strings.
pub open spec fn string_views(v: Seq<String>) -> Seq<Seq<char>> {
    Seq::new(v.len(), |i: int| v[i]@)
}

/// One view per string, the view of the string at the same position.
pub proof fn law_string_views(v: Seq<String>)
    ensures
        string_views(v).len() == v.len(),
        forall|i: int| 0 <= i < v.len() ==> #[trigger] string_views(v)[i] == v[i]@,
{
}

/// Every wanted name occurs among `names`.
pub open spec fn names_known(names: Seq<Seq<char>>, wanted: Seq<String>) -> bool {
    forall|k: int| 0 <= k < wanted.len() ==> index_of(names, #[trigger] wanted[k]@) >= 0
}

/// What `index_of` means: a found position holds the name and no earlier one
/// does; -1 means that no position holds it.
pub proof fn lemma_index_of(names: Seq<Seq<char>>, name: Seq<char>)
    ensures
        -1 <= index_of(names, name) < names.len(),
        index_of(names, name) >= 0 ==> names[index_of(names, name)] == name,
        index_of(names, name) >= 0 ==> forall|k: int|
            0 <= k < index_of(names, name) ==> names[k] != name,
        index_of(names, name) < 0 ==> forall|k: int| 0 <= k < names.len() ==> names[k] != name,
    decreases names.len(),
{
    if names.len() > 0 {
        let p = names.drop_last();
        lemma_index_of(p, name);
        assert forall|k: int| 0 <= k < p.len() implies names[k] == p[k] by {}
    }
}

/// Looking a name up in a prefix that already holds it gives what looking it
/// up in the whole sequence gives.
pub proof fn lemma_index_of_prefix(names: Seq<Seq<char>>, name: Seq<char>, n: int)
    requires
        0 <= n <= names.len(),
        index_of(names.take(n), name) >= 0,
    ensures
        index_of(names, name) == index_of(names.take(n), name),
    decreases names.len(),
{
    if n < names.len() {
        assert(names.drop_last().take(n) == names.take(n));
        lemma_index_of_prefix(names.drop_last(), name, n);
    } else {
        assert(names.take(n) == names);
    }
}

/// The position of the first of the first `n` names that equals `name`.
pub fn position_in_prefix(names: &Vec<String>, n: usize, name: &String) -> (r: Option<usize>)
    requires
        n <= names.len(),
    ensures
        match r {
            Some(j) => j as int == index_of(string_views(names@).take(n as int), name@),
            None => index_of(string_views(names@).take(n as int), name@) < 0,
        },
{
    let ghost all = string_views(names@);
    let mut i: usize = 0;
    while i < n
        invariant
            n <= names.len(),
            all == string_views(names@),
            i <= n,
            index_of(all.take(i as int), name@) < 0,
        decreases n - i,
    {
        assert(all.take(i as int + 1).drop_last() == all.take(i as int));
        if names[i] == *name {
            assert(all.take(i as int + 1).last() == name@);
            proof {
                lemma_index_of_prefix(all.take(n as int), name@, i as int + 1);
                assert(all.take(n as int).take(i as int + 1) == all.take(i as int + 1));
            }
            return Some(i);
        }
        i = i + 1;
    }
    None
}

/// The position of the first name in `names` that equals `name`.
pub fn position_of(names: &Vec<String>, name: &String) -> (r: Option<usize>)
    ensures
        match r {
            Some(j) => j as int == index_of(string_views(names@), name@),
            None => index_of(string_views(names@), name@) < 0,
        },
{
    let r = position_in_prefix(names, names.len(), name);
    assert(string_views(names@).take(names.len() as int) == string_views(names@));
    r
}

/// The position in `names` of every wanted name, or the first wanted name
/// that does not occur there.
pub fn resolve_names(names: &Vec<String>, wanted: &Vec<String>) -> (r: Result<Vec<usize>, usize>)
    ensures
        match r {
            Ok(idx) => {
                &&& names_known(string_views(names@), wanted@)
                &&& idx.len() == wanted.len()
                &&& forall|k: int|
                    0 <= k < wanted.len() ==> #[trigger] idx[k] as int == index_of(
                        string_views(names@),
                        wanted[k]@,
                    )
            },
            Err(k) => {
                &&& k < wanted.len()
                &&& index_of(string_views(names@), wanted[k as int]@) < 0
                &&& names_known(string_views(names@), wanted@.take(k as int))
            },
        },
{
    let ghost all = string_views(names@);
    let mut idx: Vec<usize> = Vec::new();
    let mut k: usize = 0;
    while k < wanted.len()
        invariant
            k <= wanted.len(),
            all == string_views(names@),
            idx.len() == k,
            names_known(all, wanted@.take(k as int)),
            forall|q: int| 0 <= q < k ==> #[trigger] idx[q] as int == index_of(all, wanted[q]@),
        decreases wanted.len() - k,
    {
        match position_of(names, &wanted[k]) {
            None => {
                return Err(k);
            },
            Some(j) => {
                idx.push(j);
                assert(names_known(all, wanted@.take(k as int + 1))) by {
                    assert forall|q: int| 0 <= q < k + 1 implies index_of(all, #[trigger] wanted@.take(k as int + 1)[q]@) >= 0 by {
                        if q < k {
                            assert(wanted@.take(k as int)[q] == wanted@[q]);
                        }
                    }
                }
                k = k + 1;
            },
        }
    }
    assert(wanted@.take(wanted.len() as int) == wanted@);
    Ok(idx)
}

} // verus!
