use vstd::prelude::*;

use crate::tree::{Ty, Type};

verus! {

/// No two entries share a name.
pub open spec fn names_unique<V>(s: Seq<(String, V)>) -> bool {
    forall|i: int, j: int| 0 <= i < j < s.len() ==> (#[trigger] s[i]).0@ != (#[trigger] s[j]).0@
}

/// Some entry has name `k`.
pub open spec fn has_name<V>(s: Seq<(String, V)>, k: Seq<char>) -> bool {
    exists|i: int| 0 <= i < s.len() && (#[trigger] s[i]).0@ == k
}

/// The map from names to types that a list of entries stands for.
pub open spec fn types_view(s: Seq<(String, Type)>) -> Map<Seq<char>, Ty>
    decreases s.len(),
{
    if s.len() == 0 {
        Map::empty()
    } else {
        types_view(s.drop_last()).insert(s.last().0@, s.last().1@)
    }
}

/// The map from names to numbers that a list of entries stands for.
pub open spec fn counts_view(s: Seq<(String, usize)>) -> Map<Seq<char>, usize>
    decreases s.len(),
{
    if s.len() == 0 {
        Map::empty()
    } else {
        counts_view(s.drop_last()).insert(s.last().0@, s.last().1)
    }
}

pub proof fn lemma_types_view(s: Seq<(String, Type)>)
    requires
        names_unique(s),
    ensures
        forall|k: Seq<char>| types_view(s).contains_key(k) <==> has_name(s, k),
        forall|i: int| 0 <= i < s.len() ==> types_view(s).contains_key((#[trigger] s[i]).0@) && types_view(s)[s[i].0@] == s[i].1@,
    decreases s.len(),
{
    if s.len() > 0 {
        let r = s.drop_last();
        assert forall|i: int, j: int| 0 <= i < j < r.len() implies (#[trigger] r[i]).0@ != (#[trigger] r[j]).0@ by {
            assert(r[i] == s[i] && r[j] == s[j]);
        }
        lemma_types_view(r);
        assert forall|k: Seq<char>| types_view(s).contains_key(k) <==> has_name(s, k) by {
            if has_name(s, k) {
                let i = choose|i: int| 0 <= i < s.len() && (#[trigger] s[i]).0@ == k;
                if i < r.len() {
                    assert(r[i] == s[i]);
                    assert(has_name(r, k));
                }
            }
            if types_view(s).contains_key(k) {
                if k != s.last().0@ {
                    assert(types_view(r).contains_key(k));
                    assert(has_name(r, k));
                    let i = choose|i: int| 0 <= i < r.len() && (#[trigger] r[i]).0@ == k;
                    assert(r[i] == s[i]);
                } else {
                    assert(s[s.len() - 1].0@ == k);
                }
            }
        }
        assert forall|i: int| 0 <= i < s.len() implies types_view(s).contains_key((#[trigger] s[i]).0@) && types_view(s)[s[i].0@] == s[i].1@ by {
            if i < r.len() {
                assert(r[i] == s[i]);
                assert(s[i].0@ != s[s.len() - 1].0@);
            }
        }
    }
}

pub proof fn lemma_counts_view(s: Seq<(String, usize)>)
    requires
        names_unique(s),
    ensures
        forall|k: Seq<char>| counts_view(s).contains_key(k) <==> has_name(s, k),
        forall|i: int| 0 <= i < s.len() ==> counts_view(s).contains_key((#[trigger] s[i]).0@) && counts_view(s)[s[i].0@] == s[i].1,
    decreases s.len(),
{
    if s.len() > 0 {
        let r = s.drop_last();
        assert forall|i: int, j: int| 0 <= i < j < r.len() implies (#[trigger] r[i]).0@ != (#[trigger] r[j]).0@ by {
            assert(r[i] == s[i] && r[j] == s[j]);
        }
        lemma_counts_view(r);
        assert forall|k: Seq<char>| counts_view(s).contains_key(k) <==> has_name(s, k) by {
            if has_name(s, k) {
                let i = choose|i: int| 0 <= i < s.len() && (#[trigger] s[i]).0@ == k;
                if i < r.len() {
                    assert(r[i] == s[i]);
                    assert(has_name(r, k));
                }
            }
            if counts_view(s).contains_key(k) {
                if k != s.last().0@ {
                    assert(counts_view(r).contains_key(k));
                    assert(has_name(r, k));
                    let i = choose|i: int| 0 <= i < r.len() && (#[trigger] r[i]).0@ == k;
                    assert(r[i] == s[i]);
                } else {
                    assert(s[s.len() - 1].0@ == k);
                }
            }
        }
        assert forall|i: int| 0 <= i < s.len() implies counts_view(s).contains_key((#[trigger] s[i]).0@) && counts_view(s)[s[i].0@] == s[i].1 by {
            if i < r.len() {
                assert(r[i] == s[i]);
                assert(s[i].0@ != s[s.len() - 1].0@);
            }
        }
    }
}

/// The index of the entry named `k`, if there is one.
pub fn find_name<V>(s: &Vec<(String, V)>, k: &String) -> (r: Option<usize>)
    ensures
        match r {
            Some(i) => i < s.len() && s@[i as int].0@ == k@,
            None => !has_name(s@, k@),
        },
{
    let mut i: usize = 0;
    while i < s.len()
        invariant
            i <= s.len(),
            forall|j: int| 0 <= j < i ==> (#[trigger] s@[j]).0@ != k@,
        decreases s.len() - i,
    {
        if s[i].0 == *k {
            return Some(i);
        }
        i += 1;
    }
    None
}

/// Sets the type under name `k`, replacing any entry of that name.
pub fn set_type(s: &mut Vec<(String, Type)>, k: String, v: Type)
    requires
        names_unique(old(s)@),
    ensures
        names_unique(final(s)@),
        types_view(final(s)@) == types_view(old(s)@).insert(k@, v@),
{
    proof {
        lemma_types_view(s@);
    }
    match find_name(s, &k) {
        Some(i) => {
            let ghost kv = k@;
            let ghost vv = v@;
            s.set(i, (k, v));
            proof {
                assert forall|a: int, b: int| 0 <= a < b < s@.len() implies (#[trigger] s@[a]).0@ != (#[trigger] s@[b]).0@ by {
                    assert(a != i ==> s@[a] == old(s)@[a]);
                    assert(b != i ==> s@[b] == old(s)@[b]);
                }
                lemma_types_view(s@);
                assert forall|key: Seq<char>| #[trigger] types_view(s@).contains_key(key) <==> types_view(old(s)@).insert(kv, vv).contains_key(key) by {
                    if has_name(s@, key) {
                        let j = choose|j: int| 0 <= j < s@.len() && (#[trigger] s@[j]).0@ == key;
                        if j != i {
                            assert(s@[j] == old(s)@[j]);
                        }
                    }
                    if has_name(old(s)@, key) {
                        let j = choose|j: int| 0 <= j < old(s)@.len() && (#[trigger] old(s)@[j]).0@ == key;
                        if j != i {
                            assert(s@[j] == old(s)@[j]);
                        } else {
                            assert(s@[i as int].0@ == key);
                        }
                    }
                    if key == kv {
                        assert(s@[i as int].0@ == key);
                    }
                }
                assert forall|key: Seq<char>| #[trigger] types_view(s@).contains_key(key) implies types_view(s@)[key] == types_view(old(s)@).insert(kv, vv)[key] by {
                    assert(has_name(s@, key));
                    let j = choose|j: int| 0 <= j < s@.len() && (#[trigger] s@[j]).0@ == key;
                    if j != i {
                        assert(s@[j] == old(s)@[j]);
                    }
                }
                assert(types_view(s@) =~= types_view(old(s)@).insert(kv, vv));
            }
        },
        None => {
            s.push((k, v));
            proof {
                assert forall|a: int, b: int| 0 <= a < b < s@.len() implies (#[trigger] s@[a]).0@ != (#[trigger] s@[b]).0@ by {
                    assert(s@[a] == old(s)@[a]);
                    if b < old(s)@.len() {
                        assert(s@[b] == old(s)@[b]);
                    } else {
                        assert(!has_name(old(s)@, s@[b].0@));
                    }
                }
                assert(s@.drop_last() =~= old(s)@);
            }
        },
    }
}

/// Sets the number under name `k`, replacing any entry of that name.
pub fn set_count(s: &mut Vec<(String, usize)>, k: String, v: usize)
    requires
        names_unique(old(s)@),
    ensures
        names_unique(final(s)@),
        counts_view(final(s)@) == counts_view(old(s)@).insert(k@, v),
{
    proof {
        lemma_counts_view(s@);
    }
    match find_name(s, &k) {
        Some(i) => {
            let ghost kv = k@;
            s.set(i, (k, v));
            proof {
                assert forall|a: int, b: int| 0 <= a < b < s@.len() implies (#[trigger] s@[a]).0@ != (#[trigger] s@[b]).0@ by {
                    assert(a != i ==> s@[a] == old(s)@[a]);
                    assert(b != i ==> s@[b] == old(s)@[b]);
                }
                lemma_counts_view(s@);
                assert forall|key: Seq<char>| #[trigger] counts_view(s@).contains_key(key) <==> counts_view(old(s)@).insert(kv, v).contains_key(key) by {
                    if has_name(s@, key) {
                        let j = choose|j: int| 0 <= j < s@.len() && (#[trigger] s@[j]).0@ == key;
                        if j != i {
                            assert(s@[j] == old(s)@[j]);
                        }
                    }
                    if has_name(old(s)@, key) {
                        let j = choose|j: int| 0 <= j < old(s)@.len() && (#[trigger] old(s)@[j]).0@ == key;
                        if j != i {
                            assert(s@[j] == old(s)@[j]);
                        } else {
                            assert(s@[i as int].0@ == key);
                        }
                    }
                    if key == kv {
                        assert(s@[i as int].0@ == key);
                    }
                }
                assert forall|key: Seq<char>| #[trigger] counts_view(s@).contains_key(key) implies counts_view(s@)[key] == counts_view(old(s)@).insert(kv, v)[key] by {
                    assert(has_name(s@, key));
                    let j = choose|j: int| 0 <= j < s@.len() && (#[trigger] s@[j]).0@ == key;
                    if j != i {
                        assert(s@[j] == old(s)@[j]);
                    }
                }
                assert(counts_view(s@) =~= counts_view(old(s)@).insert(kv, v));
            }
        },
        None => {
            s.push((k, v));
            proof {
                assert forall|a: int, b: int| 0 <= a < b < s@.len() implies (#[trigger] s@[a]).0@ != (#[trigger] s@[b]).0@ by {
                    assert(s@[a] == old(s)@[a]);
                    if b < old(s)@.len() {
                        assert(s@[b] == old(s)@[b]);
                    } else {
                        assert(!has_name(old(s)@, s@[b].0@));
                    }
                }
                assert(s@.drop_last() =~= old(s)@);
            }
        },
    }
}

}
