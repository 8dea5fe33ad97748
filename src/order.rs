//! The order in which the entries of a directory are visited: by name,
//! lexicographically by character, equal names in listing order.
use vstd::prelude::*;

verus! {

broadcast use vstd::seq::group_seq_axioms;

/// `a` comes before `b` or equals it, character by character.
pub open spec fn lex_le(a: Seq<char>, b: Seq<char>) -> bool
    decreases a.len(),
{
    if a.len() == 0 {
        true
    } else if b.len() == 0 {
        false
    } else if a[0] != b[0] {
        (a[0] as u32) < (b[0] as u32)
    } else {
        lex_le(a.drop_first(), b.drop_first())
    }
}

/// Index `i` placed into the ordered indices `s`: after every index whose
/// name is not greater than its own.
pub open spec fn insert_index(names: Seq<Seq<char>>, s: Seq<int>, i: int) -> Seq<int>
    decreases s.len(),
{
    if s.len() == 0 {
        seq![i]
    } else if lex_le(names[s.last()], names[i]) {
        s.push(i)
    } else {
        insert_index(names, s.drop_last(), i).push(s.last())
    }
}

/// The indices `0..n` ordered by name; equal names keep their order.
pub open spec fn sorted_order(names: Seq<Seq<char>>, n: int) -> Seq<int>
    decreases n,
{
    if n <= 0 {
        Seq::empty()
    } else {
        insert_index(names, sorted_order(names, n - 1), n - 1)
    }
}

pub open spec fn names_view(v: Seq<Vec<char>>) -> Seq<Seq<char>> {
    v.map_values(|x: Vec<char>| x@)
}

pub open spec fn order_view(v: Seq<usize>) -> Seq<int> {
    v.map_values(|u: usize| u as int)
}

/// Whether `a` comes before `b` or equals it.
pub fn chars_le(a: &Vec<char>, b: &Vec<char>) -> (r: bool)
    ensures
        r == lex_le(a@, b@),
{
    let mut i: usize = 0;
    assert(a@.subrange(0, a@.len() as int) =~= a@);
    assert(b@.subrange(0, b@.len() as int) =~= b@);
    loop
        invariant
            i <= a@.len(),
            i <= b@.len(),
            lex_le(a@, b@) == lex_le(
                a@.subrange(i as int, a@.len() as int),
                b@.subrange(i as int, b@.len() as int),
            ),
        decreases a@.len() - i,
    {
        if i == a.len() {
            return true;
        }
        if i == b.len() {
            return false;
        }
        if a[i] != b[i] {
            return (a[i] as u32) < (b[i] as u32);
        }
        assert(a@.subrange(i as int, a@.len() as int).drop_first() =~= a@.subrange(
            i + 1,
            a@.len() as int,
        ));
        assert(b@.subrange(i as int, b@.len() as int).drop_first() =~= b@.subrange(
            i + 1,
            b@.len() as int,
        ));
        i = i + 1;
    }
}

/// Inserting at the first position from the end whose predecessor is not
/// greater is the ordered insertion.
proof fn lemma_insert_at(names: Seq<Seq<char>>, s: Seq<int>, i: int, p: int)
    requires
        0 <= p <= s.len(),
        forall|q: int| p <= q < s.len() ==> !lex_le(names[#[trigger] s[q]], names[i]),
        p > 0 ==> lex_le(names[s[p - 1]], names[i]),
    ensures
        insert_index(names, s, i) == s.subrange(0, p) + seq![i] + s.subrange(p, s.len() as int),
    decreases s.len(),
{
    if s.len() == 0 {
        assert(s.subrange(0, p) + seq![i] + s.subrange(p, s.len() as int) =~= seq![i]);
    } else if p == s.len() {
        assert(s.subrange(0, p) + seq![i] + s.subrange(p, s.len() as int) =~= s.push(i));
    } else {
        let t = s.drop_last();
        assert(!lex_le(names[s[s.len() - 1]], names[i]));
        assert forall|q: int| p <= q < t.len() implies !lex_le(names[#[trigger] t[q]], names[i]) by {
            assert(t[q] == s[q]);
        }
        if p > 0 {
            assert(t[p - 1] == s[p - 1]);
        }
        lemma_insert_at(names, t, i, p);
        assert(s.subrange(0, p) + seq![i] + s.subrange(p, s.len() as int) =~= (t.subrange(0, p)
            + seq![i] + t.subrange(p, t.len() as int)).push(s.last()));
    }
}

/// The indices of `names` ordered by name, equal names in their order.
pub fn sort_order(names: &Vec<Vec<char>>) -> (r: Vec<usize>)
    ensures
        order_view(r@) == sorted_order(names_view(names@), names@.len() as int),
        forall|q: int| 0 <= q < r@.len() ==> #[trigger] r@[q] < names@.len(),
{
    let ghost nv = names_view(names@);
    let mut order: Vec<usize> = Vec::new();
    let mut i: usize = 0;
    assert(order_view(order@) =~= sorted_order(nv, 0));
    while i < names.len()
        invariant
            i <= names@.len(),
            nv == names_view(names@),
            order_view(order@) == sorted_order(nv, i as int),
            forall|q: int| 0 <= q < order@.len() ==> #[trigger] order@[q] < i,
        decreases names@.len() - i,
    {
        let ghost s = order_view(order@);
        let mut p: usize = order.len();
        while p > 0 && !chars_le(&names[order[p - 1]], &names[i])
            invariant
                i < names@.len(),
                p <= order@.len(),
                nv == names_view(names@),
                s == order_view(order@),
                forall|q: int| 0 <= q < order@.len() ==> #[trigger] order@[q] < i,
                forall|q: int| p <= q < s.len() ==> !lex_le(nv[#[trigger] s[q]], nv[i as int]),
            decreases p,
        {
            p = p - 1;
        }
        proof {
            if p > 0 {
                assert(nv[s[p - 1]] == names@[order@[p - 1] as int]@);
            }
            lemma_insert_at(nv, s, i as int, p as int);
        }
        order.insert(p, i);
        assert(order_view(order@) =~= s.subrange(0, p as int) + seq![i as int] + s.subrange(
            p as int,
            s.len() as int,
        ));
        i = i + 1;
    }
    order
}

/// Ordered insertion keeps the indices already there and adds `i`.
proof fn lemma_insert_index_elems(names: Seq<Seq<char>>, s: Seq<int>, i: int)
    ensures
        insert_index(names, s, i).len() == s.len() + 1,
        forall|k: int|
            0 <= k < insert_index(names, s, i).len() ==> #[trigger] insert_index(names, s, i)[k]
                == i || s.contains(insert_index(names, s, i)[k]),
    decreases s.len(),
{
    if s.len() > 0 && !lex_le(names[s.last()], names[i]) {
        let t = s.drop_last();
        lemma_insert_index_elems(names, t, i);
        let r = insert_index(names, s, i);
        assert forall|k: int| 0 <= k < r.len() implies #[trigger] r[k] == i || s.contains(r[k]) by {
            if k < r.len() - 1 {
                if r[k] != i {
                    let m = choose|m: int| 0 <= m < t.len() && t[m] == r[k];
                    assert(s[m] == r[k]);
                }
            } else {
                assert(s[s.len() - 1] == r[k]);
            }
        }
    } else if s.len() > 0 {
        let r = insert_index(names, s, i);
        assert forall|k: int| 0 <= k < r.len() implies #[trigger] r[k] == i || s.contains(r[k]) by {
            if k < s.len() {
                assert(s[k] == r[k]);
            }
        }
    }
}

/// The ordered indices of `0..n` all lie in `0..n`.
pub proof fn lemma_sorted_order_range(names: Seq<Seq<char>>, n: int)
    ensures
        forall|k: int|
            0 <= k < sorted_order(names, n).len() ==> 0 <= #[trigger] sorted_order(names, n)[k] < n,
    decreases n,
{
    if n > 0 {
        lemma_sorted_order_range(names, n - 1);
        lemma_insert_index_elems(names, sorted_order(names, n - 1), n - 1);
    }
}

/// Ordered insertion reads the names of the indices involved only.
proof fn lemma_insert_index_agree(a: Seq<Seq<char>>, b: Seq<Seq<char>>, s: Seq<int>, i: int)
    requires
        a[i] == b[i],
        forall|k: int| 0 <= k < s.len() ==> a[#[trigger] s[k]] == b[s[k]],
    ensures
        insert_index(a, s, i) == insert_index(b, s, i),
    decreases s.len(),
{
    if s.len() > 0 {
        let t = s.drop_last();
        assert(a[s[s.len() - 1]] == b[s[s.len() - 1]]);
        assert forall|k: int| 0 <= k < t.len() implies a[#[trigger] t[k]] == b[t[k]] by {
            assert(t[k] == s[k]);
        }
        lemma_insert_index_agree(a, b, t, i);
    }
}

/// The order of `0..n` reads the first `n` names only.
pub proof fn lemma_sorted_order_agree(a: Seq<Seq<char>>, b: Seq<Seq<char>>, n: int)
    requires
        forall|k: int| 0 <= k < n ==> a[k] == b[k],
    ensures
        sorted_order(a, n) == sorted_order(b, n),
    decreases n,
{
    if n > 0 {
        lemma_sorted_order_agree(a, b, n - 1);
        lemma_sorted_order_range(a, n - 1);
        lemma_insert_index_agree(a, b, sorted_order(a, n - 1), n - 1);
    }
}

} // verus!
