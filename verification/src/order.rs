//! The order of `String` (lexicographic by character, which is the order of
//! their UTF-8 bytes) and a stable sort by it.
use vstd::prelude::*;

verus! {

/// `a` comes before `b` or equals it, comparing characters by code point and
/// a proper prefix before the longer text.
pub open spec fn lex_le(a: Seq<char>, b: Seq<char>) -> bool
    decreases a.len(),
{
    if a.len() == 0 {
        true
    } else if b.len() == 0 {
        false
    } else if (a[0] as u32) < (b[0] as u32) {
        true
    } else if (a[0] as u32) > (b[0] as u32) {
        false
    } else {
        lex_le(a.drop_first(), b.drop_first())
    }
}

/// `a` comes strictly before `b`.
pub open spec fn lex_lt(a: Seq<char>, b: Seq<char>) -> bool {
    lex_le(a, b) && a != b
}

proof fn lemma_same_char(x: char, y: char)
    requires
        x as u32 == y as u32,
    ensures
        x == y,
{
    vstd::utf8::char_u32_cast(x, x as u32);
    vstd::utf8::char_u32_cast(y, y as u32);
}

pub proof fn lemma_lex_total(a: Seq<char>, b: Seq<char>)
    ensures
        lex_le(a, b) || lex_le(b, a),
    decreases a.len(),
{
    if a.len() > 0 && b.len() > 0 && a[0] as u32 == b[0] as u32 {
        lemma_lex_total(a.drop_first(), b.drop_first());
    }
}

pub proof fn lemma_lex_antisymmetric(a: Seq<char>, b: Seq<char>)
    requires
        lex_le(a, b),
        lex_le(b, a),
    ensures
        a == b,
    decreases a.len(),
{
    if a.len() == 0 {
        assert(b.len() == 0);
        assert(a =~= b);
    } else {
        lemma_lex_antisymmetric(a.drop_first(), b.drop_first());
        lemma_same_char(a[0], b[0]);
        assert(a =~= seq![a[0]] + a.drop_first());
        assert(b =~= seq![b[0]] + b.drop_first());
    }
}

pub proof fn lemma_lex_transitive(a: Seq<char>, b: Seq<char>, c: Seq<char>)
    requires
        lex_le(a, b),
        lex_le(b, c),
    ensures
        lex_le(a, c),
    decreases a.len(),
{
    if a.len() > 0 && b.len() > 0 && c.len() > 0 && a[0] as u32 == b[0] as u32 && b[0] as u32
        == c[0] as u32 {
        lemma_lex_transitive(a.drop_first(), b.drop_first(), c.drop_first());
    }
}

pub proof fn lemma_lex_reflexive(a: Seq<char>)
    ensures
        lex_le(a, a),
    decreases a.len(),
{
    if a.len() > 0 {
        lemma_lex_reflexive(a.drop_first());
    }
}

/// `a` comes before `b` or equals it.
pub fn lex_le_exec(a: &Vec<char>, b: &Vec<char>) -> (r: bool)
    ensures
        r == lex_le(a@, b@),
{
    let mut i: usize = 0;
    assert(a@.skip(0) == a@);
    assert(b@.skip(0) == b@);
    while i < a.len() && i < b.len() && a[i] == b[i]
        invariant
            i <= a.len(),
            i <= b.len(),
            lex_le(a@, b@) == lex_le(a@.skip(i as int), b@.skip(i as int)),
        decreases a.len() - i,
    {
        assert(a@.skip(i as int).drop_first() == a@.skip(i + 1));
        assert(b@.skip(i as int).drop_first() == b@.skip(i + 1));
        assert(a@.skip(i as int)[0] == a@[i as int]);
        assert(b@.skip(i as int)[0] == b@[i as int]);
        i += 1;
    }
    if i == a.len() {
        true
    } else if i == b.len() {
        false
    } else {
        assert(a@.skip(i as int)[0] == a@[i as int]);
        assert(b@.skip(i as int)[0] == b@[i as int]);
        if a[i] != b[i] {
            if a[i] as u32 == b[i] as u32 {
                proof {
                    lemma_same_char(a@[i as int], b@[i as int]);
                }
            }
        }
        (a[i] as u32) < (b[i] as u32)
    }
}

/// `x` occurs in `order`.
pub open spec fn lists(order: Seq<usize>, x: int) -> bool {
    exists|a: int| 0 <= a < order.len() && #[trigger] order[a] == x
}

/// `order` lists each index of `keys` once and sorts them by key, keeping
/// indices of equal keys in increasing order.
pub open spec fn stable_sorted(keys: Seq<Seq<char>>, order: Seq<usize>) -> bool {
    &&& order.len() == keys.len()
    &&& forall|a: int| 0 <= a < order.len() ==> #[trigger] order[a] < keys.len()
    &&& forall|x: int| 0 <= x < keys.len() ==> #[trigger] lists(order, x)
    &&& forall|a: int, b: int| 0 <= a < b < order.len() ==> order[a] != order[b]
    &&& forall|a: int, b: int|
        0 <= a < b < order.len() ==> lex_le(keys[#[trigger] order[a] as int], keys[#[trigger] order[b] as int])
    &&& forall|a: int, b: int|
        0 <= a < b < order.len() && keys[#[trigger] order[a] as int] == keys[#[trigger] order[b] as int]
            ==> order[a] < order[b]
}

pub open spec fn keys_view(keys: Seq<Vec<char>>) -> Seq<Seq<char>> {
    keys.map_values(|k: Vec<char>| k@)
}

/// The indices of `keys` in the order of a stable sort by key.
pub fn sorted_order(keys: &Vec<Vec<char>>) -> (order: Vec<usize>)
    ensures
        stable_sorted(keys_view(keys@), order@),
{
    let ghost ks = keys_view(keys@);
    let n = keys.len();
    let mut order: Vec<usize> = Vec::new();
    let mut i: usize = 0;
    while i < n
        invariant
            n == keys.len(),
            ks == keys_view(keys@),
            i <= n,
            order.len() == i,
            forall|a: int| 0 <= a < order.len() ==> #[trigger] order@[a] < i,
            forall|x: int| 0 <= x < i ==> #[trigger] lists(order@, x),
            forall|a: int, b: int| 0 <= a < b < order.len() ==> order@[a] != order@[b],
            forall|a: int, b: int|
                0 <= a < b < order.len() ==> lex_le(
                    ks[#[trigger] order@[a] as int],
                    ks[#[trigger] order@[b] as int],
                ),
            forall|a: int, b: int|
                0 <= a < b < order.len() && ks[#[trigger] order@[a] as int] == ks[#[trigger] order@[b] as int]
                    ==> order@[a] < order@[b],
        decreases n - i,
    {
        assert(ks[i as int] == keys@[i as int]@);
        let mut p = order.len();
        while p > 0 && !lex_le_exec(&keys[order[p - 1]], &keys[i])
            invariant
                n == keys.len(),
                ks == keys_view(keys@),
                i < n,
                p <= order.len(),
                forall|a: int| 0 <= a < order.len() ==> #[trigger] order@[a] < i,
                forall|a: int| p <= a < order.len() ==> lex_lt(ks[i as int], ks[#[trigger] order@[a] as int]),
            decreases p,
        {
            proof {
                let x = ks[order@[p - 1] as int];
                assert(x == keys@[order@[p - 1] as int]@);
                lemma_lex_total(x, ks[i as int]);
                if x == ks[i as int] {
                    lemma_lex_reflexive(x);
                }
            }
            p -= 1;
        }
        proof {
            if p > 0 {
                assert(ks[order@[p - 1] as int] == keys@[order@[p - 1] as int]@);
            }
        }
        let ghost old_order = order@;
        order.insert(p, i);
        proof {
            let k = ks[i as int];
            assert(order@ == old_order.insert(p as int, i));
            assert forall|a: int| 0 <= a < order.len() implies #[trigger] order@[a] < i + 1 by {
                if a < p {
                    assert(order@[a] == old_order[a]);
                } else if a > p {
                    assert(order@[a] == old_order[a - 1]);
                }
            }
            assert forall|x: int| 0 <= x < i + 1 implies #[trigger] lists(order@, x) by {
                if x == i {
                    assert(order@[p as int] == x);
                } else {
                    assert(lists(old_order, x));
                    let a0 = choose|a: int| 0 <= a < old_order.len() && #[trigger] old_order[a] == x;
                    if a0 < p {
                        assert(order@[a0] == x);
                    } else {
                        assert(order@[a0 + 1] == x);
                    }
                }
            }
            assert forall|a: int, b: int| 0 <= a < b < order.len() implies order@[a] != order@[b] by {
                if a < p {
                    assert(order@[a] == old_order[a]);
                } else if a > p {
                    assert(order@[a] == old_order[a - 1]);
                }
                if b < p {
                    assert(order@[b] == old_order[b]);
                } else if b > p {
                    assert(order@[b] == old_order[b - 1]);
                }
            }
            assert forall|a: int, b: int| 0 <= a < b < order.len() implies lex_le(
                ks[#[trigger] order@[a] as int],
                ks[#[trigger] order@[b] as int],
            ) by {
                if a < p && b < p {
                    assert(order@[a] == old_order[a]);
                    assert(order@[b] == old_order[b]);
                } else if a < p && b == p {
                    assert(order@[a] == old_order[a]);
                    if a < p - 1 {
                        lemma_lex_transitive(
                            ks[old_order[a] as int],
                            ks[old_order[p - 1] as int],
                            k,
                        );
                    }
                } else if a < p && b > p {
                    assert(order@[a] == old_order[a]);
                    assert(order@[b] == old_order[b - 1]);
                } else if a == p {
                    assert(order@[b] == old_order[b - 1]);
                } else {
                    assert(order@[a] == old_order[a - 1]);
                    assert(order@[b] == old_order[b - 1]);
                }
            }
            assert forall|a: int, b: int|
                0 <= a < b < order.len() && ks[#[trigger] order@[a] as int] == ks[#[trigger] order@[b] as int]
                    implies order@[a] < order@[b] by {
                if a < p && b < p {
                    assert(order@[a] == old_order[a]);
                    assert(order@[b] == old_order[b]);
                } else if a < p && b == p {
                    assert(order@[a] == old_order[a]);
                } else if a < p && b > p {
                    assert(order@[a] == old_order[a]);
                    assert(order@[b] == old_order[b - 1]);
                } else if a == p {
                    assert(order@[b] == old_order[b - 1]);
                } else {
                    assert(order@[a] == old_order[a - 1]);
                    assert(order@[b] == old_order[b - 1]);
                }
            }
        }
        i += 1;
    }
    order
}

} // verus!
