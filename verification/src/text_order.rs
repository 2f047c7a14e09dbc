//! Texts in code point order.
use vstd::prelude::*;

use crate::text;
use crate::text::is_text_below;

verus! {

broadcast use crate::text::lemma_views_push;

/// The first position from `i` on that does not hold a text below `key`.
pub open spec fn place(s: Seq<Seq<char>>, key: Seq<char>, i: int) -> int
    decreases s.len() - i,
{
    if i >= s.len() || !text::text_below(s[i], key) {
        i
    } else {
        place(s, key, i + 1)
    }
}

/// The texts with one more in its place.
pub open spec fn inserted(s: Seq<Seq<char>>, key: Seq<char>) -> Seq<Seq<char>> {
    s.insert(place(s, key, 0), key)
}

/// The texts in code point order.
pub open spec fn ordered(s: Seq<Seq<char>>) -> Seq<Seq<char>>
    decreases s.len(),
{
    if s.len() == 0 {
        Seq::empty()
    } else {
        inserted(ordered(s.drop_last()), s.last())
    }
}

/// No text comes before an earlier one.
pub open spec fn ascending(s: Seq<Seq<char>>) -> bool {
    forall|i: int, j: int|
        0 <= i < j < s.len() ==> !text::text_below(#[trigger] s[j], #[trigger] s[i])
}

proof fn lemma_code_point(c: char)
    ensures
        (c as u32) as int == c as int,
{
}

/// Code point order is total: of two different texts one is below the other, and
/// only one.
pub proof fn law_text_order(a: Seq<char>, b: Seq<char>)
    ensures
        text::text_below(a, b) ==> !text::text_below(b, a),
        a != b ==> text::text_below(a, b) || text::text_below(b, a),
        a == b ==> !text::text_below(a, b),
    decreases a.len(),
{
    if a.len() > 0 && b.len() > 0 && a[0] == b[0] {
        law_text_order(a.skip(1), b.skip(1));
        if a.skip(1) == b.skip(1) {
            assert(a =~= seq![a[0]] + a.skip(1));
            assert(b =~= seq![b[0]] + b.skip(1));
        }
    } else if a.len() == 0 && b.len() == 0 {
        assert(a =~= b);
    } else if a.len() > 0 && b.len() > 0 {
        lemma_code_point(a[0]);
        lemma_code_point(b[0]);
    }
}

/// Code point order is transitive.
pub proof fn law_text_order_transitive(a: Seq<char>, b: Seq<char>, c: Seq<char>)
    requires
        !text::text_below(b, a),
        !text::text_below(c, b),
    ensures
        !text::text_below(c, a),
    decreases a.len(),
{
    if a.len() > 0 && b.len() > 0 && c.len() > 0 {
        if a[0] == b[0] && b[0] == c[0] {
            law_text_order_transitive(a.skip(1), b.skip(1), c.skip(1));
        } else {
            lemma_code_point(a[0]);
            lemma_code_point(b[0]);
            lemma_code_point(c[0]);
        }
    }
}

proof fn lemma_place(s: Seq<Seq<char>>, key: Seq<char>, i: int)
    requires
        0 <= i <= s.len(),
    ensures
        i <= place(s, key, i) <= s.len(),
        forall|j: int| i <= j < place(s, key, i) ==> text::text_below(#[trigger] s[j], key),
        place(s, key, i) < s.len() ==> !text::text_below(s[place(s, key, i)], key),
    decreases s.len() - i,
{
    if i < s.len() && text::text_below(s[i], key) {
        lemma_place(s, key, i + 1);
    }
}

proof fn lemma_inserted(s: Seq<Seq<char>>, key: Seq<char>)
    requires
        ascending(s),
    ensures
        ascending(inserted(s, key)),
        inserted(s, key).len() == s.len() + 1,
        inserted(s, key).to_multiset() == s.to_multiset().insert(key),
{
    lemma_place(s, key, 0);
    let p = place(s, key, 0);
    let t = inserted(s, key);
    assert forall|i: int, j: int| 0 <= i < j < t.len() implies !text::text_below(
        #[trigger] t[j],
        #[trigger] t[i],
    ) by {
        let x = if i < p {
            i
        } else {
            i - 1
        };
        let y = if j < p {
            j
        } else {
            j - 1
        };
        if i == p {
            assert(t[j] == s[y]);
            assert(!text::text_below(s[p], key));
            if y > p {
                assert(!text::text_below(s[y], s[p]));
                law_text_order_transitive(key, s[p], s[y]);
            }
        } else if j == p {
            assert(t[i] == s[i]);
            assert(text::text_below(s[i], key));
            law_text_order(s[i], key);
        } else {
            assert(t[i] == s[x]);
            assert(t[j] == s[y]);
        }
    }
    assert(t.remove(p) =~= s);
    t.to_multiset_ensures();
    assert(t[p] == key);
    assert(t.contains(key));
    assert(t.to_multiset().remove(key) =~= s.to_multiset());
    assert(t.to_multiset() =~= s.to_multiset().insert(key));
}

/// Ordering texts puts no text before a smaller one, and loses and adds none.
pub proof fn law_ordered(s: Seq<Seq<char>>)
    ensures
        ascending(ordered(s)),
        ordered(s).len() == s.len(),
        ordered(s).to_multiset() == s.to_multiset(),
    decreases s.len(),
{
    if s.len() > 0 {
        law_ordered(s.drop_last());
        lemma_inserted(ordered(s.drop_last()), s.last());
        assert(s =~= s.drop_last().push(s.last()));
        s.drop_last().to_multiset_ensures();
    } else {
        assert(s =~= ordered(s));
    }
}

/// The ordered texts are the same texts, and where none stands twice, none does
/// then.
pub proof fn law_ordered_texts(s: Seq<Seq<char>>)
    ensures
        forall|t: Seq<char>| #[trigger] ordered(s).contains(t) <==> s.contains(t),
        s.no_duplicates() ==> ordered(s).no_duplicates(),
    decreases s.len(),
{
    if s.len() > 0 {
        let head = s.drop_last();
        let key = s.last();
        law_ordered_texts(head);
        let before = ordered(head);
        let now = ordered(s);
        lemma_place(before, key, 0);
        let p = place(before, key, 0);
        assert(now == before.insert(p, key));
        assert(s =~= head.push(key));
        assert forall|t: Seq<char>| #[trigger] now.contains(t) <==> s.contains(t) by {
            assert(before.contains(t) <==> head.contains(t));
            if now.contains(t) {
                let i = choose|i: int| 0 <= i < now.len() && now[i] == t;
                if i == p {
                    assert(s[s.len() - 1] == t);
                } else {
                    assert(before[if i < p {
                        i
                    } else {
                        i - 1
                    }] == t);
                    let k = choose|k: int| 0 <= k < head.len() && head[k] == t;
                    assert(s[k] == t);
                }
            }
            if s.contains(t) {
                let k = choose|k: int| 0 <= k < s.len() && s[k] == t;
                if k == s.len() - 1 {
                    assert(now[p] == t);
                } else {
                    assert(head[k] == t);
                    let i = choose|i: int| 0 <= i < before.len() && before[i] == t;
                    assert(now[if i < p {
                        i
                    } else {
                        i + 1
                    }] == t);
                }
            }
        }
        if s.no_duplicates() {
            assert(head.no_duplicates());
            assert(!head.contains(key)) by {
                if head.contains(key) {
                    let k = choose|k: int| 0 <= k < head.len() && head[k] == key;
                    assert(s[k] == s[s.len() - 1]);
                }
            }
            assert(!before.contains(key));
            assert forall|i: int, j: int| 0 <= i < now.len() && 0 <= j < now.len() && i != j implies now[i]
                != now[j] by {
                let x = if i < p {
                    i
                } else {
                    i - 1
                };
                let y = if j < p {
                    j
                } else {
                    j - 1
                };
                if i != p {
                    assert(before.contains(before[x]));
                }
                if j != p {
                    assert(before.contains(before[y]));
                }
            }
        }
    }
}

/// Puts texts in code point order.
pub fn sort_texts(v: &Vec<String>) -> (r: Vec<String>)
    ensures
        text::views(r@) == ordered(text::views(v@)),
{
    let ghost vv = text::views(v@);
    let mut out: Vec<String> = Vec::new();
    let mut i: usize = 0;
    proof {
        assert(vv.take(0) =~= Seq::empty());
        assert(text::views(out@) =~= Seq::empty());
    }
    while i < v.len()
        invariant
            i <= v@.len(),
            vv == text::views(v@),
            text::views(out@) == ordered(vv.take(i as int)),
        decreases v@.len() - i,
    {
        let ghost before = text::views(out@);
        let mut p: usize = 0;
        while p < out.len() && is_text_below(out[p].as_str(), v[i].as_str())
            invariant
                i < v@.len(),
                p <= out@.len(),
                before == text::views(out@),
                place(before, v@[i as int]@, 0) == place(before, v@[i as int]@, p as int),
            decreases out@.len() - p,
        {
            p = p + 1;
        }
        out.insert(p, v[i].clone());
        proof {
            assert(text::views(out@) =~= before.insert(p as int, v@[i as int]@));
            assert(vv.take(i + 1).drop_last() =~= vv.take(i as int));
            assert(vv.take(i + 1).last() == v@[i as int]@);
        }
        i = i + 1;
    }
    proof {
        assert(vv.take(vv.len() as int) =~= vv);
    }
    out
}

} // verus!
