//! Texts in their order, each of them once.

use vstd::prelude::*;
use crate::node::strings;
use crate::sort::{as_ints, in_order, lemma_covers_reaches, sort_places, views};
use crate::text::{compare_text, lemma_text_order, lemma_text_order_transitive, text_order, Order};

verus! {

/// Whether each text comes before those behind it.
pub open spec fn ascending(s: Seq<Seq<char>>) -> bool {
    forall|i: int, j: int|
        0 <= i < j < s.len() ==> text_order(#[trigger] s[i], #[trigger] s[j]) == Order::Less
}

/// Texts in order with one more put where it belongs, unless it is there.
pub open spec fn placed(s: Seq<Seq<char>>, t: Seq<char>) -> Seq<Seq<char>>
    decreases s.len(),
{
    if s.len() == 0 {
        seq![t]
    } else {
        match text_order(s.last(), t) {
            Order::Less => s.push(t),
            Order::Equal => s,
            Order::Greater => placed(s.drop_last(), t).push(s.last()),
        }
    }
}

/// The texts in their order, each of them once.
pub open spec fn all_placed(ts: Seq<Seq<char>>) -> Seq<Seq<char>>
    decreases ts.len(),
{
    if ts.len() == 0 {
        Seq::empty()
    } else {
        placed(all_placed(ts.drop_last()), ts.last())
    }
}

proof fn lemma_push_has(s: Seq<Seq<char>>, t: Seq<char>)
    ensures
        forall|x: Seq<char>| #[trigger] s.push(t).contains(x) <==> s.contains(x) || x == t,
{
    let w = s.push(t);
    assert(w[s.len() as int] == t);
    assert forall|x: Seq<char>| #[trigger] w.contains(x) <==> s.contains(x) || x == t by {
        if s.contains(x) {
            let i = choose|i: int| 0 <= i < s.len() && s[i] == x;
            assert(w[i] == x);
        }
        if w.contains(x) && x != t {
            let i = choose|i: int| 0 <= i < w.len() && w[i] == x;
            assert(s[i] == x);
        }
    }
}

proof fn lemma_placed(s: Seq<Seq<char>>, t: Seq<char>)
    requires
        ascending(s),
    ensures
        ascending(placed(s, t)),
        forall|x: Seq<char>| #[trigger] placed(s, t).contains(x) <==> s.contains(x) || x == t,
    decreases s.len(),
{
    let w = placed(s, t);
    if s.len() == 0 {
        assert(w =~= s.push(t));
        lemma_push_has(s, t);
    } else {
        let head = s.drop_last();
        lemma_text_order(s.last(), t);
        assert(s =~= head.push(s.last()));
        lemma_push_has(head, s.last());
        match text_order(s.last(), t) {
            Order::Less => {
                lemma_push_has(s, t);
                assert forall|i: int, j: int| 0 <= i < j < w.len() implies text_order(
                    #[trigger] w[i],
                    #[trigger] w[j],
                ) == Order::Less by {
                    if j == s.len() && i < s.len() - 1 {
                        lemma_text_order_transitive(s[i], s.last(), t);
                    }
                }
            },
            Order::Equal => {},
            Order::Greater => {
                lemma_placed(head, t);
                let front = placed(head, t);
                lemma_push_has(front, s.last());
                assert forall|i: int, j: int| 0 <= i < j < w.len() implies text_order(
                    #[trigger] w[i],
                    #[trigger] w[j],
                ) == Order::Less by {
                    if j == front.len() {
                        assert(front.contains(front[i]));
                        if front[i] != t {
                            assert(head.contains(front[i]));
                            let k = choose|k: int| 0 <= k < head.len() && head[k] == front[i];
                            assert(s[k] == front[i]);
                            assert(text_order(s[k], s[s.len() - 1]) == Order::Less);
                        }
                    }
                }
            },
        }
    }
}

/// The texts in their order are just the texts, in order.
pub proof fn lemma_all_placed(ts: Seq<Seq<char>>)
    ensures
        ascending(all_placed(ts)),
        forall|x: Seq<char>| #[trigger] all_placed(ts).contains(x) <==> ts.contains(x),
    decreases ts.len(),
{
    if ts.len() > 0 {
        let head = ts.drop_last();
        lemma_all_placed(head);
        lemma_placed(all_placed(head), ts.last());
        assert(ts =~= head.push(ts.last()));
        lemma_push_has(head, ts.last());
    }
}

/// There is one way only to put texts in their order.
pub proof fn lemma_one_order(a: Seq<Seq<char>>, b: Seq<Seq<char>>)
    requires
        ascending(a),
        ascending(b),
        forall|x: Seq<char>| #[trigger] a.contains(x) <==> b.contains(x),
    ensures
        a == b,
    decreases a.len(),
{
    if a.len() == 0 {
        if b.len() > 0 {
            assert(b.contains(b[0]));
            assert(a.contains(b[0]));
        }
        assert(a =~= b);
    } else {
        assert(a[a.len() - 1] == a.last());
        assert(a.contains(a.last()));
        assert(b.contains(a.last()));
        assert(b[b.len() - 1] == b.last());
        assert(b.contains(b.last()));
        assert(a.contains(b.last()));
        if a.last() != b.last() {
            let i = choose|i: int| 0 <= i < a.len() && a[i] == b.last();
            let j = choose|j: int| 0 <= j < b.len() && b[j] == a.last();
            assert(text_order(a[i], a[a.len() - 1]) == Order::Less);
            assert(text_order(b[j], b[b.len() - 1]) == Order::Less);
            lemma_text_order(a.last(), b.last());
        }
        let x = a.drop_last();
        let y = b.drop_last();
        assert forall|t: Seq<char>| #[trigger] x.contains(t) <==> y.contains(t) by {
            lemma_without_last(a, t);
            lemma_without_last(b, t);
        }
        lemma_one_order(x, y);
        assert(a =~= x.push(a.last()));
        assert(b =~= y.push(b.last()));
    }
}

proof fn lemma_without_last(s: Seq<Seq<char>>, t: Seq<char>)
    requires
        ascending(s),
        s.len() > 0,
    ensures
        s.drop_last().contains(t) <==> s.contains(t) && t != s.last(),
{
    let head = s.drop_last();
    if head.contains(t) {
        let i = choose|i: int| 0 <= i < head.len() && head[i] == t;
        assert(s[i] == t);
        assert(text_order(s[i], s[s.len() - 1]) == Order::Less);
        lemma_text_order(t, s.last());
    }
    if s.contains(t) && t != s.last() {
        let i = choose|i: int| 0 <= i < s.len() && s[i] == t;
        assert(head[i] == t);
    }
}

/// Puts texts in their order, each of them once.
pub fn put_in_order(v: &Vec<String>) -> (r: Vec<String>)
    ensures
        strings(r@) == all_placed(strings(v@)),
{
    let ghost ts = strings(v@);
    let places = sort_places(v, false);
    let ghost ps = as_ints(places@);
    assert(views(v@) =~= ts);
    let mut out: Vec<String> = Vec::new();
    let mut k: usize = 0;
    while k < places.len()
        invariant
            k <= places.len(),
            ps == as_ints(places@),
            ts == strings(v@),
            ts == views(v@),
            ps.len() == ts.len(),
            crate::sort::covers(ps, 0, ts.len() as int),
            crate::sort::stably_sorted(ts, false, ps),
            ascending(strings(out@)),
            k > 0 ==> out.len() > 0 && strings(out@).last() == ts[ps[k - 1]],
            k == 0 ==> out.len() == 0,
            forall|x: Seq<char>| #[trigger]
                strings(out@).contains(x) <==> exists|j: int| 0 <= j < k && ts[#[trigger] ps[j]] == x,
        decreases places.len() - k,
    {
        let ghost was = strings(out@);
        let at = places[k];
        assert(ps[k as int] == at);
        let fresh = if out.len() == 0 {
            true
        } else {
            compare_text(out[out.len() - 1].as_str(), v[at].as_str()) == Order::Less
        };
        proof {
            if k > 0 {
                assert(in_order(ts, false, ps[k - 1], ps[k as int]));
                lemma_text_order(was.last(), ts[at as int]);
            }
        }
        if fresh {
            out.push(v[at].clone());
            proof {
                assert(strings(out@) =~= was.push(ts[at as int]));
                lemma_push_has(was, ts[at as int]);
                let now = strings(out@);
                assert forall|i: int, j: int| 0 <= i < j < now.len() implies text_order(
                    #[trigger] now[i],
                    #[trigger] now[j],
                ) == Order::Less by {
                    if j == was.len() && i < was.len() - 1 {
                        lemma_text_order_transitive(was[i], was.last(), ts[at as int]);
                    }
                }
            }
        } else {
            assert(was.last() == ts[at as int]);
            assert(was[was.len() - 1] == ts[at as int]);
            assert(was.contains(ts[at as int]));
        }
        proof {
            let now = strings(out@);
            assert forall|x: Seq<char>| #[trigger] now.contains(x) <==> exists|j: int|
                0 <= j < k + 1 && ts[#[trigger] ps[j]] == x by {
                if was.contains(x) {
                    let j = choose|j: int| 0 <= j < k && ts[#[trigger] ps[j]] == x;
                    assert(ts[ps[j]] == x);
                }
                if now.contains(x) && !was.contains(x) {
                    assert(ts[ps[k as int]] == x);
                }
                if exists|j: int| 0 <= j < k + 1 && ts[#[trigger] ps[j]] == x {
                    let j = choose|j: int| 0 <= j < k + 1 && ts[#[trigger] ps[j]] == x;
                    if j < k {
                        assert(was.contains(x));
                    }
                }
            }
        }
        k = k + 1;
    }
    proof {
        let got = strings(out@);
        assert forall|x: Seq<char>| #[trigger] got.contains(x) <==> ts.contains(x) by {
            if got.contains(x) {
                let j = choose|j: int| 0 <= j < k && ts[#[trigger] ps[j]] == x;
                assert(ts[ps[j]] == x);
            }
            if ts.contains(x) {
                let i = choose|i: int| 0 <= i < ts.len() && ts[i] == x;
                lemma_covers_reaches(ps, ts.len() as int, i);
                let j = choose|j: int| 0 <= j < ps.len() && ps[j] == i;
                assert(ts[ps[j]] == x);
            }
        }
        lemma_all_placed(ts);
        assert forall|x: Seq<char>| #[trigger] got.contains(x) <==> all_placed(ts).contains(x) by {
            assert(got.contains(x) <==> ts.contains(x));
        }
        lemma_one_order(got, all_placed(ts));
    }
    out
}

} // verus!
