use vstd::prelude::*;
use crate::changes::{ChangeView, apply_change, change_key, changes_between, is_change_between, keys_distinct};
use crate::pattern::{InterestView, kind_matches};
use crate::watcher::{matching_events, restrict_to};

verus! {

/// The table `m` after each change of `s`, in order.
pub open spec fn apply_all(m: Map<Seq<char>, Seq<char>>, s: Seq<ChangeView>) -> Map<Seq<char>, Seq<char>>
    decreases s.len(),
{
    if s.len() == 0 {
        m
    } else {
        apply_change(apply_all(m, s.drop_last()), s.last())
    }
}

/// A subscription to one key sees exactly that key with its value, or
/// nothing where the table lacks it.
pub proof fn lemma_single_key_snapshot(t: Map<Seq<char>, Seq<char>>, k: Seq<char>)
    ensures
        t.contains_key(k) ==> restrict_to(t, InterestView::Keys(seq![k])) == map![k => t[k]],
        !t.contains_key(k) ==> restrict_to(t, InterestView::Keys(seq![k])) == Map::<Seq<char>, Seq<char>>::empty(),
{
    let kind = InterestView::Keys(seq![k]);
    assert forall|x: Seq<char>| kind_matches(kind, x) <==> x == k by {
        if x == k {
            assert(seq![k][0] == k);
        }
    }
    if t.contains_key(k) {
        assert(restrict_to(t, kind) =~= map![k => t[k]]);
    } else {
        assert(restrict_to(t, kind) =~= Map::<Seq<char>, Seq<char>>::empty());
    }
}

/// With changes about distinct keys, each key a change is about ends as
/// that change leaves it, and every other key as it was.
proof fn lemma_apply_distinct(m: Map<Seq<char>, Seq<char>>, s: Seq<ChangeView>)
    requires
        keys_distinct(s),
    ensures
        forall|i: int| 0 <= i < s.len() ==> match #[trigger] s[i] {
            ChangeView::Edit(k, v) => apply_all(m, s).contains_key(k) && apply_all(m, s)[k] == v,
            ChangeView::Delete(k) => !apply_all(m, s).contains_key(k),
        },
        forall|k: Seq<char>|
            (forall|i: int| 0 <= i < s.len() ==> change_key(#[trigger] s[i]) != k) ==> (
            #[trigger] apply_all(m, s).contains_key(k) == m.contains_key(k) && (m.contains_key(k)
                ==> apply_all(m, s)[k] == m[k])),
    decreases s.len(),
{
    if s.len() > 0 {
        let p = s.drop_last();
        assert(keys_distinct(p)) by {
            assert forall|i: int, j: int|
                0 <= i < p.len() && 0 <= j < p.len() && i != j implies change_key(p[i]) != change_key(
                    p[j],
                ) by {
                assert(p[i] == s[i] && p[j] == s[j]);
            }
        }
        lemma_apply_distinct(m, p);
        let last = s.last();
        let r = apply_all(m, s);
        assert(r == apply_change(apply_all(m, p), last));
        assert forall|i: int| 0 <= i < s.len() implies match #[trigger] s[i] {
            ChangeView::Edit(k, v) => r.contains_key(k) && r[k] == v,
            ChangeView::Delete(k) => !r.contains_key(k),
        } by {
            if i < s.len() - 1 {
                assert(p[i] == s[i]);
                assert(change_key(s[i]) != change_key(s[s.len() - 1]));
            }
        }
        assert forall|k: Seq<char>|
            (forall|i: int| 0 <= i < s.len() ==> change_key(#[trigger] s[i]) != k) implies (
            #[trigger] r.contains_key(k) == m.contains_key(k) && (m.contains_key(k) ==> r[k]
                == m[k])) by {
            assert(change_key(s[s.len() - 1]) != k);
            assert forall|i: int| 0 <= i < p.len() implies change_key(#[trigger] p[i]) != k by {
                assert(p[i] == s[i]);
            }
        }
    }
}

/// The changes that `matching_events` keeps are those of `s` about keys
/// the kind is interested in, still about distinct keys.
proof fn lemma_matching_events(s: Seq<ChangeView>, kind: InterestView)
    requires
        keys_distinct(s),
    ensures
        keys_distinct(matching_events(s, kind)),
        forall|c: ChangeView|
            #[trigger] matching_events(s, kind).contains(c) <==> (s.contains(c) && kind_matches(
                kind,
                change_key(c),
            )),
    decreases s.len(),
{
    if s.len() > 0 {
        let p = s.drop_last();
        assert(keys_distinct(p)) by {
            assert forall|i: int, j: int|
                0 <= i < p.len() && 0 <= j < p.len() && i != j implies change_key(p[i]) != change_key(
                    p[j],
                ) by {
                assert(p[i] == s[i] && p[j] == s[j]);
            }
        }
        lemma_matching_events(p, kind);
        let e = matching_events(s, kind);
        let ep = matching_events(p, kind);
        let last = s.last();
        assert forall|c: ChangeView| s.contains(c) <==> (p.contains(c) || c == last) by {
            if s.contains(c) {
                let i = choose|i: int| 0 <= i < s.len() && s[i] == c;
                if i < s.len() - 1 {
                    assert(p[i] == c);
                }
            }
            if p.contains(c) {
                let i = choose|i: int| 0 <= i < p.len() && p[i] == c;
                assert(s[i] == c);
            }
            if c == last {
                assert(s[s.len() - 1] == c);
            }
        }
        if kind_matches(kind, change_key(last)) {
            assert(e == ep.push(last));
            assert forall|c: ChangeView| #[trigger] e.contains(c) <==> (ep.contains(c) || c == last) by {
                if e.contains(c) {
                    let i = choose|i: int| 0 <= i < e.len() && e[i] == c;
                    if i < ep.len() {
                        assert(ep[i] == c);
                    }
                }
                if ep.contains(c) {
                    let i = choose|i: int| 0 <= i < ep.len() && ep[i] == c;
                    assert(e[i] == c);
                }
                if c == last {
                    assert(e[ep.len() as int] == c);
                }
            }
            assert forall|i: int, j: int|
                0 <= i < e.len() && 0 <= j < e.len() && i != j implies change_key(e[i]) != change_key(
                    e[j],
                ) by {
                if i < ep.len() && j < ep.len() {
                    assert(e[i] == ep[i] && e[j] == ep[j]);
                } else {
                    let x = if i < ep.len() { i } else { j };
                    assert(e[x] == ep[x]);
                    assert(ep.contains(ep[x]));
                    assert(p.contains(ep[x]));
                    let y = choose|y: int| 0 <= y < p.len() && p[y] == ep[x];
                    assert(s[y] == p[y]);
                    assert(change_key(s[y]) != change_key(s[s.len() - 1]));
                }
            }
        }
    }
}

/// A snapshot that starts as the part of table `a` its kind is interested
/// in, and folds in the changes from `a` to `b` about keys of that kind,
/// ends as the part of `b` it is interested in.
pub proof fn lemma_snapshot_converges(
    a: Map<Seq<char>, Seq<char>>,
    b: Map<Seq<char>, Seq<char>>,
    kind: InterestView,
    s: Seq<ChangeView>,
)
    requires
        s.to_set() == changes_between(a, b),
        keys_distinct(s),
    ensures
        apply_all(restrict_to(a, kind), matching_events(s, kind)) == restrict_to(b, kind),
{
    let e = matching_events(s, kind);
    let start = restrict_to(a, kind);
    let r = apply_all(start, e);
    lemma_matching_events(s, kind);
    lemma_apply_distinct(start, e);
    assert forall|c: ChangeView| #[trigger] e.contains(c) implies is_change_between(a, b, c)
        && kind_matches(kind, change_key(c)) by {
        assert(s.to_set().contains(c));
    }
    assert forall|k: Seq<char>| #[trigger] r.contains_key(k) == restrict_to(b, kind).contains_key(k)
        && (r.contains_key(k) ==> r[k] == restrict_to(b, kind)[k]) by {
        if exists|i: int| 0 <= i < e.len() && change_key(#[trigger] e[i]) == k {
            let i = choose|i: int| 0 <= i < e.len() && change_key(#[trigger] e[i]) == k;
            assert(e.contains(e[i]));
        } else {
            assert forall|i: int| 0 <= i < e.len() implies change_key(#[trigger] e[i]) != k by {}
            if kind_matches(kind, k) {
                if a.contains_key(k) && !b.contains_key(k) {
                    let c = ChangeView::Delete(k);
                    assert(is_change_between(a, b, c));
                    assert(s.to_set().contains(c));
                    assert(e.contains(c));
                    let i = choose|i: int| 0 <= i < e.len() && e[i] == c;
                    assert(change_key(e[i]) == k);
                } else if b.contains_key(k) && (!a.contains_key(k) || a[k] != b[k]) {
                    let c = ChangeView::Edit(k, b[k]);
                    assert(is_change_between(a, b, c));
                    assert(s.to_set().contains(c));
                    assert(e.contains(c));
                    let i = choose|i: int| 0 <= i < e.len() && e[i] == c;
                    assert(change_key(e[i]) == k);
                }
            }
        }
    }
    assert(r =~= restrict_to(b, kind));
}

} // verus!
