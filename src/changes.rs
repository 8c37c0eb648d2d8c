use vstd::prelude::*;
use crate::table::{EnvTable, altered_value, table_diff};

verus! {

/// A change of one key between two samples of the environment.
#[derive(Debug, Clone)]
pub enum ChangeState {
    /// The key was added, or its value changed: the key and its new value.
    Edit(String, String),
    /// The key was removed.
    Delete(String),
}

/// What a `ChangeState` says, over character sequences.
pub enum ChangeView {
    Edit(Seq<char>, Seq<char>),
    Delete(Seq<char>),
}

impl View for ChangeState {
    type V = ChangeView;

    open spec fn view(&self) -> ChangeView {
        match self {
            ChangeState::Edit(k, v) => ChangeView::Edit(k@, v@),
            ChangeState::Delete(k) => ChangeView::Delete(k@),
        }
    }
}

/// The key that a change is about.
pub open spec fn change_key(c: ChangeView) -> Seq<char> {
    match c {
        ChangeView::Edit(k, _) => k,
        ChangeView::Delete(k) => k,
    }
}

/// The table `m` after change `c`: an edit stores the value under its key,
/// a delete takes the key out (and leaves a table without it as it is).
pub open spec fn apply_change(m: Map<Seq<char>, Seq<char>>, c: ChangeView) -> Map<Seq<char>, Seq<char>> {
    match c {
        ChangeView::Edit(k, v) => m.insert(k, v),
        ChangeView::Delete(k) => m.remove(k),
    }
}

/// The changes as character sequences, in order.
pub open spec fn events_of(s: Seq<ChangeState>) -> Seq<ChangeView> {
    s.map_values(|c: ChangeState| c@)
}

/// No two changes of `s` are about the same key.
pub open spec fn keys_distinct(s: Seq<ChangeView>) -> bool {
    forall|i: int, j: int|
        0 <= i < s.len() && 0 <= j < s.len() && i != j ==> change_key(s[i]) != change_key(s[j])
}

/// `c` is one of the changes that lead from table `a` to table `b`: a key of
/// `a` that `b` lacks is deleted; a key of `b` that `a` lacks, or holds with
/// another value, is edited to its value in `b`.
pub open spec fn is_change_between(
    a: Map<Seq<char>, Seq<char>>,
    b: Map<Seq<char>, Seq<char>>,
    c: ChangeView,
) -> bool {
    match c {
        ChangeView::Delete(k) => a.contains_key(k) && !b.contains_key(k),
        ChangeView::Edit(k, v) => b.contains_key(k) && b[k] == v && (!a.contains_key(k) || a[k]
            != v),
    }
}

/// The set of changes that lead from table `a` to table `b`.
pub open spec fn changes_between(
    a: Map<Seq<char>, Seq<char>>,
    b: Map<Seq<char>, Seq<char>>,
) -> Set<ChangeView> {
    Set::new(|c: ChangeView| is_change_between(a, b, c))
}

/// A copy of a change.
pub fn copy_change(c: &ChangeState) -> (r: ChangeState)
    ensures
        r@ == c@,
{
    match c {
        ChangeState::Edit(k, v) => ChangeState::Edit(k.clone(), v.clone()),
        ChangeState::Delete(k) => ChangeState::Delete(k.clone()),
    }
}

/// No change leads from a table to itself.
pub proof fn lemma_no_changes_within(t: Map<Seq<char>, Seq<char>>)
    ensures
        changes_between(t, t) == Set::<ChangeView>::empty(),
{
    assert(changes_between(t, t) =~= Set::<ChangeView>::empty());
}

/// The changes that lead from table `a` to table `b`: each key that differs
/// between the two appears once, as `Delete` where `b` lacks it and as
/// `Edit` with its value in `b` otherwise.
pub fn compute_changes(a: &EnvTable, b: &EnvTable) -> (r: Vec<ChangeState>)
    requires
        a.wf(),
        b.wf(),
    ensures
        events_of(r@).to_set() == changes_between(a@, b@),
        keys_distinct(events_of(r@)),
        a@ == b@ ==> r@.len() == 0,
{
    let (removed, altered) = table_diff(a, b);
    let mut r: Vec<ChangeState> = Vec::new();
    let mut i: usize = 0;
    while i < removed.len()
        invariant
            i <= removed@.len(),
            r@.len() == i,
            forall|j: int| 0 <= j < i ==> (#[trigger] r@[j])@ == ChangeView::Delete(removed@[j]@),
        decreases removed@.len() - i,
    {
        r.push(ChangeState::Delete(removed[i].clone()));
        i = i + 1;
    }
    let n = removed.len();
    let mut i: usize = 0;
    while i < altered.len()
        invariant
            n == removed@.len(),
            i <= altered@.len(),
            r@.len() == n + i,
            forall|j: int| 0 <= j < n ==> (#[trigger] r@[j])@ == ChangeView::Delete(removed@[j]@),
            forall|j: int|
                0 <= j < i ==> (#[trigger] r@[n + j])@ == ChangeView::Edit(
                    altered@[j].0@,
                    altered_value(altered@[j].1),
                ),
        decreases altered@.len() - i,
    {
        let value = match &altered[i].1 {
            Some(v) => v.clone(),
            None => String::new(),
        };
        r.push(ChangeState::Edit(altered[i].0.clone(), value));
        i = i + 1;
    }
    proof {
        let ev = events_of(r@);
        assert forall|j: int| 0 <= j < ev.len() implies is_change_between(a@, b@, #[trigger] ev[j])
            && (j < n ==> ev[j] == ChangeView::Delete(removed@[j]@))
            && (j >= n ==> ev[j] == ChangeView::Edit(
                altered@[j - n].0@,
                altered_value(altered@[j - n].1),
            )) by {
            if j >= n {
                assert(r@[n + (j - n)] == r@[j]);
            }
        }
        assert forall|c: ChangeView| #[trigger]
            changes_between(a@, b@).contains(c) implies ev.to_set().contains(c) by {
            match c {
                ChangeView::Delete(k) => {
                    let i = choose|i: int| 0 <= i < removed@.len() && (#[trigger] removed@[i])@ == k;
                    assert(ev[i] == c);
                },
                ChangeView::Edit(k, v) => {
                    let i = choose|i: int| 0 <= i < altered@.len() && (#[trigger] altered@[i]).0@ == k;
                    assert(ev[n + i] == c);
                },
            }
        }
        assert(ev.to_set() =~= changes_between(a@, b@));
        assert forall|x: int, y: int|
            0 <= x < ev.len() && 0 <= y < ev.len() && x != y implies change_key(ev[x]) != change_key(
                ev[y],
            ) by {
            if x < n && y < n {
                if x < y {
                    assert(removed@[x]@ != removed@[y]@);
                } else {
                    assert(removed@[y]@ != removed@[x]@);
                }
            } else if x >= n && y >= n {
                if x < y {
                    assert(altered@[x - n].0@ != altered@[y - n].0@);
                } else {
                    assert(altered@[y - n].0@ != altered@[x - n].0@);
                }
            }
        }
        if a@ == b@ {
            lemma_no_changes_within(a@);
            if r@.len() > 0 {
                assert(ev.to_set().contains(ev[0]));
            }
        }
    }
    r
}

} // verus!
