//! Runs of operations on the head word and on the slots, and the laws that
//! hold of every such run.
use vstd::prelude::*;

use vstd::arithmetic::div_mod::lemma_fundamental_div_mod_converse;
use vstd::multiset::Multiset;
use vstd::set_lib::{lemma_int_range, lemma_len_subset, set_int_range};

use crate::array::{popped_word, pushed_word};
use crate::codec::{index_of, packed, tag_of, FIELD_RANGE};

verus! {

/// One change of the freelist head word: a removal whose new first index is
/// the given link, or the return of the given index to the front.
pub enum HeadStep {
    Pop(usize),
    Push(usize),
}

/// The head word after one step.
pub open spec fn apply_head_step(w: u64, step: HeadStep) -> u64 {
    match step {
        HeadStep::Pop(link) => popped_word(w, link as int),
        HeadStep::Push(index) => pushed_word(w, index as int),
    }
}

/// The head word after a run of steps, first step first.
pub open spec fn run_head(w: u64, steps: Seq<HeadStep>) -> u64
    decreases steps.len(),
{
    if steps.len() == 0 {
        w
    } else {
        apply_head_step(run_head(w, steps.drop_last()), steps.last())
    }
}

/// Number of removals in a run.
pub open spec fn pop_count(steps: Seq<HeadStep>) -> nat
    decreases steps.len(),
{
    if steps.len() == 0 {
        0
    } else {
        pop_count(steps.drop_last()) + if steps.last() is Pop {
            1nat
        } else {
            0nat
        }
    }
}

/// Every index and link of the run fits the index field of a word.
pub open spec fn head_steps_fit(steps: Seq<HeadStep>) -> bool {
    forall|k: int|
        0 <= k < steps.len() ==> match #[trigger] steps[k] {
            HeadStep::Pop(link) => link < FIELD_RANGE,
            HeadStep::Push(index) => index < FIELD_RANGE,
        }
}

/// A packed word fits 64 bits and unpacks to its index and reduced tag.
pub proof fn lemma_packed_fields(index: int, tag: int)
    requires
        0 <= index < FIELD_RANGE,
        0 <= tag,
    ensures
        0 <= packed(index, tag) <= u64::MAX,
        index_of(packed(index, tag) as u64) == index,
        tag_of(packed(index, tag) as u64) == tag % (FIELD_RANGE as int),
{
    let r = FIELD_RANGE as int;
    let t = tag % r;
    assert(0 <= t < r);
    assert(0 <= t * r <= (r - 1) * r) by (nonlinear_arith)
        requires
            0 <= t < r,
    ;
    lemma_fundamental_div_mod_converse(packed(index, tag), r, t, index);
}

/// The version of the head word after a run is the starting version advanced
/// by the number of removals, modulo the field range.
pub proof fn lemma_tag_after_run(w: u64, steps: Seq<HeadStep>)
    requires
        head_steps_fit(steps),
    ensures
        tag_of(run_head(w, steps)) == (tag_of(w) + pop_count(steps)) % (FIELD_RANGE as int),
    decreases steps.len(),
{
    let r = FIELD_RANGE as int;
    assert(0 <= tag_of(w) < r) by {
        assert((w as int) / r < r) by (nonlinear_arith)
            requires
                r == 0x1_0000_0000,
        ;
    }
    if steps.len() == 0 {
        vstd::arithmetic::div_mod::lemma_small_mod(tag_of(w) as nat, r as nat);
    } else {
        let prefix = steps.drop_last();
        assert forall|k: int| 0 <= k < prefix.len() implies match #[trigger] prefix[k] {
            HeadStep::Pop(link) => link < FIELD_RANGE,
            HeadStep::Push(index) => index < FIELD_RANGE,
        } by {
            assert(prefix[k] == steps[k]);
        }
        lemma_tag_after_run(w, prefix);
        let before = run_head(w, prefix);
        let last = steps.last();
        assert(steps[steps.len() - 1] == last);
        let p = pop_count(prefix) as int;
        match last {
            HeadStep::Pop(link) => {
                lemma_packed_fields(link as int, tag_of(before) + 1);
                vstd::arithmetic::div_mod::lemma_add_mod_noop(tag_of(w) + p, 1, r);
                vstd::arithmetic::div_mod::lemma_small_mod(1, r as nat);
                vstd::arithmetic::div_mod::lemma_mod_twice(tag_of(w) + p, r);
            },
            HeadStep::Push(index) => {
                lemma_packed_fields(index as int, tag_of(before));
                vstd::arithmetic::div_mod::lemma_mod_twice(tag_of(w) + p, r);
            },
        }
    }
}

/// A head word observed before a run that removed at least one index, and
/// fewer than the field range, differs from the head word after it, whatever
/// index the head names again: a compare-and-swap that expects the observed
/// word fails.
pub proof fn lemma_stale_head_word_differs(w: u64, steps: Seq<HeadStep>)
    requires
        head_steps_fit(steps),
        0 < pop_count(steps) < FIELD_RANGE,
    ensures
        run_head(w, steps) != w,
        tag_of(run_head(w, steps)) != tag_of(w),
{
    let r = FIELD_RANGE as int;
    lemma_tag_after_run(w, steps);
    let t = tag_of(w);
    let p = pop_count(steps) as int;
    assert(0 <= t < r) by {
        assert((w as int) / r < r) by (nonlinear_arith)
            requires
                r == 0x1_0000_0000,
        ;
    }
    if t + p < r {
        vstd::arithmetic::div_mod::lemma_small_mod((t + p) as nat, r as nat);
    } else {
        vstd::arithmetic::div_mod::lemma_fundamental_div_mod_converse(t + p, r, 1, t + p - r);
    }
}

/// One completed operation on the slots: an insert that stored a value at an
/// index, or a take of an index.
pub enum SlotStep<T> {
    Insert(usize, T),
    Take(usize),
}

/// The slots after one step.
pub open spec fn apply_slot_step<T>(s: Seq<Option<T>>, step: SlotStep<T>) -> Seq<Option<T>> {
    match step {
        SlotStep::Insert(i, v) => if i < s.len() {
            s.update(i as int, Some(v))
        } else {
            s
        },
        SlotStep::Take(i) => if i < s.len() {
            s.update(i as int, None)
        } else {
            s
        },
    }
}

/// What a take of index `i` hands back from slots `s`.
pub open spec fn take_result<T>(s: Seq<Option<T>>, i: usize) -> Option<T> {
    if i < s.len() {
        s[i as int]
    } else {
        None
    }
}

/// An insert claims only an empty slot in range; a take is always allowed.
pub open spec fn slot_step_allowed<T>(s: Seq<Option<T>>, step: SlotStep<T>) -> bool {
    match step {
        SlotStep::Insert(i, _) => i < s.len() && s[i as int] is None,
        SlotStep::Take(_) => true,
    }
}

/// The step takes from index `i`.
pub open spec fn takes_index<T>(step: SlotStep<T>, i: usize) -> bool {
    match step {
        SlotStep::Take(j) => j == i,
        SlotStep::Insert(_, _) => false,
    }
}

/// The step inserts at index `i`.
pub open spec fn inserts_at<T>(step: SlotStep<T>, i: usize) -> bool {
    match step {
        SlotStep::Insert(j, _) => j == i,
        SlotStep::Take(_) => false,
    }
}

/// The slots after a run of steps, first step first.
pub open spec fn run_slots<T>(s: Seq<Option<T>>, steps: Seq<SlotStep<T>>) -> Seq<Option<T>>
    decreases steps.len(),
{
    if steps.len() == 0 {
        s
    } else {
        apply_slot_step(run_slots(s, steps.drop_last()), steps.last())
    }
}

/// Every step of the run is allowed in the slots that it meets.
pub open spec fn valid_run<T>(s: Seq<Option<T>>, steps: Seq<SlotStep<T>>) -> bool
    decreases steps.len(),
{
    steps.len() == 0 || (valid_run(s, steps.drop_last()) && slot_step_allowed(
        run_slots(s, steps.drop_last()),
        steps.last(),
    ))
}

proof fn lemma_run_len<T>(s: Seq<Option<T>>, steps: Seq<SlotStep<T>>)
    ensures
        run_slots(s, steps).len() == s.len(),
    decreases steps.len(),
{
    if steps.len() > 0 {
        lemma_run_len(s, steps.drop_last());
    }
}

proof fn lemma_run_prefix<T>(s: Seq<Option<T>>, steps: Seq<SlotStep<T>>, k: int)
    requires
        valid_run(s, steps),
        0 <= k < steps.len(),
    ensures
        run_slots(s, steps.take(k + 1)) == apply_slot_step(run_slots(s, steps.take(k)), steps[k]),
        slot_step_allowed(run_slots(s, steps.take(k)), steps[k]),
    decreases steps.len(),
{
    assert(steps.take(k + 1).drop_last() =~= steps.take(k));
    if k == steps.len() - 1 {
        assert(steps.take(k) =~= steps.drop_last());
    } else {
        let prefix = steps.drop_last();
        lemma_run_prefix(s, prefix, k);
        assert(prefix.take(k) =~= steps.take(k));
        assert(prefix[k] == steps[k]);
    }
}

proof fn lemma_value_persists<T>(
    s: Seq<Option<T>>,
    steps: Seq<SlotStep<T>>,
    i: usize,
    v: T,
    a: int,
    b: int,
)
    requires
        valid_run(s, steps),
        0 <= a <= b <= steps.len(),
        i < s.len(),
        run_slots(s, steps.take(a))[i as int] == Some(v),
        forall|k: int| a <= k < b ==> !takes_index(#[trigger] steps[k], i),
    ensures
        run_slots(s, steps.take(b))[i as int] == Some(v),
    decreases b - a,
{
    if a < b {
        lemma_run_prefix(s, steps, a);
        lemma_run_len(s, steps.take(a));
        assert(!takes_index(steps[a], i));
        lemma_value_persists(s, steps, i, v, a + 1, b);
    }
}

/// A value stored at index `i` stays there through any run that takes
/// nothing from `i`: the next take of `i` hands back exactly that value, and
/// a take of `i` after that one hands back nothing.
pub proof fn lemma_take_returns_inserted<T>(
    s: Seq<Option<T>>,
    i: usize,
    v: T,
    steps: Seq<SlotStep<T>>,
)
    requires
        i < s.len(),
        s[i as int] is None,
        valid_run(s.update(i as int, Some(v)), steps),
        forall|k: int| 0 <= k < steps.len() ==> !takes_index(#[trigger] steps[k], i),
    ensures
        take_result(run_slots(s.update(i as int, Some(v)), steps), i) == Some(v),
        take_result(
            apply_slot_step(run_slots(s.update(i as int, Some(v)), steps), SlotStep::Take(i)),
            i,
        ) is None,
{
    let s1 = s.update(i as int, Some(v));
    assert(steps.take(0).len() == 0);
    assert(steps.take(steps.len() as int) =~= steps);
    lemma_value_persists(s1, steps, i, v, 0, steps.len() as int);
    lemma_run_len(s1, steps);
}

/// Two inserts of one run that claim the same index have a take of that
/// index between them: no index is handed out twice while its value is live.
pub proof fn lemma_live_index_unique<T>(
    s: Seq<Option<T>>,
    steps: Seq<SlotStep<T>>,
    p: int,
    q: int,
    i: usize,
)
    requires
        valid_run(s, steps),
        0 <= p < q < steps.len(),
        inserts_at(steps[p], i),
        inserts_at(steps[q], i),
    ensures
        exists|k: int| p < k < q && takes_index(#[trigger] steps[k], i),
{
    if !exists|k: int| p < k < q && takes_index(#[trigger] steps[k], i) {
        lemma_run_prefix(s, steps, p);
        lemma_run_len(s, steps.take(p));
        let v = match steps[p] {
            SlotStep::Insert(_, v) => v,
            SlotStep::Take(_) => arbitrary(),
        };
        lemma_value_persists(s, steps, i, v, p + 1, q);
        lemma_run_prefix(s, steps, q);
    }
}

/// `n` empty slots.
pub open spec fn empty_slots<T>(n: nat) -> Seq<Option<T>> {
    Seq::new(n, |i: int| None::<T>)
}

/// Starting from `n` empty slots, `n` inserts with no take among them fill
/// every slot, so that a further insert finds none empty.
pub proof fn lemma_capacity_inserts_fill<T>(n: nat, steps: Seq<SlotStep<T>>)
    requires
        valid_run(empty_slots::<T>(n), steps),
        steps.len() == n,
        forall|k: int| 0 <= k < steps.len() ==> #[trigger] steps[k] is Insert,
    ensures
        forall|i: int| 0 <= i < n ==> #[trigger] run_slots(empty_slots::<T>(n), steps)[i] is Some,
{
    let s = empty_slots::<T>(n);
    let idx = Seq::new(
        n,
        |k: int|
            match steps[k] {
                SlotStep::Insert(j, _) => j as int,
                SlotStep::Take(j) => j as int,
            },
    );
    assert forall|k: int| 0 <= k < n implies 0 <= #[trigger] idx[k] < n && inserts_at(
        steps[k],
        idx[k] as usize,
    ) by {
        lemma_run_prefix(s, steps, k);
        lemma_run_len(s, steps.take(k));
    }
    assert forall|a: int, b: int| 0 <= a < b < n implies idx[a] != idx[b] by {
        if idx[a] == idx[b] {
            lemma_live_index_unique(s, steps, a, b, idx[a] as usize);
            let k = choose|k: int| a < k < b && takes_index(#[trigger] steps[k], idx[a] as usize);
            assert(steps[k] is Insert);
        }
    }
    idx.unique_seq_to_set();
    lemma_int_range(0, n as int);
    assert forall|i: int| 0 <= i < n implies #[trigger] run_slots(s, steps)[i] is Some by {
        if !idx.to_set().contains(i) {
            let rest = set_int_range(0, n as int).remove(i);
            assert(idx.to_set().subset_of(rest));
            lemma_len_subset(idx.to_set(), rest);
        }
        let k = choose|k: int| 0 <= k < n && idx[k] == i;
        lemma_run_prefix(s, steps, k);
        lemma_run_len(s, steps.take(k));
        let v = match steps[k] {
            SlotStep::Insert(_, v) => v,
            SlotStep::Take(_) => arbitrary(),
        };
        assert forall|m: int| k + 1 <= m < n implies !takes_index(#[trigger] steps[m], i as usize) by {
            assert(steps[m] is Insert);
        }
        lemma_value_persists(s, steps, i as usize, v, k + 1, n as int);
        assert(steps.take(n as int) =~= steps);
    }
}

/// The value a slot holds, as a multiset of zero or one element.
pub open spec fn held<T>(o: Option<T>) -> Multiset<T> {
    match o {
        Some(v) => Multiset::singleton(v),
        None => Multiset::empty(),
    }
}

/// The values held by the slots, with multiplicity.
pub open spec fn contents<T>(s: Seq<Option<T>>) -> Multiset<T>
    decreases s.len(),
{
    if s.len() == 0 {
        Multiset::empty()
    } else {
        contents(s.drop_last()).add(held(s.last()))
    }
}

/// The values that the inserts of a run stored.
pub open spec fn stored<T>(steps: Seq<SlotStep<T>>) -> Multiset<T>
    decreases steps.len(),
{
    if steps.len() == 0 {
        Multiset::empty()
    } else {
        stored(steps.drop_last()).add(
            match steps.last() {
                SlotStep::Insert(_, v) => Multiset::singleton(v),
                SlotStep::Take(_) => Multiset::empty(),
            },
        )
    }
}

/// The values that the takes of a run handed back.
pub open spec fn handed_out<T>(s: Seq<Option<T>>, steps: Seq<SlotStep<T>>) -> Multiset<T>
    decreases steps.len(),
{
    if steps.len() == 0 {
        Multiset::empty()
    } else {
        handed_out(s, steps.drop_last()).add(
            match steps.last() {
                SlotStep::Take(i) => held(take_result(run_slots(s, steps.drop_last()), i)),
                SlotStep::Insert(_, _) => Multiset::empty(),
            },
        )
    }
}

proof fn lemma_contents_update<T>(s: Seq<Option<T>>, i: int, x: Option<T>)
    requires
        0 <= i < s.len(),
    ensures
        contents(s.update(i, x)).add(held(s[i])) == contents(s).add(held(x)),
    decreases s.len(),
{
    broadcast use vstd::multiset::group_multiset_axioms;

    let u = s.update(i, x);
    assert(contents(u) == contents(u.drop_last()).add(held(u.last())));
    assert(contents(s) == contents(s.drop_last()).add(held(s.last())));
    if i == s.len() - 1 {
        assert(u.drop_last() =~= s.drop_last());
        assert(u.last() == x);
        assert(s.last() == s[i]);
        assert(contents(u).add(held(s[i])) =~= contents(s).add(held(x)));
    } else {
        let p = s.drop_last();
        assert(u.drop_last() =~= p.update(i, x));
        assert(p[i] == s[i]);
        assert(u.last() == s.last());
        lemma_contents_update(p, i, x);
        let a = contents(p.update(i, x));
        let l = held(s.last());
        assert(a.add(held(s[i])) == contents(p).add(held(x)));
        assert(contents(u) == a.add(l));
        assert forall|v: T| #[trigger] contents(u).add(held(s[i])).count(v) == contents(s).add(
            held(x),
        ).count(v) by {
            assert(a.add(held(s[i])).count(v) == contents(p).add(held(x)).count(v));
        }
        assert(contents(u).add(held(s[i])) =~= contents(s).add(held(x)));
    }
}

/// No value is lost or duplicated: over any valid run, what the slots held
/// at the start together with what the inserts stored equals what they hold
/// at the end together with what the takes handed back.
pub proof fn lemma_values_conserved<T>(s: Seq<Option<T>>, steps: Seq<SlotStep<T>>)
    requires
        valid_run(s, steps),
    ensures
        contents(s).add(stored(steps)) == contents(run_slots(s, steps)).add(handed_out(s, steps)),
    decreases steps.len(),
{
    broadcast use vstd::multiset::group_multiset_axioms;

    if steps.len() > 0 {
        let prefix = steps.drop_last();
        lemma_values_conserved(s, prefix);
        let before = run_slots(s, prefix);
        lemma_run_len(s, prefix);
        match steps.last() {
            SlotStep::Insert(i, v) => {
                let after = Some(v);
                lemma_contents_update(before, i as int, Some(v));
                assert(before[i as int] is None);
                assert(run_slots(s, steps) == before.update(i as int, Some(v)));
                assert(stored(steps) == stored(prefix).add(Multiset::singleton(v)));
                assert(handed_out(s, steps) == handed_out(s, prefix).add(Multiset::empty()));
                assert forall|w: T| #[trigger] contents(s).add(stored(steps)).count(w) == contents(
                    run_slots(s, steps),
                ).add(handed_out(s, steps)).count(w) by {
                    assert(contents(s).add(stored(prefix)).count(w) == contents(before).add(
                        handed_out(s, prefix),
                    ).count(w));
                    assert(contents(run_slots(s, steps)).add(held(before[i as int])).count(w)
                        == contents(before).add(held(after)).count(w));
                }
                assert(contents(s).add(stored(steps)) =~= contents(run_slots(s, steps)).add(
                    handed_out(s, steps),
                ));
            },
            SlotStep::Take(i) => {
                let after = None::<T>;
                if i < before.len() {
                    lemma_contents_update(before, i as int, None);
                    assert(run_slots(s, steps) == before.update(i as int, None));
                } else {
                    assert(run_slots(s, steps) == before);
                }
                assert(stored(steps) == stored(prefix).add(Multiset::empty()));
                assert(handed_out(s, steps) == handed_out(s, prefix).add(
                    held(take_result(before, i)),
                ));
                assert forall|w: T| #[trigger] contents(s).add(stored(steps)).count(w) == contents(
                    run_slots(s, steps),
                ).add(handed_out(s, steps)).count(w) by {
                    assert(contents(s).add(stored(prefix)).count(w) == contents(before).add(
                        handed_out(s, prefix),
                    ).count(w));
                    if i < before.len() {
                        assert(contents(run_slots(s, steps)).add(held(before[i as int])).count(w)
                            == contents(before).add(held(after)).count(w));
                    }
                }
                assert(contents(s).add(stored(steps)) =~= contents(run_slots(s, steps)).add(
                    handed_out(s, steps),
                ));
            },
        }
    }
}

/// Starting from empty slots and ending with every slot drained, the takes of
/// a valid run handed back exactly the values that its inserts stored, each
/// as many times as it was stored.
pub proof fn lemma_drained_run_hands_back_all<T>(n: nat, steps: Seq<SlotStep<T>>)
    requires
        valid_run(empty_slots::<T>(n), steps),
        forall|i: int| 0 <= i < n ==> #[trigger] run_slots(empty_slots::<T>(n), steps)[i] is None,
    ensures
        stored(steps) == handed_out(empty_slots::<T>(n), steps),
{
    broadcast use vstd::multiset::group_multiset_axioms;

    let s = empty_slots::<T>(n);
    lemma_values_conserved(s, steps);
    lemma_run_len(s, steps);
    lemma_contents_empty(s);
    lemma_contents_empty(run_slots(s, steps));
    assert(contents(s).add(stored(steps)) =~= stored(steps));
    assert(contents(run_slots(s, steps)).add(handed_out(s, steps)) =~= handed_out(s, steps));
}

proof fn lemma_contents_empty<T>(s: Seq<Option<T>>)
    requires
        forall|i: int| 0 <= i < s.len() ==> #[trigger] s[i] is None,
    ensures
        contents(s) == Multiset::<T>::empty(),
    decreases s.len(),
{
    broadcast use vstd::multiset::group_multiset_axioms;

    if s.len() > 0 {
        let prefix = s.drop_last();
        assert forall|i: int| 0 <= i < prefix.len() implies #[trigger] prefix[i] is None by {
            assert(prefix[i] == s[i]);
        }
        lemma_contents_empty(prefix);
        assert(s.last() == s[s.len() - 1]);
        assert(contents(s) =~= Multiset::<T>::empty());
    }
}

} // verus!
