use vstd::prelude::*;
use vstd::multiset::Multiset;
use crate::family::Family;
use crate::family::prio_less;

verus! {

broadcast use vstd::seq_lib::group_to_multiset_ensures;

/// The names of a sequence of owned strings.
pub open spec fn seq_names(v: Seq<String>) -> Seq<Seq<char>> {
    v.map_values(|s: String| s@)
}

/// The number of people across all the given families.
pub open spec fn total_size(fams: Seq<Family>) -> int
    decreases fams.len(),
{
    if fams.len() == 0 {
        0
    } else {
        fams[0].size() + total_size(fams.drop_first())
    }
}

proof fn lemma_total_size_nonneg(fams: Seq<Family>)
    ensures
        total_size(fams) >= 0,
    decreases fams.len(),
{
    if fams.len() > 0 {
        lemma_total_size_nonneg(fams.drop_first());
    }
}

proof fn lemma_total_size_remove(fams: Seq<Family>, i: int)
    requires
        0 <= i < fams.len(),
    ensures
        total_size(fams) == total_size(fams.remove(i)) + fams[i].size(),
    decreases fams.len(),
{
    if i == 0 {
        assert(fams.remove(0) =~= fams.drop_first());
    } else {
        lemma_total_size_remove(fams.drop_first(), i - 1);
        assert(fams.remove(i).drop_first() =~= fams.drop_first().remove(i - 1));
    }
}

proof fn lemma_total_size_push(fams: Seq<Family>, f: Family)
    ensures
        total_size(fams.push(f)) == total_size(fams) + f.size(),
    decreases fams.len(),
{
    reveal_with_fuel(total_size, 2);
    if fams.len() == 0 {
        assert(fams.push(f)[0] == f);
        assert(fams.push(f).drop_first() =~= Seq::<Family>::empty());
    } else {
        lemma_total_size_push(fams.drop_first(), f);
        assert(fams.push(f)[0] == fams[0]);
        assert(fams.push(f).drop_first() =~= fams.drop_first().push(f));
    }
}

proof fn lemma_total_size_element(fams: Seq<Family>, i: int)
    requires
        0 <= i < fams.len(),
    ensures
        fams[i].size() <= total_size(fams),
{
    lemma_total_size_remove(fams, i);
    lemma_total_size_nonneg(fams.remove(i));
}

/// All the names still held across the given families, with multiplicity.
pub open spec fn names_multiset(fams: Seq<Family>) -> Multiset<Seq<char>>
    decreases fams.len(),
{
    if fams.len() == 0 {
        Multiset::empty()
    } else {
        fams[0].names().to_multiset().add(names_multiset(fams.drop_first()))
    }
}

proof fn lemma_names_multiset_remove(fams: Seq<Family>, i: int)
    requires
        0 <= i < fams.len(),
    ensures
        names_multiset(fams) =~= names_multiset(fams.remove(i)).add(fams[i].names().to_multiset()),
    decreases fams.len(),
{
    if i == 0 {
        assert(fams.remove(0) =~= fams.drop_first());
    } else {
        lemma_names_multiset_remove(fams.drop_first(), i - 1);
        assert(fams.remove(i).drop_first() =~= fams.drop_first().remove(i - 1));
    }
}

proof fn lemma_names_multiset_push(fams: Seq<Family>, f: Family)
    ensures
        names_multiset(fams.push(f)) =~= names_multiset(fams).add(f.names().to_multiset()),
    decreases fams.len(),
{
    reveal_with_fuel(names_multiset, 2);
    if fams.len() == 0 {
        assert(fams.push(f)[0] == f);
        assert(fams.push(f).drop_first() =~= Seq::<Family>::empty());
    } else {
        lemma_names_multiset_push(fams.drop_first(), f);
        assert(fams.push(f)[0] == fams[0]);
        assert(fams.push(f).drop_first() =~= fams.drop_first().push(f));
    }
}

/// How many entries of `s` equal `j`.
pub open spec fn count_eq(s: Seq<int>, j: int) -> int
    decreases s.len(),
{
    if s.len() == 0 {
        0
    } else {
        count_eq(s.drop_last(), j) + if s.last() == j {
            1int
        } else {
            0int
        }
    }
}

proof fn lemma_count_eq_push(s: Seq<int>, x: int, j: int)
    ensures
        count_eq(s.push(x), j) == count_eq(s, j) + if x == j {
            1int
        } else {
            0int
        },
{
    assert(s.push(x).drop_last() =~= s);
}

/// In a sequence with no two adjacent entries equal, no value can occupy
/// more than every other position: its count is at most half the length,
/// rounded up.
pub proof fn lemma_no_adjacent_dup_count(s: Seq<int>, j: int)
    requires
        forall|t: int| 0 <= t < s.len() - 1 ==> s[t] != #[trigger] s[t + 1],
    ensures
        2 * count_eq(s, j) <= s.len() + 1,
    decreases s.len(),
{
    reveal_with_fuel(count_eq, 3);
    if s.len() >= 2 {
        let s1 = s.drop_last();
        let s2 = s1.drop_last();
        assert(forall|t: int| 0 <= t < s2.len() - 1 ==> s2[t] != #[trigger] s2[t + 1]);
        lemma_no_adjacent_dup_count(s2, j);
        assert(s1.last() == s[s.len() - 2] && s.last() == s[s.len() - 1]);
        assert(s1.last() != s.last());
        assert(count_eq(s, j) == count_eq(s1, j) + if s.last() == j {
            1int
        } else {
            0int
        });
        assert(count_eq(s1, j) == count_eq(s2, j) + if s1.last() == j {
            1int
        } else {
            0int
        });
    }
}

/// An input admits an assignment under the greedy construction exactly when
/// it is non-empty and no single family holds more than every other position
/// of the final sequence: twice its size must not exceed the total plus one.
pub open spec fn feasible(fams: Seq<Family>) -> bool {
    &&& fams.len() >= 1
    &&& forall|j: int| 0 <= j < fams.len() ==> 2 * (#[trigger] fams[j]).size() <= total_size(fams)
        + 1
}

/// An input on which the construction also closes the cycle: no family has
/// been marked as first yet, and no single family holds more than half of
/// all the people, so the first and the last entry of the output can never
/// come from the same family.
pub open spec fn cyclic_input(fams: Seq<Family>) -> bool {
    &&& forall|j: int| 0 <= j < fams.len() ==> !(#[trigger] fams[j]).first
    &&& forall|j: int| 0 <= j < fams.len() ==> 2 * (#[trigger] fams[j]).size() <= total_size(fams)
}

proof fn lemma_total_size_two(fams: Seq<Family>, i1: int, i2: int)
    requires
        0 <= i1 < fams.len(),
        0 <= i2 < fams.len(),
        i1 != i2,
    ensures
        fams[i1].size() + fams[i2].size() <= total_size(fams),
{
    lemma_total_size_remove(fams, i2);
    let r = fams.remove(i2);
    let k: int = if i1 < i2 {
        i1
    } else {
        i1 - 1
    };
    assert(r[k] == fams[i1]);
    lemma_total_size_element(r, k);
}

/// One family measured against all the others: the feasibility bound
/// `2 * size <= total + 1` says exactly that the family's size exceeds the
/// sum of the other families' sizes by at most one.
pub proof fn lemma_family_vs_rest(fams: Seq<Family>, j: int)
    requires
        0 <= j < fams.len(),
    ensures
        (2 * fams[j].size() <= total_size(fams) + 1) <==> (fams[j].size() <= total_size(
            fams.remove(j),
        ) + 1),
{
    lemma_total_size_remove(fams, j);
}

/// When the bound of one family over the rest holds for a largest family,
/// it holds for every family, and the whole input is feasible.
pub proof fn lemma_largest_family_bound(fams: Seq<Family>, j: int)
    requires
        0 <= j < fams.len(),
        forall|i: int| 0 <= i < fams.len() ==> (#[trigger] fams[i]).size() <= fams[j].size(),
        fams[j].size() <= total_size(fams.remove(j)) + 1,
    ensures
        feasible(fams),
{
    lemma_total_size_remove(fams, j);
    assert forall|i: int| 0 <= i < fams.len() implies 2 * (#[trigger] fams[i]).size()
        <= total_size(fams) + 1 by {
        if i != j {
            lemma_total_size_two(fams, i, j);
        }
    }
}

/// `owner` attributes each output position to the input family it was drawn
/// from: owners are valid indices, no two consecutive positions share a
/// family, every entry is a name of its owning family, and each family owns
/// exactly as many positions as it has people.
pub open spec fn arrangement_ok(fams: Seq<Family>, out: Seq<Seq<char>>, owner: Seq<int>) -> bool {
    &&& owner.len() == out.len()
    &&& forall|t: int| 0 <= t < owner.len() ==> 0 <= #[trigger] owner[t] < fams.len()
    &&& forall|t: int| 0 <= t < owner.len() - 1 ==> owner[t] != #[trigger] owner[t + 1]
    &&& forall|t: int| 0 <= t < out.len() ==> (#[trigger] fams[owner[t]]).names().contains(out[t])
    &&& forall|j: int| 0 <= j < fams.len() ==> count_eq(owner, j) == (#[trigger] fams[j]).size()
}

/// A successful output places every person exactly once — it is a
/// permutation of all the names — and admits an attribution of positions to
/// families under which no two consecutive entries share a family.
pub open spec fn valid_output(fams: Seq<Family>, out: Seq<Seq<char>>) -> bool {
    &&& out.len() == total_size(fams)
    &&& out.to_multiset() == names_multiset(fams)
    &&& exists|owner: Seq<int>| arrangement_ok(fams, out, owner)
}

/// The output admits an attribution of positions to families that satisfies
/// [`arrangement_ok`] and, on a [`cyclic_input`], also separates the first
/// entry's family from the last entry's, closing the cycle.
pub open spec fn cyclic_arrangement_exists(fams: Seq<Family>, out: Seq<Seq<char>>) -> bool {
    exists|ow: Seq<int>|
        #[trigger] arrangement_ok(fams, out, ow) && (cyclic_input(fams) ==> ow[0] != ow.last())
}

/// Removes and returns a family of maximal priority, together with the
/// position it held.
fn pop_max(q: &mut Vec<Family>) -> (r: (Family, usize))
    requires
        old(q)@.len() >= 1,
    ensures
        r.1 < old(q)@.len(),
        r.0 == old(q)@[r.1 as int],
        final(q)@ == old(q)@.remove(r.1 as int),
        forall|k: int| 0 <= k < old(q)@.len() ==> !r.0.prio_lt(#[trigger] old(q)@[k]),
{
    let mut best: usize = 0;
    let mut j: usize = 1;
    while j < q.len()
        invariant
            best < j <= q@.len(),
            q@.len() >= 1,
            forall|k: int| 0 <= k < j ==> !q@[best as int].prio_lt(#[trigger] q@[k]),
        decreases q@.len() - j,
    {
        if prio_less(&q[best], &q[j]) {
            best = j;
        }
        j += 1;
    }
    let f = q.remove(best);
    (f, best)
}

/// Builds a gift-exchange order: an ordered sequence of names in which no
/// two consecutive entries — as attributed by some owner map — come from
/// the same family, every person appears exactly once, and `None` is
/// returned exactly on the inputs the greedy construction cannot arrange.
///
/// The construction keeps the families in a max-priority pool, always draws
/// from the largest remaining family, and holds each drawn family out of
/// the pool for one step so that it cannot also supply the next name.
///
/// Success is owed precisely on [`feasible`] inputs. On a [`cyclic_input`] —
/// no family holding more than half the people — the first and the last
/// entry also come from different families, so the order stays valid when
/// the sequence is read as a ring. On the remaining feasible inputs one
/// family holds exactly one more person than all the others together, and
/// such a family must open and close the sequence.
pub fn find_assignment(people: Vec<Family>) -> (res: Option<Vec<String>>)
    requires
        forall|j: int| 0 <= j < people@.len() ==> (#[trigger] people@[j]).size() >= 1,
    ensures
        (res is Some) <==> feasible(people@),
        res matches Some(v) ==> valid_output(people@, seq_names(v@)),
        res matches Some(v) ==> cyclic_arrangement_exists(people@, seq_names(v@)),
{
    let ghost fams = people@;
    if people.len() == 0 {
        return None;
    }
    let mut queue = people;
    let ghost mut qids: Seq<int> = Seq::new(fams.len(), |i: int| i);
    let ghost mut rem: Seq<int> = Seq::new(fams.len(), |i: int| fams[i].size());

    let popped = pop_max(&mut queue);
    let mut held = popped.0;
    let first_idx = popped.1;
    let ghost mut held_id: int = qids[first_idx as int];
    let ghost first_id: int = held_id;
    proof {
        qids = qids.remove(first_idx as int);
        lemma_total_size_remove(fams, held_id);
        lemma_names_multiset_remove(fams, held_id);
    }
    held.first = true;

    let name = held.people.pop().unwrap();
    let mut out: Vec<String> = Vec::new();
    out.push(name);
    let ghost mut owner: Seq<int> = Seq::empty().push(held_id);
    proof {
        rem = rem.update(held_id, fams[held_id].size() - 1);
        assert(held.names() =~= fams[held_id].names().take(rem[held_id]));
        assert(seq_names(out@) =~= Seq::<Seq<char>>::empty().push(name@));
        assert(fams[held_id].names() =~= held.names().push(name@));
        assert forall|j: int| 0 <= j < fams.len() implies count_eq(owner, j) == fams[j].size()
            - rem[j] by {
            lemma_count_eq_push(Seq::empty(), held_id, j);
        }
        assert(seq_names(out@).to_multiset().add(
            names_multiset(queue@).add(held.names().to_multiset()),
        ) =~= names_multiset(fams));
        if feasible(fams) {
            assert forall|i: int| 0 <= i < queue@.len() implies 2 * (
            #[trigger] queue@[i]).size() <= total_size(queue@) + held.size() + 1 by {
                lemma_total_size_element(queue@, i);
            }
        }
        assert forall|i: int| 0 <= i < queue@.len() implies (#[trigger] queue@[i]).names()
            == fams[qids[i]].names().take(rem[qids[i]]) by {
            assert(queue@[i] == fams[qids[i]]);
            assert(queue@[i].names() =~= fams[qids[i]].names().take(rem[qids[i]]));
        }
        assert forall|j: int| 0 <= j < fams.len() && j != held_id implies qids.contains(j) by {
            if j < held_id {
                assert(qids[j] == j);
            } else {
                assert(qids[j - 1] == j);
            }
        }
        assert(fams[held_id].names()[fams[held_id].size() - 1] == held.names().push(name@)[
            fams[held_id].size() - 1
        ]);
        assert(fams[held_id].names()[fams[held_id].size() - 1] == name@);
        assert forall|i: int| 0 <= i < queue@.len() implies (#[trigger] queue@[i]).first == (
        qids[i] == first_id || fams[qids[i]].first) by {
            assert(queue@[i] == fams[qids[i]]);
        }
        if cyclic_input(fams) {
            assert(2 * fams[first_id].size() <= total_size(fams));
            assert(rem[first_id] <= total_size(queue@) - 1);
        }
    }

    while queue.len() > 0
        invariant
            fams.len() >= 1,
            forall|j: int| 0 <= j < fams.len() ==> (#[trigger] fams[j]).size() >= 1,
            qids.len() == queue@.len(),
            forall|i: int| 0 <= i < qids.len() ==> 0 <= #[trigger] qids[i] < fams.len(),
            forall|i1: int, i2: int|
                0 <= i1 < i2 < qids.len() ==> #[trigger] qids[i1] != #[trigger] qids[i2],
            0 <= held_id < fams.len(),
            forall|i: int| 0 <= i < qids.len() ==> #[trigger] qids[i] != held_id,
            rem.len() == fams.len(),
            forall|j: int| 0 <= j < fams.len() ==> 0 <= #[trigger] rem[j] <= fams[j].size(),
            forall|i: int|
                0 <= i < queue@.len() ==> (#[trigger] queue@[i]).names() == fams[
                    qids[i]
                ].names().take(rem[qids[i]]),
            held.names() == fams[held_id].names().take(rem[held_id]),
            forall|i: int| 0 <= i < queue@.len() ==> (#[trigger] queue@[i]).size() == rem[qids[i]],
            held.size() == rem[held_id],
            forall|i: int| 0 <= i < queue@.len() ==> rem[qids[i]] >= 1,
            forall|j: int|
                0 <= j < fams.len() && j != held_id && !qids.contains(j) ==> #[trigger] rem[j]
                    == 0,
            owner.len() == out@.len(),
            out@.len() >= 1,
            forall|t: int| 0 <= t < owner.len() ==> 0 <= #[trigger] owner[t] < fams.len(),
            forall|t: int| 0 <= t < owner.len() - 1 ==> owner[t] != #[trigger] owner[t + 1],
            owner.last() == held_id,
            forall|t: int|
                0 <= t < out@.len() ==> (#[trigger] fams[owner[t]]).names().contains(
                    seq_names(out@)[t],
                ),
            forall|j: int|
                0 <= j < fams.len() ==> count_eq(owner, j) == (#[trigger] fams[j]).size() - rem[j],
            out@.len() + total_size(queue@) + held.size() == total_size(fams),
            seq_names(out@).to_multiset().add(
                names_multiset(queue@).add(held.names().to_multiset()),
            ) == names_multiset(fams),
            feasible(fams) ==> held.size() <= total_size(queue@),
            feasible(fams) ==> forall|i: int|
                0 <= i < queue@.len() ==> 2 * (#[trigger] queue@[i]).size() <= total_size(queue@)
                    + held.size() + 1,
            0 <= first_id < fams.len(),
            owner[0] == first_id,
            held.first == (held_id == first_id || fams[held_id].first),
            forall|i: int|
                0 <= i < queue@.len() ==> (#[trigger] queue@[i]).first == (qids[i] == first_id
                    || fams[qids[i]].first),
            cyclic_input(fams) ==> (held_id == first_id ==> rem[first_id] <= total_size(queue@)
                - 1),
            cyclic_input(fams) ==> (held_id != first_id ==> 2 * rem[first_id] <= total_size(
                queue@,
            ) + held.size()),
        decreases total_size(queue@) + held.size(),
    {
        let ghost pre_queue = queue@;
        let ghost pre_qids = qids;
        let ghost pre_rem = rem;
        let ghost pre_held = held;
        let ghost pre_held_id = held_id;
        let ghost pre_out = out@;
        let ghost pre_owner = owner;

        let popped = pop_max(&mut queue);
        let mut next = popped.0;
        let idx = popped.1;
        let ghost next_id = qids[idx as int];
        proof {
            qids = qids.remove(idx as int);
            lemma_total_size_remove(pre_queue, idx as int);
            lemma_names_multiset_remove(pre_queue, idx as int);
        }

        let name = next.people.pop().unwrap();
        out.push(name);
        proof {
            owner = owner.push(next_id);
            rem = rem.update(next_id, rem[next_id] - 1);
            assert(next.names() =~= fams[next_id].names().take(rem[next_id]));
            assert(seq_names(out@) =~= seq_names(pre_out).push(name@));
            assert(pre_queue[idx as int].names() =~= next.names().push(name@));
            assert forall|j: int| 0 <= j < fams.len() implies count_eq(owner, j) == fams[j].size()
                - rem[j] by {
                lemma_count_eq_push(pre_owner, next_id, j);
            }
            assert(fams[next_id].names().take(pre_rem[next_id]) == pre_queue[
                idx as int
            ].names());
            assert(fams[next_id].names().take(pre_rem[next_id])[pre_rem[next_id] - 1] == name@);
            assert(fams[next_id].names()[pre_rem[next_id] - 1] == name@);
        }

        if held.people.len() > 0 {
            queue.push(held);
            proof {
                lemma_total_size_push(pre_queue.remove(idx as int), held);
                lemma_names_multiset_push(pre_queue.remove(idx as int), held);
                qids = qids.push(held_id);
            }
        } else {
            proof {
                assert(held.names().len() == 0);
                assert(held.names().to_multiset() =~= Multiset::<Seq<char>>::empty());
            }
        }
        held = next;
        proof {
            held_id = next_id;
            assert(seq_names(out@).to_multiset().add(
                names_multiset(queue@).add(held.names().to_multiset()),
            ) =~= names_multiset(fams));
            if feasible(fams) {
                assert forall|i: int| 0 <= i < queue@.len() implies 2 * (
                #[trigger] queue@[i]).size() <= total_size(queue@) + held.size() + 1 by {
                    lemma_total_size_element(queue@, i);
                }
            }
            lemma_total_size_nonneg(queue@);
            assert forall|j: int|
                0 <= j < fams.len() && j != held_id && !qids.contains(j) implies #[trigger] rem[j]
                == 0 by {
                if j == pre_held_id {
                    if pre_held.size() > 0 {
                        assert(qids[qids.len() - 1] == pre_held_id);
                    }
                } else if pre_qids.contains(j) {
                    let i = choose|i: int| 0 <= i < pre_qids.len() && pre_qids[i] == j;
                    let i2: int = if i < idx as int {
                        i
                    } else {
                        i - 1
                    };
                    assert(pre_qids.remove(idx as int)[i2] == j);
                    assert(qids[i2] == j);
                    assert(qids.contains(j));
                }
            }
            if cyclic_input(fams) {
                if pre_held_id == first_id {
                    assert(next_id != first_id);
                    if pre_held.size() == 0 {
                        assert(rem[first_id] == 0);
                    }
                    assert(2 * rem[first_id] <= total_size(queue@) + held.size());
                } else if next_id != first_id {
                    if pre_rem[first_id] >= 1 {
                        assert(pre_qids.contains(first_id));
                        let i0 = choose|i: int|
                            0 <= i < pre_qids.len() && pre_qids[i] == first_id;
                        assert(pre_queue[i0].size() == pre_rem[first_id]);
                        assert(pre_queue[i0].first);
                        assert(!pre_queue[idx as int].first);
                        assert(!pre_queue[idx as int].prio_lt(pre_queue[i0]));
                        assert(pre_queue[idx as int].size() > pre_queue[i0].size());
                        lemma_total_size_two(pre_queue, idx as int, i0);
                        assert(2 * rem[first_id] <= total_size(queue@) + held.size());
                    } else {
                        assert(2 * rem[first_id] <= total_size(queue@) + held.size());
                    }
                } else {
                    assert(rem[first_id] <= total_size(queue@) - 1);
                }
            }
        }
    }

    if held.people.len() > 0 {
        proof {
            if feasible(fams) {
                assert(held.size() <= total_size(queue@));
                assert(false);
            }
        }
        None
    } else {
        proof {
            assert(held.names().len() == 0);
            assert(rem[held_id] == 0);
            assert forall|j: int| 0 <= j < fams.len() implies rem[j] == 0 by {
                if j != held_id {
                    assert(!qids.contains(j));
                }
            }
            assert(held.names().to_multiset() =~= Multiset::<Seq<char>>::empty());
            assert(seq_names(out@).to_multiset() =~= names_multiset(fams));
            assert forall|j: int| 0 <= j < fams.len() implies 2 * (#[trigger] fams[j]).size()
                <= total_size(fams) + 1 by {
                lemma_no_adjacent_dup_count(owner, j);
            }
            assert(feasible(fams));
            assert(arrangement_ok(fams, seq_names(out@), owner));
            assert(valid_output(fams, seq_names(out@)));
            if cyclic_input(fams) {
                assert(held_id != first_id);
                assert(owner[0] != owner.last());
            }
            assert(arrangement_ok(fams, seq_names(out@), owner) && (cyclic_input(fams)
                ==> owner[0] != owner.last()));
            assert(cyclic_arrangement_exists(fams, seq_names(out@)));
        }
        Some(out)
    }
}

} // verus!
