//! One round of the game: roll every die, let one die of each group of equal
//! values leave, roll the dice that stay once more, and compare their sum
//! with the target.

use crate::dice::{all_valid, Die};
use vstd::prelude::*;

verus! {

/// A die together with the value it shows.
#[derive(Clone, Copy, Debug)]
pub struct Roll {
    pub die: Die,
    pub value: u8,
}

impl Roll {
    /// The die is valid and the value is one of its faces.
    pub open spec fn wf(&self) -> bool {
        self.die.wf() && 1 <= self.value <= self.die.sides
    }

    /// Rolls `die` and keeps the value with it.
    pub fn new(die: Die) -> (roll: Roll)
        requires
            die.wf(),
        ensures
            roll.die == die,
            roll.wf(),
    {
        let value = die.roll();
        Roll { die, value }
    }
}

/// `rolls` is one roll of each die of `dice`, in the same order.
pub open spec fn rolls_of(dice: Seq<Die>, rolls: Seq<Roll>) -> bool {
    &&& rolls.len() == dice.len()
    &&& forall|i: int|
        0 <= i < rolls.len() ==> (#[trigger] rolls[i]).die == dice[i] && rolls[i].wf()
}

/// Whether roll `i` leaves before roll `j` does: it has fewer faces, or as
/// many and stands no later.
pub open spec fn beats(rolls: Seq<Roll>, i: int, j: int) -> bool {
    rolls[i].die.sides < rolls[j].die.sides || (rolls[i].die.sides == rolls[j].die.sides && i
        <= j)
}

/// Whether roll `i` is the one that leaves its group. The group of a roll is
/// made of the rolls that show the same value; the roll that leaves is the one
/// with the fewest faces, the earliest of them where several have as few. A
/// roll alone in its group leaves.
pub open spec fn is_eliminated(rolls: Seq<Roll>, i: int) -> bool {
    forall|j: int|
        0 <= j < rolls.len() && (#[trigger] rolls[j]).value == rolls[i].value ==> beats(
            rolls,
            i,
            j,
        )
}

/// The indices below `n`, in rising order, of the rolls that leave
/// (`out` is true) or of those that stay (`out` is false).
pub open spec fn indices_where(rolls: Seq<Roll>, n: nat, out: bool) -> Seq<usize>
    decreases n,
{
    if n == 0 {
        Seq::empty()
    } else {
        let before = indices_where(rolls, (n - 1) as nat, out);
        if is_eliminated(rolls, n - 1) == out {
            before.push((n - 1) as usize)
        } else {
            before
        }
    }
}

/// The indices of the rolls that leave, in rising order.
pub open spec fn eliminated_indices(rolls: Seq<Roll>) -> Seq<usize> {
    indices_where(rolls, rolls.len(), true)
}

/// The indices of the rolls that stay, in rising order.
pub open spec fn surviving_indices(rolls: Seq<Roll>) -> Seq<usize> {
    indices_where(rolls, rolls.len(), false)
}

/// The dice that stay for the second roll, in the order of the first roll.
pub open spec fn surviving_dice(rolls: Seq<Roll>) -> Seq<Die> {
    surviving_indices(rolls).map_values(|i: usize| rolls[i as int].die)
}

/// The sum of the values shown.
pub open spec fn total(rolls: Seq<Roll>) -> int
    decreases rolls.len(),
{
    if rolls.len() == 0 {
        0
    } else {
        total(rolls.drop_last()) + rolls.last().value
    }
}

/// `first` and `second` are the two rolls of one round played with `dice`:
/// every die is rolled first, and those that stay are rolled again.
pub open spec fn is_round(dice: Seq<Die>, first: Seq<Roll>, second: Seq<Roll>) -> bool {
    rolls_of(dice, first) && rolls_of(surviving_dice(first), second)
}

/// The indices below `n`, in rising order, of the rolls that show `v`: the
/// group of `v` among the first `n` rolls.
pub open spec fn group_of(rolls: Seq<Roll>, n: nat, v: u8) -> Seq<usize>
    decreases n,
{
    if n == 0 {
        Seq::empty()
    } else {
        let before = group_of(rolls, (n - 1) as nat, v);
        if rolls[n - 1].value == v {
            before.push((n - 1) as usize)
        } else {
            before
        }
    }
}

/// Position `p` of `group` holds the roll with the fewest faces, and no
/// earlier position holds one with as few.
pub open spec fn is_first_smallest(rolls: Seq<Roll>, group: Seq<usize>, p: int) -> bool {
    &&& 0 <= p < group.len()
    &&& forall|q: int|
        0 <= q < group.len() ==> rolls[group[p] as int].die.sides <= rolls[(
        #[trigger] group[q]) as int].die.sides
    &&& forall|q: int|
        0 <= q < p ==> rolls[group[p] as int].die.sides < rolls[(
        #[trigger] group[q]) as int].die.sides
}

/// The group of `v` holds the indices of the rolls that show `v`, all of
/// them, in rising order.
pub proof fn lemma_group_of_members(rolls: Seq<Roll>, n: nat, v: u8)
    requires
        n <= rolls.len(),
        n <= usize::MAX,
    ensures
        forall|p: int|
            0 <= p < group_of(rolls, n, v).len() ==> {
                let x = #[trigger] group_of(rolls, n, v)[p];
                x < n && rolls[x as int].value == v
            },
        forall|p: int, q: int|
            0 <= p < q < group_of(rolls, n, v).len() ==> group_of(rolls, n, v)[p] < group_of(
                rolls,
                n,
                v,
            )[q],
        forall|x: usize|
            x < n && rolls[x as int].value == v ==> group_of(rolls, n, v).contains(x),
    decreases n,
{
    if n > 0 {
        let before = group_of(rolls, (n - 1) as nat, v);
        let now = group_of(rolls, n, v);
        lemma_group_of_members(rolls, (n - 1) as nat, v);
        assert forall|x: usize| x < n && rolls[x as int].value == v implies now.contains(x) by {
            if x < n - 1 {
                assert(before.contains(x));
                let p = choose|p: int| 0 <= p < before.len() && before[p] == x;
                assert(now[p] == x);
            } else {
                assert(now[now.len() - 1] == x);
            }
        }
    }
}

/// In the group of `v`, the roll at the first position with the fewest faces
/// is the one that leaves, and no other roll that shows `v` leaves.
pub proof fn lemma_first_smallest_leaves(rolls: Seq<Roll>, v: u8, p: int)
    requires
        rolls.len() <= usize::MAX,
        is_first_smallest(rolls, group_of(rolls, rolls.len(), v), p),
    ensures
        forall|i: int|
            0 <= i < rolls.len() && (#[trigger] rolls[i]).value == v ==> (is_eliminated(rolls, i)
                <==> i == group_of(rolls, rolls.len(), v)[p]),
{
    let group = group_of(rolls, rolls.len(), v);
    let k = group[p] as int;
    lemma_group_of_members(rolls, rolls.len(), v);
    assert(group[p] < rolls.len() && rolls[k].value == v);
    assert forall|j: int| 0 <= j < rolls.len() && (#[trigger] rolls[j]).value == v implies beats(
        rolls,
        k,
        j,
    ) by {
        assert(group.contains(j as usize));
        let q = choose|q: int| 0 <= q < group.len() && group[q] == j as usize;
        assert(rolls[k].die.sides <= rolls[group[q] as int].die.sides);
        if q < p {
            assert(rolls[k].die.sides < rolls[group[q] as int].die.sides);
        } else if p < q {
            assert(group[p] < group[q]);
        }
    }
    assert forall|i: int| 0 <= i < rolls.len() && (#[trigger] rolls[i]).value == v implies (
    is_eliminated(rolls, i) <==> i == k) by {
        if i == k {
            assert(is_eliminated(rolls, k));
        } else {
            assert(beats(rolls, k, i));
            assert(!beats(rolls, i, k));
        }
    }
}

/// Every index in `indices_where(rolls, n, out)` is below `n` and leaves or
/// stays as `out` says, and every such index is in it.
pub proof fn lemma_indices_where_members(rolls: Seq<Roll>, n: nat, out: bool)
    requires
        n <= rolls.len(),
        n <= usize::MAX,
    ensures
        forall|p: int|
            0 <= p < indices_where(rolls, n, out).len() ==> {
                let x = #[trigger] indices_where(rolls, n, out)[p];
                x < n && is_eliminated(rolls, x as int) == out
            },
        forall|x: usize|
            x < n && is_eliminated(rolls, x as int) == out ==> indices_where(
                rolls,
                n,
                out,
            ).contains(x),
        indices_where(rolls, n, out).len() <= n,
    decreases n,
{
    if n > 0 {
        let before = indices_where(rolls, (n - 1) as nat, out);
        let now = indices_where(rolls, n, out);
        lemma_indices_where_members(rolls, (n - 1) as nat, out);
        assert forall|x: usize| x < n && is_eliminated(rolls, x as int) == out implies now.contains(
            x,
        ) by {
            if x < n - 1 {
                assert(before.contains(x));
                let p = choose|p: int| 0 <= p < before.len() && before[p] == x;
                assert(now[p] == x);
            } else {
                assert(now[now.len() - 1] == x);
            }
        }
    }
}

/// The dice that stay are dice of the first roll: where every roll of it is
/// well formed, every die that stays is valid.
pub proof fn lemma_surviving_dice_are_valid(rolls: Seq<Roll>)
    requires
        rolls.len() <= usize::MAX,
        forall|i: int| 0 <= i < rolls.len() ==> (#[trigger] rolls[i]).wf(),
    ensures
        all_valid(surviving_dice(rolls)),
        surviving_dice(rolls).len() <= rolls.len(),
{
    lemma_indices_where_members(rolls, rolls.len(), false);
    assert forall|k: int| 0 <= k < surviving_dice(rolls).len() implies (
    #[trigger] surviving_dice(rolls)[k]).wf() by {
        let idx = surviving_indices(rolls)[k];
        assert(rolls[idx as int].wf());
    }
}

/// Of the first `n` rolls, each is counted once: among those that leave or
/// among those that stay.
pub proof fn lemma_indices_where_count(rolls: Seq<Roll>, n: nat)
    ensures
        indices_where(rolls, n, true).len() + indices_where(rolls, n, false).len() == n,
    decreases n,
{
    if n > 0 {
        lemma_indices_where_count(rolls, (n - 1) as nat);
    }
}

/// Where `k` is the only one of the first `n` rolls that leaves, the list of
/// those that leave holds `k` alone.
pub proof fn lemma_indices_where_single(rolls: Seq<Roll>, n: nat, k: int)
    requires
        n <= rolls.len(),
        0 <= k,
        forall|i: int| 0 <= i < n ==> (is_eliminated(rolls, i) <==> i == k),
    ensures
        indices_where(rolls, n, true) == if k < n {
            seq![k as usize]
        } else {
            Seq::<usize>::empty()
        },
    decreases n,
{
    if n > 0 {
        lemma_indices_where_single(rolls, (n - 1) as nat, k);
        assert(indices_where(rolls, n, true) =~= if k < n {
            seq![k as usize]
        } else {
            Seq::<usize>::empty()
        });
    }
}

/// Finds, among the first `n` rolls, the one that leaves before all the
/// others that show `v`; the result is -1 where none shows `v`.
pub proof fn lemma_group_leader(rolls: Seq<Roll>, v: u8, n: int) -> (k: int)
    requires
        0 <= n <= rolls.len(),
    ensures
        -1 <= k < n,
        k == -1 ==> forall|j: int| 0 <= j < n ==> (#[trigger] rolls[j]).value != v,
        k >= 0 ==> rolls[k].value == v && forall|j: int|
            0 <= j < n && (#[trigger] rolls[j]).value == v ==> beats(rolls, k, j),
    decreases n,
{
    if n == 0 {
        -1
    } else {
        let p = lemma_group_leader(rolls, v, n - 1);
        if rolls[n - 1].value != v {
            p
        } else if p == -1 {
            n - 1
        } else if rolls[n - 1].die.sides < rolls[p].die.sides {
            n - 1
        } else {
            p
        }
    }
}

/// Every roll either leaves or stays, and none does both: the indices that
/// leave and those that stay are disjoint, and together they are all the
/// indices of the first roll.
pub proof fn law_leave_or_stay(rolls: Seq<Roll>)
    requires
        rolls.len() <= usize::MAX,
    ensures
        eliminated_indices(rolls).to_set().disjoint(surviving_indices(rolls).to_set()),
        eliminated_indices(rolls).to_set().union(surviving_indices(rolls).to_set()) == Set::new(
            |i: usize| i < rolls.len(),
        ),
        eliminated_indices(rolls).len() + surviving_indices(rolls).len() == rolls.len(),
{
    let gone = eliminated_indices(rolls);
    let kept = surviving_indices(rolls);
    lemma_indices_where_members(rolls, rolls.len(), true);
    lemma_indices_where_members(rolls, rolls.len(), false);
    lemma_indices_where_count(rolls, rolls.len());
    assert forall|x: usize| gone.contains(x) implies x < rolls.len() && is_eliminated(
        rolls,
        x as int,
    ) by {
        let p = choose|p: int| 0 <= p < gone.len() && gone[p] == x;
        assert(gone[p] == x);
    }
    assert forall|x: usize| kept.contains(x) implies x < rolls.len() && !is_eliminated(
        rolls,
        x as int,
    ) by {
        let p = choose|p: int| 0 <= p < kept.len() && kept[p] == x;
        assert(kept[p] == x);
    }
    assert forall|x: usize| x < rolls.len() implies gone.contains(x) || kept.contains(x) by {
        if is_eliminated(rolls, x as int) {
            assert(gone.contains(x));
        } else {
            assert(kept.contains(x));
        }
    }
    assert(gone.to_set().disjoint(kept.to_set()));
    assert(gone.to_set().union(kept.to_set()) =~= Set::new(|i: usize| i < rolls.len()));
}

/// One roll of each group leaves, and only one: every roll has in its group
/// a roll that leaves, and two rolls that leave and show the same value are
/// the same roll.
pub proof fn law_one_leaves_each_group(rolls: Seq<Roll>, i: int)
    requires
        0 <= i < rolls.len(),
    ensures
        exists|k: int|
            0 <= k < rolls.len() && (#[trigger] rolls[k]).value == rolls[i].value
                && is_eliminated(rolls, k),
        forall|a: int, b: int|
            0 <= a < rolls.len() && 0 <= b < rolls.len() && (#[trigger] rolls[a]).value
                == rolls[i].value && (#[trigger] rolls[b]).value == rolls[i].value
                && is_eliminated(rolls, a) && is_eliminated(rolls, b) ==> a == b,
{
    let k = lemma_group_leader(rolls, rolls[i].value, rolls.len() as int);
    assert(rolls[i].value == rolls[i].value);
    assert(k >= 0);
    assert(is_eliminated(rolls, k));
    assert(0 <= k < rolls.len() && rolls[k].value == rolls[i].value && is_eliminated(rolls, k));
    assert forall|a: int, b: int|
        0 <= a < rolls.len() && 0 <= b < rolls.len() && (#[trigger] rolls[a]).value
            == rolls[i].value && (#[trigger] rolls[b]).value == rolls[i].value && is_eliminated(
            rolls,
            a,
        ) && is_eliminated(rolls, b) implies a == b by {
        assert(beats(rolls, a, b));
        assert(beats(rolls, b, a));
    }
}

/// Where the first roll shows no value twice, every die leaves: no die is
/// rolled again, the sum is 0, and the round is won only with target 0.
pub proof fn law_all_distinct(rolls: Seq<Roll>, target: u32)
    requires
        rolls.len() <= usize::MAX,
        forall|i: int, j: int|
            0 <= i < j < rolls.len() ==> (#[trigger] rolls[i]).value != (#[trigger] rolls[j]).value,
    ensures
        forall|i: int| 0 <= i < rolls.len() ==> is_eliminated(rolls, i),
        eliminated_indices(rolls).len() == rolls.len(),
        surviving_indices(rolls).len() == 0,
        surviving_dice(rolls).len() == 0,
        forall|second: Seq<Roll>| #[trigger]
            rolls_of(surviving_dice(rolls), second) ==> total(second) == 0 && ((total(second)
                >= target) <==> target == 0),
{
    assert forall|i: int| 0 <= i < rolls.len() implies is_eliminated(rolls, i) by {
        assert forall|j: int|
            0 <= j < rolls.len() && (#[trigger] rolls[j]).value == rolls[i].value implies beats(
            rolls,
            i,
            j,
        ) by {
            if j < i {
                assert(rolls[j].value != rolls[i].value);
            } else if i < j {
                assert(rolls[i].value != rolls[j].value);
            }
        }
    }
    lemma_indices_where_members(rolls, rolls.len(), false);
    lemma_indices_where_count(rolls, rolls.len());
    let kept = surviving_indices(rolls);
    if kept.len() > 0 {
        assert(!is_eliminated(rolls, kept[0] as int));
    }
}

/// Where every die shows the same value in the first roll, exactly one
/// leaves, none has fewer faces than it, and all the others stay.
pub proof fn law_all_equal(rolls: Seq<Roll>)
    requires
        0 < rolls.len() <= usize::MAX,
        forall|i: int| 0 <= i < rolls.len() ==> (#[trigger] rolls[i]).value == rolls[0].value,
    ensures
        eliminated_indices(rolls).len() == 1,
        eliminated_indices(rolls)[0] < rolls.len(),
        forall|j: int|
            0 <= j < rolls.len() ==> rolls[eliminated_indices(rolls)[0] as int].die.sides <= (
            #[trigger] rolls[j]).die.sides,
        surviving_indices(rolls).len() == rolls.len() - 1,
        forall|j: usize|
            j < rolls.len() && j != eliminated_indices(rolls)[0] ==> surviving_indices(
                rolls,
            ).contains(j),
{
    let k = lemma_group_leader(rolls, rolls[0].value, rolls.len() as int);
    assert(rolls[0].value == rolls[0].value);
    assert(k >= 0);
    assert forall|i: int| 0 <= i < rolls.len() implies (is_eliminated(rolls, i) <==> i == k) by {
        assert(rolls[i].value == rolls[k].value);
        assert(beats(rolls, k, i));
        if i == k {
            assert(is_eliminated(rolls, k));
        } else {
            assert(!beats(rolls, i, k));
        }
    }
    lemma_indices_where_single(rolls, rolls.len(), k);
    lemma_indices_where_count(rolls, rolls.len());
    lemma_indices_where_members(rolls, rolls.len(), false);
    assert(eliminated_indices(rolls)[0] == k as usize);
    assert forall|j: usize|
        j < rolls.len() && j != eliminated_indices(rolls)[0] implies surviving_indices(
        rolls,
    ).contains(j) by {
        assert(!is_eliminated(rolls, j as int));
    }
    assert forall|j: int| 0 <= j < rolls.len() implies rolls[k].die.sides <= (
    #[trigger] rolls[j]).die.sides by {
        assert(beats(rolls, k, j));
    }
}

/// Who leaves and who stays after the first roll: the indices of the rolls,
/// each list in rising order.
#[derive(Debug)]
pub struct Elimination {
    pub eliminated: Vec<usize>,
    pub survivors: Vec<usize>,
}

/// Groups the rolls by the value they show: the result has one entry for
/// each value from 0 to 255, which holds the indices of the rolls that show
/// it, in rising order.
pub fn group_by_value(rolls: &Vec<Roll>) -> (groups: Vec<Vec<usize>>)
    ensures
        groups@.len() == 256,
        forall|v: int|
            0 <= v < 256 ==> (#[trigger] groups@[v])@ == group_of(rolls@, rolls@.len(), v as u8),
{
    let n: usize = rolls.len();
    let mut groups: Vec<Vec<usize>> = Vec::new();
    let mut v: usize = 0;
    while v < 256
        invariant
            v <= 256,
            groups@.len() == v,
            forall|k: int| 0 <= k < v ==> (#[trigger] groups@[k])@ == Seq::<usize>::empty(),
        decreases 256 - v,
    {
        groups.push(Vec::new());
        v += 1;
    }
    let mut i: usize = 0;
    while i < n
        invariant
            i <= n,
            n == rolls@.len(),
            groups@.len() == 256,
            forall|w: int|
                0 <= w < 256 ==> (#[trigger] groups@[w])@ == group_of(rolls@, i as nat, w as u8),
        decreases n - i,
    {
        let value: usize = rolls[i].value as usize;
        let ghost before = groups@;
        groups[value].push(i);
        proof {
            assert forall|w: int| 0 <= w < 256 implies (#[trigger] groups@[w])@ == group_of(
                rolls@,
                (i + 1) as nat,
                w as u8,
            ) by {
                assert(before[w]@ == group_of(rolls@, i as nat, w as u8));
            }
        }
        i += 1;
    }
    groups
}

/// The position in `group` of the roll with the fewest faces; the first such
/// position where several rolls have as few.
pub fn smallest_in(rolls: &Vec<Roll>, group: &Vec<usize>) -> (p: usize)
    requires
        group@.len() > 0,
        forall|q: int| 0 <= q < group@.len() ==> (#[trigger] group@[q]) < rolls@.len(),
    ensures
        is_first_smallest(rolls@, group@, p as int),
{
    let mut p: usize = 0;
    let mut q: usize = 1;
    while q < group.len()
        invariant
            p < q <= group@.len(),
            forall|q: int| 0 <= q < group@.len() ==> (#[trigger] group@[q]) < rolls@.len(),
            is_first_smallest(rolls@, group@.take(q as int), p as int),
        decreases group@.len() - q,
    {
        let ghost seen = group@.take(q as int);
        let ghost next = group@.take(q + 1);
        let smaller = rolls[group[q]].die.sides < rolls[group[p]].die.sides;
        proof {
            assert forall|r: int| 0 <= r < next.len() implies next[r] == group@[r] by {}
            assert forall|r: int| 0 <= r < seen.len() implies seen[r] == next[r] by {}
        }
        if smaller {
            p = q;
        }
        q += 1;
    }
    proof {
        assert(group@.take(q as int) =~= group@);
    }
    p
}

/// Sorts the rolls into those that leave and those that stay. The rolls are
/// grouped by the value they show, and one roll of each group leaves: the one
/// with the fewest faces, and the earliest of these. A roll alone in its
/// group leaves.
pub fn eliminate(rolls: &Vec<Roll>) -> (e: Elimination)
    ensures
        e.eliminated@ == eliminated_indices(rolls@),
        e.survivors@ == surviving_indices(rolls@),
{
    let n: usize = rolls.len();
    let groups = group_by_value(rolls);
    let mut leaves: Vec<bool> = Vec::new();
    let mut i: usize = 0;
    while i < n
        invariant
            i <= n,
            leaves@.len() == i,
            forall|k: int| 0 <= k < i ==> !(#[trigger] leaves@[k]),
        decreases n - i,
    {
        leaves.push(false);
        i += 1;
    }
    let mut v: usize = 0;
    while v < 256
        invariant
            v <= 256,
            n == rolls@.len(),
            groups@.len() == 256,
            forall|w: int|
                0 <= w < 256 ==> (#[trigger] groups@[w])@ == group_of(
                    rolls@,
                    rolls@.len(),
                    w as u8,
                ),
            leaves@.len() == n,
            forall|k: int|
                0 <= k < n ==> (#[trigger] leaves@[k]) == (rolls@[k].value < v && is_eliminated(
                    rolls@,
                    k,
                )),
        decreases 256 - v,
    {
        let group = &groups[v];
        let ghost before = leaves@;
        proof {
            lemma_group_of_members(rolls@, n as nat, v as u8);
        }
        if group.len() > 0 {
            let p = smallest_in(rolls, group);
            let k: usize = group[p];
            leaves.set(k, true);
            proof {
                lemma_first_smallest_leaves(rolls@, v as u8, p as int);
            }
        } else {
            proof {
                assert forall|k: int| 0 <= k < n implies (#[trigger] rolls@[k]).value != v by {
                    if rolls@[k].value == v {
                        assert(group@.contains(k as usize));
                    }
                }
            }
        }
        proof {
            assert forall|k: int| 0 <= k < n implies (#[trigger] leaves@[k]) == (rolls@[k].value
                < v + 1 && is_eliminated(rolls@, k)) by {
                if rolls@[k].value != v {
                    assert(leaves@[k] == before[k]);
                }
            }
        }
        v += 1;
    }
    let mut eliminated: Vec<usize> = Vec::new();
    let mut survivors: Vec<usize> = Vec::new();
    let mut i: usize = 0;
    while i < n
        invariant
            i <= n,
            n == rolls@.len(),
            leaves@.len() == n,
            forall|k: int| 0 <= k < n ==> (#[trigger] leaves@[k]) == is_eliminated(rolls@, k),
            eliminated@ == indices_where(rolls@, i as nat, true),
            survivors@ == indices_where(rolls@, i as nat, false),
        decreases n - i,
    {
        if leaves[i] {
            eliminated.push(i);
        } else {
            survivors.push(i);
        }
        i += 1;
    }
    Elimination { eliminated, survivors }
}

/// The dice that stay for the second roll, in the order of the first roll.
pub fn survivors(rolls: &Vec<Roll>) -> (dice: Vec<Die>)
    ensures
        dice@ == surviving_dice(rolls@),
{
    let e = eliminate(rolls);
    let n: usize = rolls.len();
    proof {
        lemma_indices_where_members(rolls@, n as nat, false);
    }
    let mut dice: Vec<Die> = Vec::new();
    let mut k: usize = 0;
    while k < e.survivors.len()
        invariant
            k <= e.survivors@.len(),
            e.survivors@ == surviving_indices(rolls@),
            forall|p: int|
                0 <= p < e.survivors@.len() ==> (#[trigger] e.survivors@[p]) < rolls@.len(),
            dice@ == surviving_dice(rolls@).take(k as int),
        decreases e.survivors@.len() - k,
    {
        let idx: usize = e.survivors[k];
        dice.push(rolls[idx].die);
        proof {
            assert(dice@ =~= surviving_dice(rolls@).take(k + 1));
        }
        k += 1;
    }
    proof {
        assert(dice@ =~= surviving_dice(rolls@));
    }
    dice
}

/// Rolls every die of `dice` once.
pub fn roll_all(dice: &Vec<Die>) -> (rolls: Vec<Roll>)
    requires
        all_valid(dice@),
    ensures
        rolls_of(dice@, rolls@),
{
    let mut rolls: Vec<Roll> = Vec::new();
    let mut i: usize = 0;
    while i < dice.len()
        invariant
            i <= dice@.len(),
            all_valid(dice@),
            rolls_of(dice@.take(i as int), rolls@),
        decreases dice@.len() - i,
    {
        let roll = Roll::new(dice[i]);
        rolls.push(roll);
        i += 1;
    }
    proof {
        assert(dice@.take(i as int) =~= dice@);
    }
    rolls
}

/// Whether the values shown sum to `target` or more.
pub fn meets_target(rolls: &Vec<Roll>, target: u32) -> (win: bool)
    ensures
        win == (total(rolls@) >= target),
{
    let cap: u64 = 0x1_0000_0000;
    let mut sum: u64 = 0;
    let mut i: usize = 0;
    while i < rolls.len()
        invariant
            i <= rolls@.len(),
            cap == 0x1_0000_0000,
            sum <= cap,
            sum < cap ==> sum == total(rolls@.take(i as int)),
            sum == cap ==> total(rolls@.take(i as int)) >= cap,
        decreases rolls@.len() - i,
    {
        proof {
            assert(rolls@.take(i + 1).drop_last() =~= rolls@.take(i as int));
        }
        sum = sum + rolls[i].value as u64;
        if sum > cap {
            sum = cap;
        }
        i += 1;
    }
    proof {
        assert(rolls@.take(i as int) =~= rolls@);
    }
    sum >= target as u64
}

/// The dice of a game and the sum to reach.
#[derive(Debug)]
pub struct Game {
    pub dice: Vec<Die>,
    pub target: u32,
}

impl Game {
    /// Every die of the game is valid.
    pub open spec fn wf(&self) -> bool {
        all_valid(self.dice@)
    }

    /// A game with `dice` and `target`.
    pub fn new(dice: Vec<Die>, target: u32) -> (game: Game)
        ensures
            game.dice == dice,
            game.target == target,
    {
        Game { dice, target }
    }

    /// Whether every die of the game is valid, so that it can be played.
    pub fn is_valid(&self) -> (ok: bool)
        ensures
            ok == self.wf(),
    {
        let mut i: usize = 0;
        while i < self.dice.len()
            invariant
                i <= self.dice@.len(),
                forall|k: int| 0 <= k < i ==> (#[trigger] self.dice@[k]).wf(),
            decreases self.dice@.len() - i,
        {
            if !self.dice[i].is_valid() {
                return false;
            }
            i += 1;
        }
        true
    }

    /// Plays one round: rolls every die, lets one die of each group of equal
    /// values leave, rolls the others again and tells whether their sum
    /// reaches the target. The values rolled are left open; the result is that
    /// of some round of these dice. Without dice nothing is rolled, and the
    /// round is won exactly when the target is 0.
    pub fn play(&self) -> (win: bool)
        requires
            self.wf(),
        ensures
            exists|first: Seq<Roll>, second: Seq<Roll>| #[trigger]
                is_round(self.dice@, first, second) && win == (total(second) >= self.target),
            self.dice@.len() == 0 ==> win == (self.target == 0),
    {
        let rolls = roll_all(&self.dice);
        let staying = survivors(&rolls);
        let n: usize = rolls.len();
        proof {
            lemma_surviving_dice_are_valid(rolls@);
        }
        let final_rolls = roll_all(&staying);
        let win = meets_target(&final_rolls, self.target);
        proof {
            assert(is_round(self.dice@, rolls@, final_rolls@));
            if self.dice@.len() == 0 {
                assert(final_rolls@.len() == 0);
            }
        }
        win
    }
}

} // verus!
