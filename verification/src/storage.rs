//! Item stacks on the sector map: block storage and unit cargo, adding
//! items up to a capacity, and moving items between stores.

use vstd::prelude::*;

verus! {

/// An item that blocks store and units carry.
#[derive(Clone, Copy, Debug, PartialEq, Eq, Structural, Hash)]
pub enum ItemType {
    Gangue,
    Iron,
    Copper,
    Gold,
    Zinc,
    Lead,
    Water,
}

/// A number of items of one kind.
#[derive(Clone, Copy, Debug, PartialEq, Eq, Structural)]
pub struct ItemStack {
    pub kind: ItemType,
    pub amount: i32,
}

/// Display name of an item.
pub open spec fn spec_item_label(kind: ItemType) -> Seq<char> {
    match kind {
        ItemType::Gangue => "Gangue"@,
        ItemType::Iron => "Iron"@,
        ItemType::Copper => "Copper"@,
        ItemType::Gold => "Gold"@,
        ItemType::Zinc => "Zinc"@,
        ItemType::Lead => "Lead"@,
        ItemType::Water => "Water"@,
    }
}

/// Display name of an item.
pub fn item_label(kind: ItemType) -> (label: &'static str)
    ensures
        label@ == spec_item_label(kind),
{
    match kind {
        ItemType::Gangue => "Gangue",
        ItemType::Iron => "Iron",
        ItemType::Copper => "Copper",
        ItemType::Gold => "Gold",
        ItemType::Zinc => "Zinc",
        ItemType::Lead => "Lead",
        ItemType::Water => "Water",
    }
}

/// Sum of all amounts in a list of stacks.
pub open spec fn stacks_total(s: Seq<ItemStack>) -> int
    decreases s.len(),
{
    if s.len() == 0 {
        0
    } else {
        stacks_total(s.drop_last()) + s.last().amount
    }
}

/// Sum of the amounts of one kind in a list of stacks.
pub open spec fn kind_amount(s: Seq<ItemStack>, kind: ItemType) -> int
    decreases s.len(),
{
    if s.len() == 0 {
        0
    } else {
        kind_amount(s.drop_last(), kind) + (if s.last().kind == kind { s.last().amount as int } else { 0 })
    }
}

/// A well-formed store: every stack holds a positive amount and the whole
/// store's total fits in an `i32`.
pub open spec fn stacks_wf(s: Seq<ItemStack>) -> bool {
    &&& forall|i: int| 0 <= i < s.len() ==> #[trigger] s[i].amount > 0
    &&& stacks_total(s) <= i32::MAX
}

/// Totals split at any index.
pub proof fn lemma_total_split(s: Seq<ItemStack>, k: int)
    requires
        0 <= k <= s.len(),
    ensures
        stacks_total(s) == stacks_total(s.take(k)) + stacks_total(s.skip(k)),
        forall|kind: ItemType| #[trigger] kind_amount(s, kind) == kind_amount(s.take(k), kind) + kind_amount(s.skip(k), kind),
    decreases s.len(),
{
    if k < s.len() {
        lemma_total_split(s.drop_last(), k);
        assert(s.drop_last().take(k) =~= s.take(k));
        assert(s.skip(k).drop_last() =~= s.drop_last().skip(k));
        assert(s.skip(k).last() == s.last());
        assert forall|kind: ItemType| #[trigger] kind_amount(s, kind) == kind_amount(s.take(k), kind) + kind_amount(s.skip(k), kind) by {
            assert(kind_amount(s.drop_last(), kind) == kind_amount(s.drop_last().take(k), kind) + kind_amount(s.drop_last().skip(k), kind));
        }
    } else {
        assert(s.take(k) =~= s);
        assert(s.skip(k) =~= Seq::<ItemStack>::empty());
    }
}

/// A list made of one stack followed by others sums as the stack plus the rest.
pub proof fn lemma_total_cons(x: ItemStack, s: Seq<ItemStack>)
    ensures
        stacks_total(seq![x] + s) == x.amount + stacks_total(s),
        forall|kind: ItemType| #[trigger] kind_amount(seq![x] + s, kind) == (if x.kind == kind { x.amount as int } else { 0 }) + kind_amount(s, kind),
    decreases s.len(),
{
    let xs = seq![x] + s;
    if s.len() > 0 {
        lemma_total_cons(x, s.drop_last());
        assert(xs.drop_last() =~= seq![x] + s.drop_last());
        assert(xs.last() == s.last());
        assert(stacks_total(xs) == stacks_total(xs.drop_last()) + xs.last().amount);
        assert(stacks_total(s) == stacks_total(s.drop_last()) + s.last().amount);
        assert forall|kind: ItemType| #[trigger] kind_amount(xs, kind) == (if x.kind == kind { x.amount as int } else { 0 }) + kind_amount(s, kind) by {
            assert(kind_amount(seq![x] + s.drop_last(), kind) == (if x.kind == kind { x.amount as int } else { 0 }) + kind_amount(s.drop_last(), kind));
        }
    } else {
        assert(xs =~= seq![x]);
        assert(xs.drop_last() =~= Seq::<ItemStack>::empty());
        assert(xs.last() == x);
        assert(stacks_total(xs.drop_last()) == 0);
        assert(stacks_total(s) == 0);
        assert(stacks_total(xs) == stacks_total(xs.drop_last()) + xs.last().amount);
        assert forall|kind: ItemType| #[trigger] kind_amount(xs, kind) == (if x.kind == kind { x.amount as int } else { 0 }) + kind_amount(s, kind) by {
            assert(kind_amount(xs.drop_last(), kind) == 0);
            assert(kind_amount(s, kind) == 0);
        }
    }
}

/// Sums of a concatenation.
pub proof fn lemma_total_concat(a: Seq<ItemStack>, b: Seq<ItemStack>)
    ensures
        stacks_total(a + b) == stacks_total(a) + stacks_total(b),
        forall|kind: ItemType| #[trigger] kind_amount(a + b, kind) == kind_amount(a, kind) + kind_amount(b, kind),
{
    lemma_total_split(a + b, a.len() as int);
    assert((a + b).take(a.len() as int) =~= a);
    assert((a + b).skip(a.len() as int) =~= b);
}

/// In a store of positive stacks every kind's amount, every stack and every
/// prefix total lie between zero and the whole total.
pub proof fn lemma_wf_bounds(s: Seq<ItemStack>, k: int)
    requires
        forall|i: int| 0 <= i < s.len() ==> #[trigger] s[i].amount > 0,
    ensures
        stacks_total(s) >= 0,
        forall|kind: ItemType| 0 <= #[trigger] kind_amount(s, kind) <= stacks_total(s),
        0 <= k <= s.len() ==> 0 <= stacks_total(s.take(k)) <= stacks_total(s),
        0 <= k < s.len() ==> s[k].amount <= stacks_total(s),
    decreases s.len(),
{
    if s.len() > 0 {
        assert forall|i: int| 0 <= i < s.drop_last().len() implies #[trigger] s.drop_last()[i].amount > 0 by {
            assert(s.drop_last()[i] == s[i]);
        }
        lemma_wf_bounds(s.drop_last(), k);
        assert(s.last().amount > 0);
        assert forall|kind: ItemType| 0 <= #[trigger] kind_amount(s, kind) <= stacks_total(s) by {
            assert(0 <= kind_amount(s.drop_last(), kind) <= stacks_total(s.drop_last()));
        }
        if k == s.len() {
            assert(s.take(k) =~= s);
        } else if 0 <= k < s.len() {
            assert(s.drop_last().take(k) =~= s.take(k));
            if k < s.len() - 1 {
                assert(s.drop_last()[k] == s[k]);
            }
        }
    } else if k == 0 {
        assert(s.take(k) =~= s);
    }
}

/// Total of all items in a store.
pub fn storage_total(stored: &[ItemStack]) -> (total: i32)
    requires
        stacks_wf(stored@),
    ensures
        total == stacks_total(stored@),
{
    let mut total: i32 = 0;
    let mut i: usize = 0;
    while i < stored.len()
        invariant
            i <= stored.len(),
            stacks_wf(stored@),
            total == stacks_total(stored@.take(i as int)),
        decreases stored.len() - i,
    {
        proof {
            assert(stored@.take(i + 1).drop_last() =~= stored@.take(i as int));
            lemma_wf_bounds(stored@, i + 1);
        }
        total = total + stored[i].amount;
        i = i + 1;
    }
    assert(stored@.take(i as int) =~= stored@);
    total
}

/// The store after adding `add` items of a kind: the first stack of that
/// kind grows, or a new stack is appended when there is none.
pub open spec fn stacks_add(s: Seq<ItemStack>, kind: ItemType, add: int) -> Seq<ItemStack>
    decreases s.len(),
{
    if s.len() == 0 {
        seq![ItemStack { kind, amount: add as i32 }]
    } else if s[0].kind == kind {
        s.update(0, ItemStack { kind, amount: (s[0].amount + add) as i32 })
    } else {
        seq![s[0]] + stacks_add(s.drop_first(), kind, add)
    }
}

/// How many items `add_item` accepts: what was asked, limited by the free
/// space, never negative.
pub open spec fn accepted(total: int, amount: int, capacity: int) -> int {
    let free = capacity - total;
    let add = if amount < free { amount } else { free };
    if add <= 0 { 0 } else { add }
}

/// Adding to a store adds exactly to that kind's amount and to the total.
pub proof fn lemma_stacks_add(s: Seq<ItemStack>, kind: ItemType, add: int)
    requires
        add > 0,
        forall|i: int| 0 <= i < s.len() ==> #[trigger] s[i].amount > 0,
        stacks_total(s) + add <= i32::MAX,
    ensures
        stacks_total(stacks_add(s, kind, add)) == stacks_total(s) + add,
        forall|k: ItemType| #[trigger] kind_amount(stacks_add(s, kind, add), k) == kind_amount(s, k) + (if k == kind { add } else { 0 }),
        forall|i: int| 0 <= i < stacks_add(s, kind, add).len() ==> #[trigger] stacks_add(s, kind, add)[i].amount > 0,
    decreases s.len(),
{
    lemma_wf_bounds(s, 0);
    if s.len() == 0 {
        lemma_total_cons(ItemStack { kind, amount: add as i32 }, s);
        assert(seq![ItemStack { kind, amount: add as i32 }] + s =~= stacks_add(s, kind, add));
    } else {
        let rest = s.drop_first();
        assert(s =~= seq![s[0]] + rest);
        lemma_total_cons(s[0], rest);
        lemma_wf_bounds(rest, 0);
        if s[0].kind == kind {
            let x = ItemStack { kind, amount: (s[0].amount + add) as i32 };
            assert(stacks_add(s, kind, add) =~= seq![x] + rest);
            lemma_total_cons(x, rest);
        } else {
            lemma_stacks_add(rest, kind, add);
            lemma_total_cons(s[0], stacks_add(rest, kind, add));
        }
    }
}

/// Adds up to `amount` items of a kind to a store without passing its
/// capacity, and returns how many were added.
#[verifier::spinoff_prover]
pub fn add_item(stored: &mut Vec<ItemStack>, kind: ItemType, amount: i32, capacity: i32) -> (added: i32)
    requires
        stacks_wf(old(stored)@),
    ensures
        added == accepted(stacks_total(old(stored)@), amount as int, capacity as int),
        added == 0 ==> final(stored)@ == old(stored)@,
        added > 0 ==> final(stored)@ == stacks_add(old(stored)@, kind, added as int),
        stacks_wf(final(stored)@),
        stacks_total(final(stored)@) == stacks_total(old(stored)@) + added,
        forall|k: ItemType| #[trigger] kind_amount(final(stored)@, k) == kind_amount(old(stored)@, k) + (if k == kind { added as int } else { 0 }),
{
    let total = storage_total(stored.as_slice());
    proof {
        lemma_wf_bounds(stored@, 0);
    }
    let free: i64 = capacity as i64 - total as i64;
    let add: i64 = if (amount as i64) < free { amount as i64 } else { free };
    if add <= 0 {
        return 0;
    }
    let add = add as i32;
    let ghost s0 = stored@;
    let mut i: usize = 0;
    while i < stored.len() && stored[i].kind != kind
        invariant
            i <= stored.len(),
            stored@ == s0,
            forall|j: int| 0 <= j < i ==> s0[j].kind != kind,
        decreases stored.len() - i,
    {
        i = i + 1;
    }
    proof {
        lemma_stacks_add(s0, kind, add as int);
        lemma_stacks_add_at(s0, kind, add as int, i as int);
    }
    if i < stored.len() {
        let stack = stored[i];
        proof {
            lemma_wf_bounds(s0, i as int);
            lemma_total_split(s0, i as int);
            lemma_total_split(s0.skip(i as int), 1);
            assert(s0.skip(i as int).take(1) =~= seq![stack]);
            assert(seq![stack].drop_last() =~= Seq::<ItemStack>::empty());
            lemma_wf_bounds(s0.take(i as int), 0);
            assert forall|j: int| 0 <= j < s0.skip(i + 1).len() implies #[trigger] s0.skip(i + 1)[j].amount > 0 by {
                assert(s0.skip(i + 1)[j] == s0[i + 1 + j]);
            }
            assert forall|j: int| 0 <= j < s0.take(i as int).len() implies #[trigger] s0.take(i as int)[j].amount > 0 by {
                assert(s0.take(i as int)[j] == s0[j]);
            }
            lemma_wf_bounds(s0.skip(i + 1), 0);
            assert(s0.skip(i as int).skip(1) =~= s0.skip(i + 1));
        }
        stored.set(i, ItemStack { kind, amount: stack.amount + add });
    } else {
        stored.push(ItemStack { kind, amount: add });
    }
    assert(stored@ =~= stacks_add(s0, kind, add as int));
    add
}

/// Adding to a store whose first stack of the kind is at `i` (or that has
/// none, when `i` is its length) changes exactly that place.
pub proof fn lemma_stacks_add_at(s: Seq<ItemStack>, kind: ItemType, add: int, i: int)
    requires
        0 <= i <= s.len(),
        forall|j: int| 0 <= j < i ==> s[j].kind != kind,
        i < s.len() ==> s[i].kind == kind,
    ensures
        i < s.len() ==> stacks_add(s, kind, add) == s.update(i, ItemStack { kind, amount: (s[i].amount + add) as i32 }),
        i == s.len() ==> stacks_add(s, kind, add) == s.push(ItemStack { kind, amount: add as i32 }),
    decreases s.len(),
{
    if s.len() > 0 && i > 0 {
        let rest = s.drop_first();
        lemma_stacks_add_at(rest, kind, add, i - 1);
        if i < s.len() {
            assert(seq![s[0]] + rest.update(i - 1, ItemStack { kind, amount: (s[i].amount + add) as i32 })
                =~= s.update(i, ItemStack { kind, amount: (s[i].amount + add) as i32 }));
        } else {
            assert(seq![s[0]] + rest.push(ItemStack { kind, amount: add as i32 }) =~= s.push(ItemStack { kind, amount: add as i32 }));
        }
    } else if s.len() == 0 {
        assert(seq![ItemStack { kind, amount: add as i32 }] =~= s.push(ItemStack { kind, amount: add as i32 }));
    }
}

} // verus!

verus! {

/// Whether a kind passes an optional filter (no filter lets every kind pass).
pub open spec fn passes(filter: Option<Seq<ItemType>>, kind: ItemType) -> bool {
    match filter {
        None => true,
        Some(f) => f.contains(kind),
    }
}

/// The store after taking up to `t` items from its front: stacks that pass
/// the filter are emptied in order (and dropped) until `t` items are taken,
/// the last one possibly only in part; other stacks stay.
pub open spec fn drain(s: Seq<ItemStack>, t: int, filter: Option<Seq<ItemType>>) -> Seq<ItemStack>
    decreases s.len(),
{
    if s.len() == 0 || t <= 0 {
        s
    } else if !passes(filter, s[0].kind) {
        seq![s[0]] + drain(s.drop_first(), t, filter)
    } else if s[0].amount <= t {
        drain(s.drop_first(), t - s[0].amount, filter)
    } else {
        s.update(0, ItemStack { kind: s[0].kind, amount: (s[0].amount - t) as i32 })
    }
}

/// The parts `drain` takes, in order: whole stacks, and the last one only
/// in part when `t` runs out inside it.
pub open spec fn moved(s: Seq<ItemStack>, t: int, filter: Option<Seq<ItemType>>) -> Seq<ItemStack>
    decreases s.len(),
{
    if s.len() == 0 || t <= 0 {
        Seq::empty()
    } else if !passes(filter, s[0].kind) {
        moved(s.drop_first(), t, filter)
    } else if s[0].amount <= t {
        seq![s[0]] + moved(s.drop_first(), t - s[0].amount, filter)
    } else {
        seq![ItemStack { kind: s[0].kind, amount: t as i32 }]
    }
}

/// A store after the parts are added to it in turn, each as `add_item`
/// adds it when there is room.
pub open spec fn fill(s: Seq<ItemStack>, parts: Seq<ItemStack>) -> Seq<ItemStack>
    decreases parts.len(),
{
    if parts.len() == 0 {
        s
    } else {
        fill(stacks_add(s, parts[0].kind, parts[0].amount as int), parts.drop_first())
    }
}

/// Items of the kinds that pass a filter.
pub open spec fn passing_total(s: Seq<ItemStack>, filter: Option<Seq<ItemType>>) -> int
    decreases s.len(),
{
    if s.len() == 0 {
        0
    } else {
        passing_total(s.drop_last(), filter) + (if passes(filter, s.last().kind) { s.last().amount as int } else { 0 })
    }
}

proof fn lemma_passing_cons(x: ItemStack, s: Seq<ItemStack>, filter: Option<Seq<ItemType>>)
    ensures
        passing_total(seq![x] + s, filter) == (if passes(filter, x.kind) { x.amount as int } else { 0 }) + passing_total(s, filter),
    decreases s.len(),
{
    let xs = seq![x] + s;
    if s.len() > 0 {
        lemma_passing_cons(x, s.drop_last(), filter);
        assert(xs.drop_last() =~= seq![x] + s.drop_last());
        assert(xs.last() == s.last());
        assert(passing_total(xs, filter) == passing_total(xs.drop_last(), filter) + (if passes(filter, xs.last().kind) { xs.last().amount as int } else { 0 }));
        assert(passing_total(s, filter) == passing_total(s.drop_last(), filter) + (if passes(filter, s.last().kind) { s.last().amount as int } else { 0 }));
    } else {
        assert(xs.drop_last() =~= Seq::<ItemStack>::empty());
        assert(xs.last() == x);
        assert(passing_total(xs.drop_last(), filter) == 0);
        assert(passing_total(s, filter) == 0);
        assert(passing_total(xs, filter) == passing_total(xs.drop_last(), filter) + (if passes(filter, xs.last().kind) { xs.last().amount as int } else { 0 }));
    }
}

/// Draining takes exactly as many items as asked for, or all that pass the
/// filter when there are fewer, only from kinds that pass, and keeps the
/// store well-formed.
pub proof fn lemma_drain(s: Seq<ItemStack>, t: int, filter: Option<Seq<ItemType>>)
    requires
        forall|i: int| 0 <= i < s.len() ==> #[trigger] s[i].amount > 0,
    ensures
        forall|i: int| 0 <= i < drain(s, t, filter).len() ==> #[trigger] drain(s, t, filter)[i].amount > 0,
        stacks_total(s) - stacks_total(drain(s, t, filter)) == (if t <= 0 {
            0
        } else if t < passing_total(s, filter) {
            t
        } else {
            passing_total(s, filter)
        }),
        forall|k: ItemType| #[trigger] kind_amount(drain(s, t, filter), k) <= kind_amount(s, k),
        forall|k: ItemType| !passes(filter, k) ==> #[trigger] kind_amount(drain(s, t, filter), k) == kind_amount(s, k),
        passing_total(drain(s, t, filter), filter) == passing_total(s, filter) - (if t <= 0 {
            0
        } else if t < passing_total(s, filter) {
            t
        } else {
            passing_total(s, filter)
        }),
    decreases s.len(),
{
    if s.len() == 0 || t <= 0 {
    } else {
        let x = s[0];
        let rest = s.drop_first();
        assert(s =~= seq![x] + rest);
        lemma_total_cons(x, rest);
        lemma_passing_cons(x, rest, filter);
        assert forall|i: int| 0 <= i < rest.len() implies #[trigger] rest[i].amount > 0 by {
            assert(rest[i] == s[i + 1]);
        }
        lemma_wf_bounds(rest, 0);
        lemma_passing_bounds(rest, filter);
        if !passes(filter, x.kind) {
            lemma_drain(rest, t, filter);
            lemma_total_cons(x, drain(rest, t, filter));
            lemma_passing_cons(x, drain(rest, t, filter), filter);
            let d = drain(s, t, filter);
            assert(d =~= seq![x] + drain(rest, t, filter));
            assert forall|i: int| 0 <= i < d.len() implies #[trigger] d[i].amount > 0 by {
                if i > 0 {
                    assert(d[i] == drain(rest, t, filter)[i - 1]);
                }
            }
        } else if x.amount <= t {
            lemma_drain(rest, t - x.amount, filter);
        } else {
            let y = ItemStack { kind: x.kind, amount: (x.amount - t) as i32 };
            let d = drain(s, t, filter);
            assert(d =~= seq![y] + rest);
            lemma_total_cons(y, rest);
            lemma_passing_cons(y, rest, filter);
            assert forall|i: int| 0 <= i < d.len() implies #[trigger] d[i].amount > 0 by {
                if i > 0 {
                    assert(d[i] == rest[i - 1]);
                }
            }
        }
    }
}

/// Items passing a filter are between zero and the store's total.
pub proof fn lemma_passing_bounds(s: Seq<ItemStack>, filter: Option<Seq<ItemType>>)
    requires
        forall|i: int| 0 <= i < s.len() ==> #[trigger] s[i].amount > 0,
    ensures
        0 <= passing_total(s, filter) <= stacks_total(s),
    decreases s.len(),
{
    if s.len() > 0 {
        assert forall|i: int| 0 <= i < s.drop_last().len() implies #[trigger] s.drop_last()[i].amount > 0 by {
            assert(s.drop_last()[i] == s[i]);
        }
        lemma_passing_bounds(s.drop_last(), filter);
        assert(s.last().amount > 0);
    }
}

/// Whether `kind` appears in `allowed`.
pub fn kind_in(allowed: &[ItemType], kind: ItemType) -> (res: bool)
    ensures
        res == allowed@.contains(kind),
{
    let mut i: usize = 0;
    while i < allowed.len()
        invariant
            i <= allowed.len(),
            forall|k: int| 0 <= k < i ==> allowed@[k] != kind,
        decreases allowed.len() - i,
    {
        if allowed[i] == kind {
            assert(allowed@[i as int] == kind);
            return true;
        }
        i = i + 1;
    }
    false
}

/// The filter as a sequence of kinds.
pub open spec fn filter_view(filter: Option<&[ItemType]>) -> Option<Seq<ItemType>> {
    match filter {
        None => None,
        Some(f) => Some(f@),
    }
}

/// Moves items from the front of `from` into `to`, as many as `to` has room
/// for below `to_capacity`, only of kinds that pass the filter.
#[verifier::spinoff_prover]
pub fn move_items(
    from: &mut Vec<ItemStack>,
    to: &mut Vec<ItemStack>,
    to_capacity: i32,
    filter: Option<&[ItemType]>,
)
    requires
        stacks_wf(old(from)@),
        stacks_wf(old(to)@),
    ensures
        final(from)@ == drain(old(from)@, to_capacity - stacks_total(old(to)@), filter_view(filter)),
        final(to)@ == fill(old(to)@, moved(old(from)@, to_capacity - stacks_total(old(to)@), filter_view(filter))),
        forall|k: ItemType| #[trigger] kind_amount(final(to)@, k) == kind_amount(old(to)@, k) + kind_amount(old(from)@, k)
            - kind_amount(final(from)@, k),
        stacks_total(final(to)@) == stacks_total(old(to)@) + stacks_total(old(from)@) - stacks_total(final(from)@),
        stacks_wf(final(from)@),
        stacks_wf(final(to)@),
{
    let ghost f0 = from@;
    let ghost t0 = to@;
    let ghost flt = filter_view(filter);
    let total_to = storage_total(to.as_slice());
    let mut remaining: i64 = to_capacity as i64 - total_to as i64;
    let ghost r0 = remaining as int;
    proof {
        lemma_wf_bounds(f0, 0);
        lemma_wf_bounds(t0, 0);
    }
    if remaining <= 0 {
        return;
    }
    proof {
        lemma_passing_bounds(f0, flt);
        lemma_drain(f0, r0, flt);
    }
    let ghost mut prefix: Seq<ItemStack> = Seq::empty();
    let ghost mut j: int = 0;
    assert(f0.skip(0) =~= f0);
    assert(prefix + drain(f0.skip(0), remaining as int, flt) =~= drain(f0, r0, flt));
    assert(moved(f0.skip(0), remaining as int, flt) == moved(f0, r0, flt));
    let mut index: usize = 0;
    while index < from.len() && remaining > 0
        invariant
            0 <= j <= f0.len(),
            index == prefix.len(),
            from@ =~= prefix + f0.skip(j),
            drain(f0, r0, flt) == prefix + drain(f0.skip(j), remaining as int, flt),
            remaining == to_capacity - stacks_total(to@),
            forall|i: int| 0 <= i < prefix.len() ==> #[trigger] prefix[i].amount > 0,
            stacks_wf(f0),
            stacks_wf(to@),
            flt == filter_view(filter),
            forall|k: ItemType| #[trigger] kind_amount(to@, k) + kind_amount(from@, k) == kind_amount(t0, k) + kind_amount(f0, k),
            stacks_total(to@) + stacks_total(from@) == stacks_total(t0) + stacks_total(f0),
            fill(to@, moved(f0.skip(j), remaining as int, flt)) == fill(t0, moved(f0, r0, flt)),
        decreases from.len() - index + remaining,
    {
        let stack = from[index];
        let ghost rest = f0.skip(j);
        proof {
            assert(rest[0] == f0[j]);
            assert(stack == f0[j]);
            assert(rest.drop_first() =~= f0.skip(j + 1));
            assert forall|i: int| 0 <= i < rest.len() implies #[trigger] rest[i].amount > 0 by {
                assert(rest[i] == f0[j + i]);
            }
            lemma_wf_bounds(f0, j);
            lemma_total_concat(prefix, rest);
            lemma_total_cons(stack, rest.drop_first());
            assert(rest =~= seq![stack] + rest.drop_first());
        }
        let pass = match filter {
            None => true,
            Some(f) => kind_in(f, stack.kind),
        };
        if !pass {
            proof {
                assert(moved(rest, remaining as int, flt) == moved(rest.drop_first(), remaining as int, flt));
                prefix = prefix.push(stack);
                j = j + 1;
                assert(prefix + f0.skip(j) =~= (prefix.drop_last() + rest));
                assert(seq![stack] + drain(f0.skip(j), remaining as int, flt) == drain(rest, remaining as int, flt));
                assert(prefix + drain(f0.skip(j), remaining as int, flt) =~= prefix.drop_last() + (seq![stack] + drain(f0.skip(j), remaining as int, flt)));
            }
            index = index + 1;
            continue;
        }
        let take: i32 = if (stack.amount as i64) < remaining { stack.amount } else { remaining as i32 };
        let ghost to_before = to@;
        let added = add_item(to, stack.kind, take, to_capacity);
        proof {
            assert(added == take);
            assert(to@ == stacks_add(to_before, stack.kind, take as int));
            let part = ItemStack { kind: stack.kind, amount: take };
            if stack.amount <= remaining {
                assert(part == stack);
                assert(moved(rest, remaining as int, flt) == seq![stack] + moved(rest.drop_first(), remaining - stack.amount, flt));
            } else {
                assert(moved(rest, remaining as int, flt) == seq![part]);
            }
            assert((seq![part] + moved(rest.drop_first(), remaining - take, flt)).drop_first() =~= moved(rest.drop_first(), remaining - take, flt));
        }
        let ghost from_before = from@;
        from.set(index, ItemStack { kind: stack.kind, amount: stack.amount - added });
        remaining = remaining - added as i64;
        proof {
            lemma_total_split(from_before, index as int);
            lemma_total_split(from@, index as int);
            assert(from_before.take(index as int) =~= prefix);
            assert(from@.take(index as int) =~= prefix);
            assert(from_before.skip(index as int) =~= seq![stack] + rest.drop_first());
            assert(from@.skip(index as int) =~= seq![ItemStack { kind: stack.kind, amount: (stack.amount - added) as i32 }] + rest.drop_first());
            lemma_total_cons(ItemStack { kind: stack.kind, amount: (stack.amount - added) as i32 }, rest.drop_first());
        }
        if from[index].amount <= 0 {
            let ghost before_remove = from@;
            from.remove(index);
            proof {
                j = j + 1;
                assert(from@ =~= prefix + f0.skip(j));
                lemma_total_concat(prefix, f0.skip(j));
                lemma_total_concat(prefix, rest.drop_first());
            }
        } else {
            proof {
                let y = ItemStack { kind: stack.kind, amount: (stack.amount - added) as i32 };
                assert(remaining == 0);
                assert(drain(rest, (remaining + added) as int, flt) == seq![y] + rest.drop_first()) by {
                    assert(rest.update(0, y) =~= seq![y] + rest.drop_first());
                }
                prefix = prefix.push(y);
                j = j + 1;
                assert(from@ =~= prefix + f0.skip(j));
                assert(drain(f0.skip(j), 0, flt) == f0.skip(j));
                assert(prefix + f0.skip(j) =~= prefix.drop_last() + (seq![y] + rest.drop_first()));
            }
            index = index + 1;
        }
    }
    proof {
        if remaining > 0 {
            assert(j == f0.len());
            assert(f0.skip(j) =~= Seq::<ItemStack>::empty());
        }
        assert(drain(f0.skip(j), remaining as int, flt) == f0.skip(j));
        assert(moved(f0.skip(j), remaining as int, flt) =~= Seq::<ItemStack>::empty());
        lemma_drain(f0, r0, flt);
        lemma_passing_bounds(f0, flt);
    }
}

} // verus!

verus! {

/// With an empty filter nothing passes, so draining changes nothing and
/// moves nothing.
pub proof fn lemma_drain_nothing_passes(s: Seq<ItemStack>, t: int, f: Seq<ItemType>)
    requires
        f.len() == 0,
    ensures
        drain(s, t, Some(f)) == s,
        moved(s, t, Some(f)) == Seq::<ItemStack>::empty(),
    decreases s.len(),
{
    if s.len() > 0 && t > 0 {
        assert(!f.contains(s[0].kind));
        lemma_drain_nothing_passes(s.drop_first(), t, f);
        assert(seq![s[0]] + s.drop_first() =~= s);
    }
}

} // verus!

verus! {

/// Amount of one kind held in a store.
pub fn amount_of_kind(stored: &[ItemStack], kind: ItemType) -> (total: i32)
    requires
        stacks_wf(stored@),
    ensures
        total == kind_amount(stored@, kind),
{
    let mut total: i32 = 0;
    let mut i: usize = 0;
    proof {
        lemma_wf_bounds(stored@, 0);
    }
    while i < stored.len()
        invariant
            i <= stored.len(),
            stacks_wf(stored@),
            total == kind_amount(stored@.take(i as int), kind),
        decreases stored.len() - i,
    {
        proof {
            assert(stored@.take(i + 1).drop_last() =~= stored@.take(i as int));
            let p = stored@.take(i + 1);
            assert forall|j: int| 0 <= j < p.len() implies #[trigger] p[j].amount > 0 by {
                assert(p[j] == stored@[j]);
            }
            lemma_wf_bounds(p, 0);
            lemma_wf_bounds(stored@, i + 1);
            assert(p.last() == stored@[i as int]);
            assert(kind_amount(p, kind) == kind_amount(p.drop_last(), kind) + (if p.last().kind == kind { p.last().amount as int } else { 0 }));
        }
        if stored[i].kind == kind {
            total = total + stored[i].amount;
        }
        i = i + 1;
    }
    assert(stored@.take(i as int) =~= stored@);
    total
}

/// Takes up to `remaining` items of one kind out of a store, first stacks
/// first, and returns how many were taken.
pub fn take_kind(stored: &mut Vec<ItemStack>, kind: ItemType, remaining: i32) -> (taken: i32)
    requires
        stacks_wf(old(stored)@),
    ensures
        final(stored)@ == drain(old(stored)@, remaining as int, Some(seq![kind])),
        taken == stacks_total(old(stored)@) - stacks_total(final(stored)@),
        stacks_wf(final(stored)@),
{
    let only = [kind];
    assert(only@ =~= seq![kind]);
    let mut discard: Vec<ItemStack> = Vec::new();
    let ghost before = stored@;
    proof {
        lemma_wf_bounds(stored@, 0);
        lemma_drain(before, remaining as int, Some(seq![kind]));
        lemma_passing_bounds(before, Some(seq![kind]));
    }
    move_items(stored, &mut discard, remaining, Some(only.as_slice()));
    assert(stacks_total(discard@) == stacks_total(before) - stacks_total(stored@));
    proof {
        lemma_wf_bounds(discard@, 0);
    }
    let taken = storage_total(discard.as_slice());
    taken
}

} // verus!

verus! {

/// The items passing a one-kind filter are exactly that kind's amount.
pub proof fn lemma_passing_single(s: Seq<ItemStack>, kind: ItemType)
    ensures
        passing_total(s, Some(seq![kind])) == kind_amount(s, kind),
    decreases s.len(),
{
    if s.len() > 0 {
        lemma_passing_single(s.drop_last(), kind);
        assert(seq![kind].contains(s.last().kind) <==> s.last().kind == kind) by {
            if s.last().kind == kind {
                assert(seq![kind][0] == kind);
            }
        }
    }
}

/// Draining one kind takes exactly `min(t, amount of that kind)` of it (none
/// when `t` is not positive) and leaves every other kind alone.
pub proof fn lemma_drain_kind(s: Seq<ItemStack>, t: int, kind: ItemType)
    requires
        forall|i: int| 0 <= i < s.len() ==> #[trigger] s[i].amount > 0,
    ensures
        ({
            let d = drain(s, t, Some(seq![kind]));
            let taken = if t <= 0 { 0 } else if t < kind_amount(s, kind) { t } else { kind_amount(s, kind) };
            &&& kind_amount(d, kind) == kind_amount(s, kind) - taken
            &&& stacks_total(s) - stacks_total(d) == taken
            &&& forall|k: ItemType| k != kind ==> #[trigger] kind_amount(d, k) == kind_amount(s, k)
            &&& forall|i: int| 0 <= i < d.len() ==> #[trigger] d[i].amount > 0
        }),
{
    lemma_drain(s, t, Some(seq![kind]));
    lemma_passing_single(s, kind);
    lemma_passing_single(drain(s, t, Some(seq![kind])), kind);
    assert forall|k: ItemType| k != kind implies !passes(Some(seq![kind]), k) by {
        if seq![kind].contains(k) {
            let i = choose|i: int| 0 <= i < 1 && seq![kind][i] == k;
        }
    }
}

} // verus!
