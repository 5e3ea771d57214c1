use vstd::prelude::*;

use crate::errors::WorldError;
use crate::items::{ItemId, ItemStack};

verus! {

/// A crafting recipe: the item it produces and how much of each
/// ingredient it consumes.
pub struct Recipe {
    pub result: ItemId,
    pub ingredients: Vec<(ItemId, i32)>,
}

/// The catalog of crafting recipes.
pub struct Recipes {
    recipes: Vec<Recipe>,
}

impl Recipes {
    pub closed spec fn view_recipes(self) -> Seq<Recipe> {
        self.recipes@
    }

    pub fn new() -> (r: Self)
        ensures
            r.view_recipes().len() == 0,
    {
        Self { recipes: Vec::new() }
    }

    pub fn add_recipe(&mut self, recipe: Recipe)
        ensures
            final(self).view_recipes() == old(self).view_recipes().push(recipe),
    {
        self.recipes.push(recipe);
    }

    pub fn get_recipes(&self) -> (r: &Vec<Recipe>)
        ensures
            r@ == self.view_recipes(),
    {
        &self.recipes
    }
}

/// The total count an inventory holds of one item, as an unbounded sum
/// over its slots.
pub open spec fn count_of(s: Seq<Option<ItemStack>>, item: ItemId) -> int
    decreases s.len(),
{
    if s.len() == 0 {
        0
    } else {
        (match s[0] {
            Some(st) => if st.item == item {
                st.count as int
            } else {
                0
            },
            None => 0,
        }) + count_of(s.drop_first(), item)
    }
}

/// A sum clamped into the `i32` range.
pub open spec fn clamp_i32(x: int) -> int {
    if x > i32::MAX as int {
        i32::MAX as int
    } else if x < i32::MIN as int {
        i32::MIN as int
    } else {
        x
    }
}

/// An item container with a fixed number of slots, each optionally
/// holding a stack.
pub struct Inventory {
    items: Vec<Option<ItemStack>>,
}

impl Inventory {
    /// The slots of the inventory.
    pub closed spec fn slots(self) -> Seq<Option<ItemStack>> {
        self.items@
    }

    /// Every held stack has a positive count.
    pub open spec fn wf(self) -> bool {
        forall|i: int|
            0 <= i < self.slots().len() ==> ((#[trigger] self.slots()[i]) matches Some(st)
                ==> st.count > 0)
    }

    /// Whether the inventory holds enough of every ingredient of a
    /// recipe, measured with counts clamped into the `i32` range.
    pub open spec fn spec_can_craft(self, recipe: Recipe) -> bool {
        forall|j: int|
            0 <= j < recipe.ingredients@.len() ==> clamp_i32(
                count_of(self.slots(), (#[trigger] recipe.ingredients@[j]).0),
            ) >= recipe.ingredients@[j].1 as int
    }

    pub fn new(size: usize) -> (r: Self)
        ensures
            r.wf(),
            r.slots().len() == size,
            forall|i: int| 0 <= i < size ==> (#[trigger] r.slots()[i]) is None,
    {
        Self { items: vec![None; size] }
    }

    /// The stack in one slot.
    pub fn get_item(&self, index: usize) -> (r: Result<Option<&ItemStack>, WorldError>)
        ensures
            index < self.slots().len() ==> (r matches Ok(o) && (match o {
                Some(st) => self.slots()[index as int] == Some(*st),
                None => self.slots()[index as int] is None,
            })),
            index >= self.slots().len() ==> r == Result::<Option<&ItemStack>, WorldError>::Err(
                WorldError::OutOfBounds,
            ),
    {
        if index >= self.items.len() {
            return Err(WorldError::OutOfBounds);
        }
        match &self.items[index] {
            Some(st) => Ok(Some(st)),
            None => Ok(None),
        }
    }

    /// Replaces the stack in one slot.
    pub fn set_item(&mut self, index: usize, item: Option<ItemStack>) -> (r: Result<
        (),
        WorldError,
    >)
        requires
            old(self).wf(),
            item matches Some(st) ==> st.count > 0,
        ensures
            final(self).wf(),
            index < old(self).slots().len() ==> r == Result::<(), WorldError>::Ok(()) && final(self).slots()
                == old(self).slots().update(index as int, item),
            index >= old(self).slots().len() ==> r == Result::<(), WorldError>::Err(
                WorldError::OutOfBounds,
            ) && *final(self) == *old(self),
    {
        if index >= self.items.len() {
            return Err(WorldError::OutOfBounds);
        }
        self.items.set(index, item);
        Ok(())
    }

    /// The total count held of one item, clamped into the `i32` range.
    pub fn get_item_count(&self, item: ItemId) -> (r: i32)
        ensures
            r as int == clamp_i32(count_of(self.slots(), item)),
    {
        let n = self.items.len();
        let mut acc: i128 = 0;
        let mut i: usize = 0;
        while i < n
            invariant
                n == self.slots().len(),
                0 <= i <= n,
                acc == count_of(self.slots().subrange(0, i as int), item),
                -(i as int) * 2147483648 <= acc <= (i as int) * 2147483647,
            decreases n - i,
        {
            proof {
                lemma_count_of_snoc(self.slots(), item, i as int);
                assert((-(i as int) - 1) * 2147483648 <= acc - 2147483648) by (nonlinear_arith)
                    requires
                        -(i as int) * 2147483648 <= acc,
                ;
                assert(((i as int) + 1) * 2147483647 >= acc + 2147483647) by (nonlinear_arith)
                    requires
                        acc <= (i as int) * 2147483647,
                ;
            }
            match &self.items[i] {
                Some(st) => {
                    if st.item.id == item.id {
                        acc = acc + st.count as i128;
                    }
                },
                None => {},
            }
            i += 1;
        }
        proof {
            assert(self.slots().subrange(0, n as int) =~= self.slots());
        }
        if acc > i32::MAX as i128 {
            i32::MAX
        } else if acc < i32::MIN as i128 {
            i32::MIN
        } else {
            acc as i32
        }
    }

    /// Whether the inventory holds enough of every ingredient of a
    /// recipe.
    pub fn can_craft(&self, recipe: &Recipe) -> (r: bool)
        ensures
            r == self.spec_can_craft(*recipe),
    {
        let n = recipe.ingredients.len();
        let mut i: usize = 0;
        while i < n
            invariant
                n == recipe.ingredients@.len(),
                0 <= i <= n,
                forall|j: int|
                    0 <= j < i ==> clamp_i32(
                        count_of(self.slots(), (#[trigger] recipe.ingredients@[j]).0),
                    ) >= recipe.ingredients@[j].1 as int,
            decreases n - i,
        {
            let (item, needed) = recipe.ingredients[i];
            if self.get_item_count(item) < needed {
                return false;
            }
            i += 1;
        }
        true
    }

    /// Crafts a recipe: consumes its ingredients from the slots and
    /// places one result item in a previously free slot. Fails without
    /// touching the inventory when the ingredients are missing; with the
    /// ingredients there, success is owed whenever some slot was already
    /// free (consumption never fills a slot), and a craft that frees no
    /// slot into a full inventory fails with the ingredients already
    /// consumed.
    #[verifier::loop_isolation(false)]
    pub fn craft(&mut self, recipe: &Recipe) -> (r: Result<(), WorldError>)
        requires
            old(self).wf(),
        ensures
            final(self).wf(),
            final(self).slots().len() == old(self).slots().len(),
            !old(self).spec_can_craft(*recipe) ==> r == Result::<(), WorldError>::Err(
                WorldError::CannotCraft,
            ) && *final(self) == *old(self),
            old(self).spec_can_craft(*recipe) && (exists|k: int|
                0 <= k < old(self).slots().len() && old(self).slots()[k] is None) ==> r
                == Result::<(), WorldError>::Ok(()),
            r is Ok ==> exists|k: int|
                0 <= k < old(self).slots().len() && final(self).slots()[k] == Some(
                    ItemStack { item: recipe.result, count: 1 },
                ),
            r is Err && old(self).spec_can_craft(*recipe) ==> r == Result::<(), WorldError>::Err(
                WorldError::NoEmptySlot,
            ),
    {
        if !self.can_craft(recipe) {
            return Err(WorldError::CannotCraft);
        }

        let mut counts_to_remove: Vec<(ItemId, i32)> = Vec::new();
        let m = recipe.ingredients.len();
        let mut t: usize = 0;
        while t < m
            invariant
                m == recipe.ingredients@.len(),
                0 <= t <= m,
                counts_to_remove@.len() == t,
            decreases m - t,
        {
            counts_to_remove.push(recipe.ingredients[t]);
            t += 1;
        }

        let n = self.items.len();
        let mut i: usize = 0;
        while i < n
            invariant
                self.wf(),
                n == self.slots().len(),
                0 <= i <= n,
                forall|k: int|
                    0 <= k < n && old(self).slots()[k] is None ==> (#[trigger] self.slots()[k])
                        is None,
            decreases n - i,
        {
            let slot = self.items[i];
            match slot {
                Some(item) => {
                    let mut j: usize = 0;
                    let cn = counts_to_remove.len();
                    let mut found = false;
                    while j < cn && !found
                        invariant
                            self.wf(),
                            n == self.slots().len(),
                            0 <= i < n,
                            item.count > 0,
                            !(old(self).slots()[i as int] is None),
                            forall|k: int|
                                0 <= k < n && old(self).slots()[k] is None ==> (
                                #[trigger] self.slots()[k]) is None,
                            cn == counts_to_remove@.len(),
                            0 <= j <= cn,
                        decreases cn - j,
                    {
                        let (cid, cleft) = counts_to_remove[j];
                        if cid.id == item.item.id && cleft > 0 {
                            if item.count > cleft {
                                self.items.set(
                                    i,
                                    Some(
                                        ItemStack {
                                            item: item.item,
                                            count: item.count - cleft,
                                        },
                                    ),
                                );
                                counts_to_remove.set(j, (cid, 0));
                            } else {
                                counts_to_remove.set(j, (cid, cleft - item.count));
                                self.items.set(i, None);
                            }
                            found = true;
                        }
                        j += 1;
                    }
                },
                None => {},
            }
            i += 1;
        }

        let mut k: usize = 0;
        while k < n
            invariant
                self.wf(),
                n == self.slots().len(),
                0 <= k <= n,
                forall|t: int|
                    0 <= t < n && old(self).slots()[t] is None ==> (#[trigger] self.slots()[t])
                        is None,
                forall|t: int| 0 <= t < k ==> (#[trigger] self.slots()[t]) is Some,
            decreases n - k,
        {
            match &self.items[k] {
                None => {
                    self.items.set(k, Some(ItemStack { item: recipe.result, count: 1 }));
                    proof {
                        assert((k as int) < old(self).slots().len() && self.slots()[k as int]
                            == Some(ItemStack { item: recipe.result, count: 1 }));
                    }
                    return Ok(());
                },
                Some(_) => {},
            }
            k += 1;
        }
        proof {
            if exists|t: int| 0 <= t < old(self).slots().len() && old(self).slots()[t] is None {
                let t = choose|t: int|
                    0 <= t < old(self).slots().len() && old(self).slots()[t] is None;
                assert(self.slots()[t] is None);
                assert(false);
            }
        }
        Err(WorldError::NoEmptySlot)
    }
}

/// Extending the counted prefix by one slot adds that slot's
/// contribution.
pub proof fn lemma_count_of_snoc(s: Seq<Option<ItemStack>>, item: ItemId, i: int)
    requires
        0 <= i < s.len(),
    ensures
        count_of(s.subrange(0, i + 1), item) == count_of(s.subrange(0, i), item) + (match s[i] {
            Some(st) => if st.item == item {
                st.count as int
            } else {
                0
            },
            None => 0,
        }),
    decreases i,
{
    let a = s.subrange(0, i + 1);
    let b = s.subrange(0, i);
    if i == 0 {
        assert(a.drop_first() =~= Seq::<Option<ItemStack>>::empty());
        assert(b =~= Seq::<Option<ItemStack>>::empty());
        assert(a[0] == s[0]);
    } else {
        let tail = s.subrange(1, s.len() as int);
        lemma_count_of_snoc(tail, item, i - 1);
        assert(tail.subrange(0, i) =~= s.subrange(1, i + 1));
        assert(tail.subrange(0, i - 1) =~= s.subrange(1, i));
        assert(tail[i - 1] == s[i]);
        lemma_count_of_shift(s, item, i + 1);
        lemma_count_of_shift(s, item, i);
    }
}

/// The count of a prefix, computed from the front.
pub proof fn lemma_count_of_shift(s: Seq<Option<ItemStack>>, item: ItemId, k: int)
    requires
        0 < k <= s.len(),
    ensures
        count_of(s.subrange(0, k), item) == (match s[0] {
            Some(st) => if st.item == item {
                st.count as int
            } else {
                0
            },
            None => 0,
        }) + count_of(s.subrange(1, k), item),
{
    let a = s.subrange(0, k);
    assert(a[0] == s[0]);
    assert(a.drop_first() =~= s.subrange(1, k));
}

} // verus!
