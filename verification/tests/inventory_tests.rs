// Tests for inventories and crafting.

use terralistic::errors::WorldError;
use terralistic::inventory::{Inventory, Recipe, Recipes};
use terralistic::items::{ItemId, ItemStack};

#[test]
fn test_inventory_get_set() {
    let mut inv = Inventory::new(4);
    assert!(inv.get_item(0).unwrap().is_none());
    assert_eq!(inv.get_item(4).unwrap_err(), WorldError::OutOfBounds);
    let stack = ItemStack::new(ItemId { id: 1 }, 10);
    inv.set_item(2, Some(stack)).unwrap();
    assert_eq!(*inv.get_item(2).unwrap().unwrap(), stack);
    assert_eq!(inv.set_item(9, None).unwrap_err(), WorldError::OutOfBounds);
}

#[test]
fn test_item_count() {
    let mut inv = Inventory::new(5);
    let wood = ItemId { id: 3 };
    inv.set_item(0, Some(ItemStack::new(wood, 10))).unwrap();
    inv.set_item(3, Some(ItemStack::new(wood, 5))).unwrap();
    inv.set_item(4, Some(ItemStack::new(ItemId { id: 9 }, 7))).unwrap();
    assert_eq!(inv.get_item_count(wood), 15);
    assert_eq!(inv.get_item_count(ItemId { id: 9 }), 7);
    assert_eq!(inv.get_item_count(ItemId { id: 8 }), 0);
}

#[test]
fn test_crafting() {
    let wood = ItemId { id: 1 };
    let stone = ItemId { id: 2 };
    let pick = ItemId { id: 3 };
    let recipe = Recipe { result: pick, ingredients: vec![(wood, 2), (stone, 3)] };

    let mut inv = Inventory::new(4);
    inv.set_item(0, Some(ItemStack::new(wood, 2))).unwrap();
    inv.set_item(1, Some(ItemStack::new(stone, 2))).unwrap();
    assert!(!inv.can_craft(&recipe));
    assert_eq!(inv.craft(&recipe).unwrap_err(), WorldError::CannotCraft);

    inv.set_item(2, Some(ItemStack::new(stone, 1))).unwrap();
    assert!(inv.can_craft(&recipe));
    inv.craft(&recipe).unwrap();
    assert_eq!(inv.get_item_count(pick), 1);
    assert_eq!(inv.get_item_count(wood), 0);
    assert_eq!(inv.get_item_count(stone), 0);
}

#[test]
fn test_crafting_no_empty_slot() {
    let wood = ItemId { id: 1 };
    let gem = ItemId { id: 5 };
    let recipe = Recipe { result: gem, ingredients: vec![(wood, 1)] };
    let mut inv = Inventory::new(2);
    // both slots keep leftovers, so the result has nowhere to go
    inv.set_item(0, Some(ItemStack::new(wood, 5))).unwrap();
    inv.set_item(1, Some(ItemStack::new(ItemId { id: 9 }, 1))).unwrap();
    assert_eq!(inv.craft(&recipe).unwrap_err(), WorldError::NoEmptySlot);
}

#[test]
fn test_recipes_catalog() {
    let mut recipes = Recipes::new();
    assert!(recipes.get_recipes().is_empty());
    recipes.add_recipe(Recipe { result: ItemId { id: 1 }, ingredients: vec![] });
    assert_eq!(recipes.get_recipes().len(), 1);
}
