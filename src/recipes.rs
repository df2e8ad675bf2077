//! Crafting recipes and their lookup by the item they make.

use vstd::prelude::*;

use crate::ids::Item;

verus! {

/// An item together with how many of it.
#[derive(Debug, Clone, PartialEq, Eq)]
pub struct CountedItem {
    pub item: Item,
    pub count: u8,
}

/// The grid of a shaped recipe, by width and height; an empty cell is `None`.
#[derive(Debug, Clone, PartialEq, Eq)]
pub enum Shape {
    ThreeByThree([[Option<Item>; 3]; 3]),
    ThreeByTwo([[Option<Item>; 3]; 2]),
    ThreeByOne([[Option<Item>; 3]; 1]),
    TwoByThree([[Option<Item>; 2]; 3]),
    TwoByTwo([[Option<Item>; 2]; 2]),
    TwoByOne([[Option<Item>; 2]; 1]),
    OneByThree([[Option<Item>; 1]; 3]),
    OneByTwo([[Option<Item>; 1]; 2]),
    OneByOne([[Option<Item>; 1]; 1]),
}

impl Shape {
    /// Width and height of the grid.
    pub open spec fn size_spec(&self) -> (u8, u8) {
        match self {
            Shape::ThreeByThree(_) => (3, 3),
            Shape::ThreeByTwo(_) => (3, 2),
            Shape::ThreeByOne(_) => (3, 1),
            Shape::TwoByThree(_) => (2, 3),
            Shape::TwoByTwo(_) => (2, 2),
            Shape::TwoByOne(_) => (2, 1),
            Shape::OneByThree(_) => (1, 3),
            Shape::OneByTwo(_) => (1, 2),
            Shape::OneByOne(_) => (1, 1),
        }
    }

    /// Width and height of the grid.
    pub fn size(&self) -> (r: (u8, u8))
        ensures
            r == self.size_spec(),
    {
        match self {
            Shape::ThreeByThree(_) => (3, 3),
            Shape::ThreeByTwo(_) => (3, 2),
            Shape::ThreeByOne(_) => (3, 1),
            Shape::TwoByThree(_) => (2, 3),
            Shape::TwoByTwo(_) => (2, 2),
            Shape::TwoByOne(_) => (2, 1),
            Shape::OneByThree(_) => (1, 3),
            Shape::OneByTwo(_) => (1, 2),
            Shape::OneByOne(_) => (1, 1),
        }
    }
}

/// A crafting recipe: a grid of ingredients, or a list of them in any order.
#[derive(Debug, Clone, PartialEq, Eq)]
pub enum Recipe {
    Shaped { in_shape: Shape, result: CountedItem },
    ShapeLess { ingredients: Vec<Item>, result: CountedItem },
}

impl Recipe {
    /// What the recipe makes.
    pub open spec fn result_spec(&self) -> CountedItem {
        match self {
            Recipe::Shaped { result, .. } => *result,
            Recipe::ShapeLess { result, .. } => *result,
        }
    }

    /// What the recipe makes.
    pub fn result(&self) -> (r: &CountedItem)
        ensures
            *r == self.result_spec(),
    {
        match self {
            Recipe::Shaped { result, .. } => result,
            Recipe::ShapeLess { result, .. } => result,
        }
    }

    /// The grid of a shaped recipe; `None` for a shapeless one.
    pub fn in_shape(&self) -> (r: Option<&Shape>)
        ensures
            match self {
                Recipe::Shaped { in_shape, .. } => r == Some(in_shape),
                Recipe::ShapeLess { .. } => r is None,
            },
    {
        match self {
            Recipe::Shaped { in_shape, .. } => Some(in_shape),
            Recipe::ShapeLess { .. } => None,
        }
    }

    /// The ingredients of a shapeless recipe; `None` for a shaped one.
    pub fn ingredients(&self) -> (r: Option<&[Item]>)
        ensures
            match self {
                Recipe::Shaped { .. } => r is None,
                Recipe::ShapeLess { ingredients, .. } => r matches Some(s) && s@ == ingredients@,
            },
    {
        match self {
            Recipe::Shaped { .. } => None,
            Recipe::ShapeLess { ingredients, .. } => Some(ingredients.as_slice()),
        }
    }
}

/// The item id a recipe makes.
pub open spec fn made_item(r: Recipe) -> u32 {
    r.result_spec().item.0
}

/// Holds of the recipes that make the item `item_id`.
pub open spec fn makes(item_id: u32) -> spec_fn(Recipe) -> bool {
    |x: Recipe| made_item(x) == item_id
}

/// All crafting recipes, looked up by the item they make.
pub struct RecipeBook {
    recipes: Vec<Recipe>,
}

impl RecipeBook {
    /// The recipes of the book, in the order they were given.
    pub closed spec fn recipes_view(&self) -> Seq<Recipe> {
        self.recipes@
    }

    /// A book holding `recipes`.
    pub fn build(recipes: Vec<Recipe>) -> (r: RecipeBook)
        ensures
            r.recipes_view() == recipes@,
    {
        RecipeBook { recipes }
    }

    /// Every recipe that makes `item`, in the order they were given.
    pub fn get_recipes_for_item(&self, item: &Item) -> (r: Vec<&Recipe>)
        ensures
            r@.map_values(|x: &Recipe| *x) == self.recipes_view().filter(makes(item.0)),
    {
        let ghost pred = makes(item.0);
        let mut out: Vec<&Recipe> = Vec::new();
        let mut i: usize = 0;
        proof {
            assert(self.recipes@.take(0) =~= Seq::<Recipe>::empty());
            reveal_with_fuel(Seq::<Recipe>::filter, 1);
            assert(out@.map_values(|x: &Recipe| *x) =~= Seq::<Recipe>::empty());
        }
        while i < self.recipes.len()
            invariant
                pred == makes(item.0),
                i <= self.recipes@.len(),
                out@.map_values(|x: &Recipe| *x) == self.recipes@.take(i as int).filter(pred),
            decreases self.recipes@.len() - i,
        {
            let r = &self.recipes[i];
            let ghost t = self.recipes@.take(i + 1);
            proof {
                assert(t.drop_last() =~= self.recipes@.take(i as int));
                assert(t.last() == self.recipes@[i as int]);
                reveal(Seq::filter);
                assert(t.filter(pred) == if pred(t.last()) {
                    t.drop_last().filter(pred).push(t.last())
                } else {
                    t.drop_last().filter(pred)
                });
                assert(*r == self.recipes@[i as int]);
                assert(pred(t.last()) == (made_item(*r) == item.0));
            }
            let ghost before = out@;
            if r.result().item.0 == item.0 {
                out.push(r);
                assert(out@.map_values(|x: &Recipe| *x) =~= before.map_values(|x: &Recipe| *x).push(
                    *r,
                ));
            }
            i = i + 1;
        }
        assert(self.recipes@.take(self.recipes@.len() as int) =~= self.recipes@);
        out
    }
}

} // verus!
