use mcproto::categories::{has_axis, is_fence, is_portal, is_slab, is_stairs, is_trapdoor, is_wall, name_ends_with};
use mcproto::ids::Item;
use mcproto::recipes::{CountedItem, Recipe, RecipeBook, Shape};

#[test]
fn block_name_categories() {
    assert!(is_stairs("oak_stairs"));
    assert!(!is_stairs("stairs"));
    assert!(is_trapdoor("iron_trapdoor"));
    assert!(is_slab("oak_slab"));
    assert!(!is_slab("oak_slabs"));
    assert!(is_wall("cobblestone_wall"));
    assert!(is_fence("oak_fence"));
    assert!(is_fence("oak_fence_gate"));
    assert!(!is_fence("fence"));
    assert!(is_portal("nether_portal"));
    assert!(has_axis("oak_log"));
    assert!(has_axis("polished_basalt"));
    assert!(!has_axis("oak_planks"));
    assert!(name_ends_with("abc", ""));
    assert!(!name_ends_with("", "a"));
}

fn book() -> RecipeBook {
    RecipeBook::build(vec![
        Recipe::ShapeLess { ingredients: vec![Item::from_id(23)], result: CountedItem { item: Item::from_id(662), count: 1 } },
        Recipe::Shaped {
            in_shape: Shape::TwoByTwo([[Some(Item::from_id(23)), None], [None, Some(Item::from_id(23))]]),
            result: CountedItem { item: Item::from_id(5), count: 4 },
        },
        Recipe::Shaped {
            in_shape: Shape::OneByOne([[Some(Item::from_id(9))]]),
            result: CountedItem { item: Item::from_id(662), count: 2 },
        },
    ])
}

#[test]
fn recipes_by_item() {
    let book = book();
    let got = book.get_recipes_for_item(&Item::from_id(662));
    assert_eq!(got.len(), 2);
    assert_eq!(got[0].result().item, Item::from_id(662));
    assert_eq!(got[0].result().count, 1);
    assert_eq!(got[0].ingredients(), Some(&[Item::from_id(23)][..]));
    assert!(got[0].in_shape().is_none());
    assert_eq!(got[1].result().count, 2);
    match got[1].in_shape() {
        Some(Shape::OneByOne(shape)) => assert_eq!(shape[0][0], Some(Item::from_id(9))),
        _ => panic!("Unexpected shape"),
    }
    assert!(book.get_recipes_for_item(&Item::from_id(1)).is_empty());
    let five = book.get_recipes_for_item(&Item::from_id(5));
    assert_eq!(five[0].in_shape().unwrap().size(), (2, 2));
    assert!(five[0].ingredients().is_none());
}

#[test]
fn shape_sizes() {
    assert_eq!(Shape::ThreeByOne([[None, None, None]]).size(), (3, 1));
    assert_eq!(Shape::OneByThree([[None], [None], [None]]).size(), (1, 3));
}
