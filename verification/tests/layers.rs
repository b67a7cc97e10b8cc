use chip_game::ids::ObjectId;
use chip_game::layers::DrawLayers;

#[test]
fn objects_are_drawn_lower_layers_first() {
    let mut layers = DrawLayers::new();
    layers.set_layer(ObjectId(1), 2);
    layers.set_layer(ObjectId(2), 0);
    layers.set_layer(ObjectId(3), 1);
    layers.set_layer(ObjectId(4), 2);
    let order = layers.iter_ordered();
    assert_eq!(order.len(), 4);
    assert_eq!(order[0], ObjectId(2));
    assert_eq!(order[1], ObjectId(3));
    let mut top: Vec<usize> = order[2..].iter().map(|o| o.0).collect();
    top.sort();
    assert_eq!(top, vec![1, 4]);
}

#[test]
fn moving_and_removing_objects() {
    let mut layers = DrawLayers::new();
    layers.set_layer(ObjectId(1), 5);
    layers.set_layer(ObjectId(2), 3);
    layers.set_layer(ObjectId(1), 1);
    assert_eq!(layers.iter_ordered(), vec![ObjectId(1), ObjectId(2)]);
    layers.set_layer(ObjectId(1), 1);
    assert_eq!(layers.iter_ordered(), vec![ObjectId(1), ObjectId(2)]);
    layers.remove(ObjectId(2));
    assert_eq!(layers.iter_ordered(), vec![ObjectId(1)]);
    layers.remove(ObjectId(9));
    assert_eq!(layers.iter_ordered(), vec![ObjectId(1)]);
}
