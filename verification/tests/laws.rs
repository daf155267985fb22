use xiaozhongsi::choosing::{Choose, Choosing};
use xiaozhongsi::keys::Key;
use xiaozhongsi::world::World;

#[test]
fn left_then_right_comes_back() {
    let mut c = Choosing::new();
    let start = c.render();
    assert_eq!(c.handle(Key::Left), Choose::Redraw);
    assert_ne!(c.render(), start);
    assert_eq!(c.handle(Key::Right), Choose::Redraw);
    assert_eq!(c.render(), start);
    for _ in 0..6 {
        c.handle(Key::Right);
    }
    assert_eq!(c.render(), start);
    assert_eq!(c.handle(Key::Enter), Choose::Picked(0));
}

#[test]
fn newcomers_land_on_free_cells() {
    let mut w = World::default();
    for id in 1..=5 {
        w.join(id, 0);
    }
    let spots: Vec<_> = (1..=5).map(|id| w.position(id).unwrap()).collect();
    for i in 0..spots.len() {
        for j in i + 1..spots.len() {
            assert_ne!(spots[i], spots[j]);
        }
        assert_ne!(spots[i], w.cat_at());
    }
    assert_eq!(w.online(), 5);
}
