use xiaozhongsi::choosing::{Choose, Choosing};
use xiaozhongsi::duty::{npc_for, GUARD, GUARD_HALL, GUARD_TREE, VOLUNTEER, VOLUNTEER_AT};
use xiaozhongsi::grid::{map_tile, Cell, COURTYARD_FIRST, COURTYARD_LAST, H, PLAZA_TOP, W};
use xiaozhongsi::keys::{parse_keys, Key, KeyParser};
use xiaozhongsi::weather::weather_icon;
use xiaozhongsi::world::{sky_mark, Action, Id, World, AVATARS, CAT};

fn put(w: &mut World, id: Id, at: Cell) {
    w.put_pilgrim(id, at);
}

fn at(w: &World, id: Id) -> Cell {
    w.position(id).unwrap()
}

fn one() -> (World, Id) {
    let mut w = World::default();
    w.join(1, 0);
    (w, 1)
}

#[test]
fn edges_and_shrine_block_movement() {
    let (mut w, me) = one();
    put(&mut w, me, (1, 1));
    assert!(matches!(w.handle(me, Key::Left), Action::Idle));
    assert_eq!(at(&w, me), (1, 1));
    put(&mut w, me, (1, W - 2));
    assert!(matches!(w.handle(me, Key::Right), Action::Idle));
    put(&mut w, me, (1, 4));
    assert!(matches!(w.handle(me, Key::Up), Action::Idle));
    put(&mut w, me, (1, 2));
    assert!(matches!(w.handle(me, Key::Up), Action::Redraw));
    assert_eq!(at(&w, me), (0, 2));
}

#[test]
fn walk_off_bell_side_leaves() {
    let (mut w, me) = one();
    put(&mut w, me, (0, 0));
    assert!(matches!(w.handle(me, Key::Left), Action::Leave));
    put(&mut w, me, (0, W - 1));
    assert!(matches!(w.handle(me, Key::Right), Action::Leave));
}

#[test]
fn pilgrims_collide_not_overlap() {
    let mut w = World::default();
    w.join(1, 0);
    w.join(2, 0);
    assert_ne!(at(&w, 1), at(&w, 2));
    put(&mut w, 1, (3, 4));
    put(&mut w, 2, (3, 5));
    assert!(matches!(w.handle(1, Key::Right), Action::Idle));
    assert_eq!(at(&w, 1), (3, 4));
}

#[test]
fn garden_gates_leave_flowers_block() {
    let (mut w, me) = one();
    put(&mut w, me, (7, 0));
    assert!(matches!(w.handle(me, Key::Left), Action::Leave));
    put(&mut w, me, (7, W - 1));
    assert!(matches!(w.handle(me, Key::Right), Action::Leave));
    put(&mut w, me, (H - 1, 4));
    assert!(matches!(w.handle(me, Key::Down), Action::Leave));
    put(&mut w, me, (9, 1));
    assert!(matches!(w.handle(me, Key::Left), Action::Idle));
    assert_eq!(at(&w, me), (9, 1));
    put(&mut w, me, (10, 4));
    assert!(matches!(w.handle(me, Key::Down), Action::Redraw));
    assert_eq!(at(&w, me), (11, 4));
    put(&mut w, me, (15, 1));
    assert!(matches!(w.handle(me, Key::Left), Action::Idle));
}

#[test]
fn doorway_is_passage_not_exit() {
    let (mut w, me) = one();
    put(&mut w, me, (6, 3));
    assert!(matches!(w.handle(me, Key::Down), Action::Redraw));
    assert_eq!(at(&w, me), (7, 3));
    put(&mut w, me, (6, 4));
    assert!(matches!(w.handle(me, Key::Down), Action::Idle));
}

#[test]
fn burn_at_censer() {
    let (mut w, me) = one();
    put(&mut w, me, (8, 4));
    assert!(w.render(me).contains("按空格燒香"), "站定有提示");
    assert!(matches!(w.handle(me, Key::Space), Action::Burn));
    assert!(!w.render(me).contains("按空格燒香"), "烧香姿态里不再提示可烧");
    assert!(matches!(w.handle(me, Key::Other), Action::Redraw));
    assert!(w.render(me).contains("按空格燒香"), "起身后又能烧");
    put(&mut w, me, (8, 4));
    assert!(matches!(w.handle(me, Key::Up), Action::Idle));
}

#[test]
fn ring_from_bell_side() {
    let (mut w, me) = one();
    put(&mut w, me, (0, 3));
    assert!(matches!(w.handle(me, Key::Space), Action::Ring));
    assert!(!w.render(me).contains("按空格撞鐘"), "撞钟姿态里不再提示可撞");
    assert!(matches!(w.handle(me, Key::Other), Action::Redraw));
    assert!(w.render(me).contains(AVATARS[0]));
    put(&mut w, me, (0, 5));
    assert!(matches!(w.handle(me, Key::Space), Action::Ring));
    w.handle(me, Key::Other);
    put(&mut w, me, (1, 4));
    assert!(matches!(w.handle(me, Key::Space), Action::Ring));
}

#[test]
fn gate_warns_before_leaving() {
    let (mut w, me) = one();
    put(&mut w, me, (7, 2));
    assert!(!w.render(me).contains("即出寺"), "还没到门口时不提示");
    put(&mut w, me, (7, 0));
    assert!(w.render(me).contains("← 再往左一步 · 即出寺"));
}

#[test]
fn space_elsewhere_does_nothing() {
    let (mut w, me) = one();
    put(&mut w, me, (3, 2));
    assert!(matches!(w.handle(me, Key::Space), Action::Idle));
}

#[test]
fn pilgrims_see_each_other() {
    let mut w = World::default();
    w.join(1, 0);
    w.join(2, 5);
    put(&mut w, 1, (9, 4));
    put(&mut w, 2, (9, 2));
    let seen = w.render(1);
    assert!(seen.contains(AVATARS[0]), "看得见自己");
    assert!(seen.contains(AVATARS[5]), "看得见别人");
    assert!(seen.contains("● 2"), "顶行绿点显示 2 人在线");
    w.leave(2);
    assert!(!w.render(1).contains(AVATARS[5]), "走了就看不见了");
}

#[test]
fn cat_is_rendered_but_not_a_person() {
    let mut w = World::default();
    w.join(1, 0);
    w.put_cat((9, 5));
    put(&mut w, 1, (9, 4));
    let seen = w.render(1);
    assert!(seen.contains(CAT), "看得见猫");
    assert!(seen.contains("● 1"), "猫不算在线玩家");
}

#[test]
fn person_and_cat_block_each_other() {
    let mut w = World::default();
    w.join(1, 0);
    w.put_cat((9, 4));
    put(&mut w, 1, (9, 3));
    assert!(matches!(w.handle(1, Key::Right), Action::Idle));
    assert_eq!(at(&w, 1), (9, 3));
    w.join(2, 1);
    w.join(3, 2);
    w.join(4, 3);
    put(&mut w, 1, (8, 4));
    put(&mut w, 2, (10, 4));
    put(&mut w, 3, (9, 3));
    put(&mut w, 4, (9, 5));
    assert!(!w.wander_cat(), "四周都占满，猫不动");
    assert_eq!(w.cat_at(), (9, 4));
}

#[test]
fn pet_cat_when_adjacent() {
    let mut w = World::default();
    w.join(1, 0);
    w.put_cat((9, 4));
    put(&mut w, 1, (9, 3));
    assert!(w.render(1).contains("按空格撸貓"), "挨着猫有提示");
    assert!(matches!(w.handle(1, Key::Space), Action::Pet));
    let seen = w.render(1);
    assert!(seen.contains(AVATARS[0]), "撸猫时头像不变");
    assert!(!seen.contains("按空格撸貓"), "撸猫姿态里不再提示");
    assert!(seen.contains(CAT), "猫仍是 🐱");
    assert!(!w.wander_cat(), "被撸时猫定住不走");
    assert!(matches!(w.handle(1, Key::Other), Action::Redraw));
    assert!(w.render(1).contains("按空格撸貓"), "起身后又能撸");
    put(&mut w, 1, (9, 2));
    assert!(!w.render(1).contains("按空格撸貓"));
}

#[test]
fn cat_wanders_within_plaza() {
    let mut w = World::default();
    for _ in 0..300 {
        w.wander_cat();
        let (r, c) = w.cat_at();
        assert!((PLAZA_TOP..H).contains(&r) && c < W, "猫在庙外(广场+下院): {:?}", (r, c));
        assert_eq!(map_tile(r, c), '.', "猫只踩空地: {:?}", (r, c));
    }
}

#[test]
fn npc_schedule_follows_shanghai_time() {
    let m = |h: u32, mi: u32| h * 60 + mi;
    assert_eq!(npc_for(m(5, 59)), None, "06 点前无人");
    assert_eq!(npc_for(m(6, 0)).unwrap().at, GUARD_TREE);
    assert!(npc_for(m(6, 0)).unwrap().line.contains("早"));
    assert!(npc_for(m(10, 0)).unwrap().line.contains("中午"));
    assert_eq!(npc_for(m(12, 0)), None, "午休无人");
    assert_eq!(npc_for(m(13, 59)), None);
    let a = npc_for(m(14, 0)).unwrap();
    assert_eq!(a.at, GUARD_HALL, "14–16 点在庙堂");
    assert_eq!(a.glyph, GUARD);
    assert_eq!(npc_for(m(16, 0)).unwrap().at, GUARD_HALL);
    let v = npc_for(m(18, 0)).unwrap();
    assert_eq!((v.at, v.glyph), (VOLUNTEER_AT, VOLUNTEER));
    assert!(v.line.contains("志願者"), "对话强调志愿者身份");
    assert!(npc_for(m(21, 29)).is_some(), "21:29 志愿者还在");
    assert_eq!(npc_for(m(21, 30)), None, "21:30 后无人");
    assert_eq!(npc_for(m(3, 0)), None, "后半夜无人");
}

#[test]
fn npc_and_tree_block_and_talk() {
    let mut w = World::default();
    w.join(1, 0);
    w.update_npc(6 * 60);
    put(&mut w, 1, (16, 4));
    assert!(w.render(1).contains("按空格搭話"), "挨着 NPC 有提示");
    assert!(matches!(w.handle(1, Key::Space), Action::Talk));
    assert!(w.render(1).contains("🙋 「早"), "对话头像后带空格和引号");
    assert!(matches!(w.handle(1, Key::Other), Action::Redraw));
    assert!(matches!(w.handle(1, Key::Up), Action::Idle));
    assert_eq!(at(&w, 1), (16, 4));
    put(&mut w, 1, (13, 4));
    assert!(w.render(1).contains("按空格看看"), "挨着树有提示");
    assert!(matches!(w.handle(1, Key::Space), Action::Talk));
    assert!(w.render(1).contains("老樹"), "弹出看树的话");
    assert!(matches!(w.handle(1, Key::Other), Action::Redraw));
    assert!(matches!(w.handle(1, Key::Down), Action::Idle), "树挡路");
}

#[test]
fn online_counts_only_connected_players() {
    let mut w = World::default();
    w.join(1, 0);
    w.update_npc(8 * 60);
    assert_eq!(w.online(), 1, "大爷不算在线玩家");
    assert!(w.render(1).contains("● 1"));
    w.join(2, 3);
    assert_eq!(w.online(), 2);
    assert!(w.render(1).contains("● 2"));
}

#[test]
fn ghost_haunts_bell_after_midnight() {
    let n = npc_for(60).expect("凌晨一点该有幽灵");
    assert_eq!(n.glyph, "👻");
    assert_eq!(n.at, (0, 5));
    assert_eq!(n.line, "......");
    assert!(npc_for(2 * 60).is_none(), "两点后幽灵散去");

    let mut w = World::default();
    w.update_npc(60);
    w.join(1, 0);
    put(&mut w, 1, (1, 5));
    assert!(matches!(w.handle(1, Key::Space), Action::Talk));
    assert!(w.render(1).contains("👻 「......」"));
    assert_eq!(w.online(), 1, "幽灵不算在线玩家");
}

#[test]
fn staff_talk_says_letter_first_then_line() {
    let mut w = World::default();
    w.set_letter_text("今天是隔壁活動日".into());
    w.update_npc(6 * 60);
    w.join(1, 0);
    put(&mut w, 1, (16, 4));
    assert!(matches!(w.handle(1, Key::Space), Action::Talk));
    assert!(w.render(1).contains("🙋 「今天是隔壁活動日」"), "先带一句信");
    assert!(matches!(w.handle(1, Key::Space), Action::Talk));
    assert!(w.render(1).contains("🙋 「早"), "接着说本来的话");
    assert!(matches!(w.handle(1, Key::Other), Action::Redraw));
    assert!(!w.render(1).contains("「今天是隔壁活動日」"));
}

#[test]
fn no_letter_or_ghost_talk_is_single_line() {
    let mut w = World::default();
    w.update_npc(6 * 60);
    w.join(1, 0);
    put(&mut w, 1, (16, 4));
    assert!(matches!(w.handle(1, Key::Space), Action::Talk));
    assert!(w.render(1).contains("🙋 「早"));
    assert!(matches!(w.handle(1, Key::Space), Action::Redraw), "单句，空格即起身");

    let mut w = World::default();
    w.set_letter_text("今天是隔壁活動日".into());
    w.update_npc(60);
    w.join(2, 0);
    put(&mut w, 2, (1, 5));
    assert!(matches!(w.handle(2, Key::Space), Action::Talk));
    let s = w.render(2);
    assert!(s.contains("👻 「......」") && !s.contains("活動日"), "幽灵单句");
}

#[test]
fn weather_icon_maps_conditions() {
    assert_eq!(weather_icon(true, 95, 10, 0.0 > 0.0), "⛈️", "雷雨");
    assert_eq!(weather_icon(false, 71, 90, 0.0 > 0.0), "🌨️", "雪");
    assert_eq!(weather_icon(true, 0, 0, 0.3 > 0.0), "🌧️", "有雨量就是雨");
    assert_eq!(weather_icon(true, 51, 80, 0.0 > 0.0), "🌧️", "毛毛雨算雨");
    assert_eq!(weather_icon(true, 45, 100, 0.0 > 0.0), "🌫️", "雾");
    assert_eq!(weather_icon(true, 0, 10, 0.0 > 0.0), "☀️", "白天晴");
    assert_eq!(weather_icon(true, 2, 50, 0.0 > 0.0), "⛅", "白天多云");
    assert_eq!(weather_icon(true, 3, 90, 0.0 > 0.0), "☁️", "白天阴");
    assert_eq!(weather_icon(false, 0, 10, 0.0 > 0.0), "🌙", "晴夜");
    assert_eq!(weather_icon(false, 3, 90, 0.0 > 0.0), "☁️", "阴夜");
}

#[test]
fn weather_overrides_fallback_icon_but_keeps_time() {
    let mut w = World::default();
    w.join(1, 0);
    w.update_npc(12 * 60 + 30);
    assert!(w.render(1).contains("⚡  12:30"));
    assert!(w.set_weather(Some("🌧️")));
    let s = w.render(1);
    assert!(s.contains("🌧️  12:30"), "图标随天气、时间照旧");
    assert!(!s.contains("⚡  12:30"));
    assert!(w.set_weather(None));
    assert!(w.render(1).contains("⚡  12:30"));
}

#[test]
fn daily_cart_appears_in_range() {
    let mut w = World::default();
    assert!(w.tick_cart(6 * 60, 100), "06:00 起放一辆车");
    let at = w.cart_at().unwrap();
    assert!((COURTYARD_FIRST..=COURTYARD_LAST).contains(&at.0), "落在出生点到树之间那几行");
    assert_eq!(map_tile(at.0, at.1), '.', "落在空地");
    assert!(!w.tick_cart(9 * 60, 100), "当天只放一辆");
    assert!(w.tick_cart(6 * 60, 101), "隔天再放一辆");
}

#[test]
fn pushing_cart_moves_both() {
    let mut w = World::default();
    w.join(1, 0);
    w.place_cart((12, 4));
    put(&mut w, 1, (12, 3));
    assert!(w.render(1).contains("🛒 購物車"), "挨着车有提示");
    assert!(matches!(w.handle(1, Key::Space), Action::Talk));
    assert!(w.render(1).contains("推得動"), "按空格告知能推");
    assert!(matches!(w.handle(1, Key::Other), Action::Redraw));
    assert!(matches!(w.handle(1, Key::Right), Action::Redraw));
    assert_eq!(w.cart_at().unwrap(), (12, 5), "车往右一格");
    assert_eq!(at(&w, 1), (12, 4), "人跟进车原来那格");
}

#[test]
fn cart_bounces_off_wall() {
    let mut w = World::default();
    w.join(1, 0);
    w.place_cart((12, 1));
    put(&mut w, 1, (12, 2));
    assert!(matches!(w.handle(1, Key::Left), Action::Redraw));
    let c = w.cart_at().unwrap();
    assert!(c == (11, 1) || c == (13, 1), "撞墙往垂直弹开，实际 {c:?}");
    assert_ne!(c, (12, 0), "没被推进墙里");
    assert_eq!(at(&w, 1), (12, 1), "人进到车原来那格");
}

#[test]
fn cart_bounces_off_a_person_too() {
    let mut w = World::default();
    w.join(1, 0);
    w.join(2, 3);
    w.place_cart((12, 4));
    put(&mut w, 1, (12, 3));
    put(&mut w, 2, (12, 5));
    assert!(matches!(w.handle(1, Key::Right), Action::Redraw));
    let c = w.cart_at().unwrap();
    assert!(c == (11, 4) || c == (13, 4), "撞人往垂直弹开，实际 {c:?}");
    assert_ne!(c, (12, 5), "没叠到人身上");
    assert_eq!(at(&w, 1), (12, 4), "人进到车原来那格");
}

#[test]
fn cart_cannot_enter_the_hall() {
    let mut w = World::default();
    w.join(1, 0);
    w.place_cart((7, 3));
    put(&mut w, 1, (8, 3));
    assert!(matches!(w.handle(1, Key::Up), Action::Redraw));
    let c = w.cart_at().unwrap();
    assert!(c.0 >= PLAZA_TOP, "车没进大殿，实际 {c:?}");
    assert_eq!(c, (7, 2), "往可走的一侧弹开（(7,4)是香炉）");
}

#[test]
fn cart_pushed_outside_returns_to_courtyard() {
    let mut w = World::default();
    w.join(1, 0);
    w.place_cart((17, 4));
    put(&mut w, 1, (16, 4));
    assert!(matches!(w.handle(1, Key::Down), Action::Redraw));
    let c = w.cart_at().unwrap();
    assert!((COURTYARD_FIRST..=COURTYARD_LAST).contains(&c.0), "回到出生那几行，实际 {c:?}");
    assert_ne!(c, (17, 4), "不在原地");
    assert_eq!(at(&w, 1), (17, 4), "人进到车原来那格");
}

#[test]
fn walk_hint_only_before_first_move() {
    let mut w = World::default();
    w.join(1, 0);
    assert!(w.render(1).contains("方向鍵走動"), "刚进寺给一次走动提示");
    assert!(matches!(w.handle(1, Key::Left), Action::Redraw));
    assert!(!w.render(1).contains("方向鍵走動"), "动过之后不再提示");
}

#[test]
fn sky_mark_is_hhmm() {
    let m = |h: u32, mm: u32| h * 60 + mm;
    assert_eq!(sky_mark(m(12, 0)), "⚡  12:00");
    assert_eq!(sky_mark(m(5, 9)), "⚡  05:09");
    assert_eq!(sky_mark(m(23, 45)), "⚡  23:45");
    assert_eq!(sky_mark(m(0, 0)), "⚡  00:00");
    let mut w = World::default();
    w.join(1, 0);
    w.update_npc(m(14, 23));
    let screen = w.render(1);
    assert!(screen.contains("⚡  14:23"), "无天气时兜底 ⚡ + 时间");
    assert!(screen.contains("● 1"), "顶行绿点显示在线数");
}

#[test]
fn hint_at_bell() {
    let (mut w, me) = one();
    put(&mut w, me, (0, 3));
    assert!(w.render(me).contains("按空格撞鐘"));
}

#[test]
fn bell_and_censer_change_while_active() {
    let mut w = World::default();
    w.join(1, 0);
    w.join(2, 5);
    put(&mut w, 2, (1, 1));
    assert!(w.render(2).contains("🔔"), "平时是钟");
    put(&mut w, 1, (0, 3));
    assert!(matches!(w.handle(1, Key::Space), Action::Ring));
    let seen = w.render(2);
    assert!(seen.contains("✨") && !seen.contains("🔔"), "撞钟时钟变 ✨");
    w.handle(1, Key::Other);
    assert!(w.render(2).contains("🔔"), "起身后复原");

    put(&mut w, 2, (9, 2));
    assert!(w.render(2).contains("🔥"), "平时是香炉");
    put(&mut w, 1, (8, 4));
    assert!(matches!(w.handle(1, Key::Space), Action::Burn));
    let seen = w.render(2);
    assert!(seen.contains("✨") && !seen.contains("🔥"), "烧香时香炉迸 ✨");
}

#[test]
fn choosing_then_confirm() {
    let mut c = Choosing::new();
    assert!(c.render().contains("先擇一副面容"));
    assert!(matches!(c.handle(Key::Right), Choose::Redraw));
    assert!(matches!(c.handle(Key::Right), Choose::Redraw));
    assert!(matches!(c.handle(Key::Enter), Choose::Picked(2)));
}

#[test]
fn choosing_quit_leaves() {
    let mut c = Choosing::new();
    assert!(matches!(c.handle(Key::Quit), Choose::Leave));
    assert!(matches!(c.handle(Key::Other), Choose::Idle));
}

#[test]
fn stale_avatar_index_falls_back() {
    let mut w = World::default();
    w.join(1, AVATARS.len() + 99);
    assert!(w.render(1).contains(AVATARS[0]));
}

#[test]
fn arrow_sequences_parse() {
    assert_eq!(parse_keys(b"\x1b[A"), vec![Key::Up]);
    assert_eq!(parse_keys(b"\x1b[B\x1b[C"), vec![Key::Down, Key::Right]);
    assert_eq!(parse_keys(b" "), vec![Key::Space]);
    assert_eq!(parse_keys(b"q"), vec![Key::Quit]);
}

#[test]
fn fragmented_csi_arrows_reassemble() {
    let mut p = KeyParser::default();
    assert!(p.feed(b"\x1b").is_empty());
    assert!(p.feed(b"[").is_empty());
    assert_eq!(p.feed(b"A"), vec![Key::Up]);
    assert!(p.feed(b"\x1b[").is_empty());
    assert_eq!(p.feed(b"B w"), vec![Key::Down, Key::Space, Key::Up]);
}

#[test]
fn praying_beside_another_pilgrim() {
    let mut w = World::default();
    w.join(1, 0);
    w.join(2, 1);
    put(&mut w, 1, (3, 4));
    put(&mut w, 2, (3, 5));
    assert!(matches!(w.handle(1, Key::Space), Action::Redraw));
    let mine = w.render(1);
    assert!(mine.contains("你進行了祈禱 🙏"));
    assert!(mine.contains("✨"));
    assert!(!mine.contains(AVATARS[0]), "the praying pilgrim is drawn as a sparkle");
    assert!(!w.render(2).contains("你進行了祈禱"), "only the one praying sees the line");
    assert_eq!(at(&w, 2), (3, 5));
    assert!(w.render(2).contains(AVATARS[1]), "the other pilgrim is left as they are");
    assert!(matches!(w.handle(1, Key::Other), Action::Redraw));
    assert!(!w.render(1).contains("你進行了祈禱"), "any key rises");
    assert!(w.render(1).contains(AVATARS[0]));
}

#[test]
fn murmuring_the_letter_after_the_bell() {
    let mut w = World::default();
    w.set_letter_text("X".to_string());
    w.join(1, 0);
    put(&mut w, 1, (0, 3));
    assert!(matches!(w.handle(1, Key::Space), Action::Ring));
    assert!(matches!(w.handle(1, Key::Other), Action::Talk));
    assert!(w.render(1).contains(&format!("{} 「X」", AVATARS[0])));
    assert!(w.render(1).contains("🔔"), "the bell has stopped sparkling");
    assert!(matches!(w.handle(1, Key::Other), Action::Redraw));
    assert!(!w.render(1).contains("「X」"));
}

#[test]
fn without_a_letter_the_bell_rises_at_once() {
    let mut w = World::default();
    w.join(1, 0);
    put(&mut w, 1, (0, 3));
    assert!(matches!(w.handle(1, Key::Space), Action::Ring));
    assert!(matches!(w.handle(1, Key::Other), Action::Redraw));
    assert!(w.render(1).contains("按空格撞鐘"));
}

#[test]
fn placed_cart_stops_the_daily_cart() {
    let mut w = World::default();
    w.place_cart((12, 4));
    assert!(!w.tick_cart(6 * 60, 100));
    assert_eq!(w.cart_at(), Some((12, 4)));
    assert!(!w.tick_cart(6 * 60, 101));
    assert_eq!(w.cart_at(), Some((12, 4)));
}

#[test]
fn cart_out_beside_censer_lands_below_tree() {
    let mut w = World::default();
    w.join(1, 0);
    w.place_cart((7, 0));
    put(&mut w, 1, (7, 1));
    assert!(matches!(w.handle(1, Key::Left), Action::Redraw));
    assert_eq!(w.cart_at(), Some((16, 4)));
    assert_eq!(at(&w, 1), (7, 0));
}

#[test]
fn cart_out_beside_censer_lands_next_to_a_taken_cell() {
    let mut w = World::default();
    w.join(1, 0);
    w.join(2, 0);
    put(&mut w, 2, (16, 4));
    w.place_cart((7, 8));
    put(&mut w, 1, (7, 7));
    assert!(matches!(w.handle(1, Key::Right), Action::Redraw));
    let c = w.cart_at().unwrap();
    assert!([(15, 4), (17, 4), (16, 3), (16, 5)].contains(&c), "next to the taken cell, got {c:?}");
}

#[test]
fn cart_shoves_the_cat_ahead() {
    let mut w = World::default();
    w.join(1, 0);
    w.place_cart((12, 4));
    w.pin_cat((12, 5));
    put(&mut w, 1, (12, 3));
    assert!(matches!(w.handle(1, Key::Right), Action::Redraw));
    assert_eq!(w.cat_at(), (12, 6));
    assert_eq!(w.cart_at(), Some((12, 5)));
    assert_eq!(at(&w, 1), (12, 4));
}

#[test]
fn shoved_cat_skids_away_from_the_exits() {
    let mut w = World::default();
    w.join(1, 0);
    w.place_cart((12, 6));
    w.pin_cat((12, 7));
    put(&mut w, 1, (12, 5));
    assert!(matches!(w.handle(1, Key::Right), Action::Redraw));
    assert_eq!(w.cat_at(), (13, 7), "the hedge stops it; (13,7) is farther from an exit than (11,7)");
    assert_eq!(w.cart_at(), Some((12, 7)));
}

#[test]
fn cat_shoved_out_of_the_gate_comes_back_beside_the_censer() {
    let mut w = World::default();
    w.join(1, 0);
    w.place_cart((16, 4));
    w.pin_cat((17, 4));
    put(&mut w, 1, (15, 4));
    assert!(matches!(w.handle(1, Key::Down), Action::Redraw));
    let cat = w.cat_at();
    assert!(cat == (7, 1) || cat == (7, 7), "got {cat:?}");
    assert_eq!(w.cart_at(), Some((17, 4)));
    assert_eq!(at(&w, 1), (16, 4));
}

#[test]
fn skidding_cart_shoves_the_cat_aside() {
    let mut w = World::default();
    w.join(1, 0);
    w.join(2, 0);
    w.place_cart((12, 1));
    put(&mut w, 1, (12, 2));
    put(&mut w, 2, (11, 1));
    w.pin_cat((13, 1));
    assert!(matches!(w.handle(1, Key::Left), Action::Redraw));
    assert_eq!(w.cat_at(), (14, 1));
    assert_eq!(w.cart_at(), Some((13, 1)));
    assert_eq!(at(&w, 1), (12, 1));
}

#[test]
fn skid_prefers_the_side_far_from_exits() {
    let mut w = World::default();
    w.join(1, 0);
    w.join(2, 3);
    w.place_cart((12, 4));
    put(&mut w, 1, (12, 3));
    put(&mut w, 2, (12, 5));
    assert!(matches!(w.handle(1, Key::Right), Action::Redraw));
    assert_eq!(w.cart_at(), Some((11, 4)));
    assert_eq!(at(&w, 1), (12, 4));
}

#[test]
fn hall_bounce_leaves_a_note_until_the_next_step() {
    let mut w = World::default();
    w.join(1, 0);
    w.place_cart((7, 3));
    put(&mut w, 1, (8, 3));
    assert!(matches!(w.handle(1, Key::Up), Action::Redraw));
    assert_eq!(w.cart_at(), Some((7, 2)));
    assert!(w.render(1).contains("院中推車 · 不進大殿"));
    assert!(matches!(w.handle(1, Key::Down), Action::Redraw));
    assert!(!w.render(1).contains("院中推車"));
}

#[test]
fn hall_bounce_with_no_way_out_still_notes() {
    let mut w = World::default();
    w.join(1, 0);
    w.join(2, 0);
    w.place_cart((7, 3));
    put(&mut w, 1, (8, 3));
    put(&mut w, 2, (7, 2));
    assert!(matches!(w.handle(1, Key::Up), Action::Redraw));
    assert_eq!(w.cart_at(), Some((7, 3)));
    assert_eq!(at(&w, 1), (8, 3));
    assert!(w.render(1).contains("院中推車 · 不進大殿"));
}
