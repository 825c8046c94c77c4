use isoengine::anim::{AnimInstance, Instance};
use isoengine::asset::{ServerDb, Type};
use isoengine::asset_db::AssetDb;
use isoengine::camera::Visibility;
use isoengine::db::SharedDb;
use isoengine::entity::EventBus;
use isoengine::time::Duration;

#[test]
fn duration_units() {
    assert_eq!(Duration::sec(3).as_usec(), 3_000_000);
    assert_eq!(Duration::msec(2500).as_sec(), 2);
    assert_eq!(Duration::usec(1999).as_msec(), 1);
    assert_eq!(Duration::sec(1), Duration::msec(1000));
}

#[test]
fn duration_arithmetic() {
    let a = Duration::msec(1500);
    let b = Duration::msec(400);
    assert_eq!(a.plus(b).as_usec(), 1_900_000);
    assert_eq!(a.minus(b), Duration::msec(1100));
    assert_eq!(b.minus(a), Duration::msec(1100));
    assert_eq!(a.modulo(b), Duration::msec(300));
    assert!(b.is_before(a));
    assert!(!a.is_before(a));
}

#[test]
fn shared_db_refuses_duplicate_names() {
    let mut db: SharedDb<u32> = SharedDb::new("sheets");
    assert!(db.insert("grass", 10));
    assert!(db.insert("rock", 20));
    assert!(!db.insert("grass", 30));
    assert_eq!(db.db_name(), "sheets");
    let h = db.get_handle();
    assert_eq!(h.get_id("grass"), Some(0));
    assert_eq!(h.get_id("rock"), Some(1));
    assert_eq!(h.get_id("sand"), None);
    assert_eq!(*h.get_resource(0).unwrap().get(), 10);
    assert_eq!(*h.get_resource(1).unwrap().get(), 20);
    assert!(h.get_resource(2).is_none());
}

#[test]
fn server_db_numbers_sheets_then_anims() {
    let sheets = vec!["hero".to_string(), "tiles".to_string()];
    let anims = vec!["walk".to_string(), "hero".to_string()];
    let db = ServerDb::from_manifest(&sheets, &anims);
    assert_eq!(db.len(), 4);
    assert_eq!(db.type_by_id(0), Some(Type::SpriteSheet));
    assert_eq!(db.type_by_id(2), Some(Type::Animation));
    assert_eq!(db.type_by_id(4), None);
    assert_eq!(db.id_by_name("tiles"), Some(1));
    assert_eq!(db.id_by_name("walk"), Some(2));
    assert_eq!(db.id_by_name("hero"), Some(3));
    assert_eq!(db.type_by_name("hero"), Some(Type::Animation));
    assert_eq!(db.type_by_name("nothing"), None);
    assert_eq!(db.name_of(1), "tiles");
}

#[test]
fn event_bus_is_first_in_first_out() {
    let mut bus = EventBus::new();
    assert_eq!(bus.next(), None);
    bus.fire(1);
    bus.fire(2);
    assert_eq!(bus.next(), Some(1));
    bus.fire(3);
    assert_eq!(bus.next(), Some(2));
    assert_eq!(bus.next(), Some(3));
    assert_eq!(bus.next(), None);
}

#[test]
fn anim_instance_wire_round_trip() {
    let i = Instance { anim_id: 9, t_start: Duration::msec(5), duration: Duration::sec(2), repeat: true };
    let w = i.to_wire();
    assert_eq!(w.id(), 9);
    assert_eq!(w.t_start(), 5000);
    assert_eq!(w.duration(), 2_000_000);
    assert!(w.repeat());
    assert_eq!(Instance::from_wire(&w), i);
    let once = Instance { repeat: false, ..i };
    assert_eq!(Instance::from_wire(&once.to_wire()), once);
    assert_eq!(AnimInstance::new(1, 2, 3, false).repeat(), false);
}

#[test]
fn anim_end_time() {
    let i = Instance { anim_id: 0, t_start: Duration::sec(10), duration: Duration::msec(250), repeat: false };
    assert_eq!(i.end_time(), Duration::msec(10_250));
}

#[test]
fn visibility_from_corners() {
    assert_eq!(Visibility::from_corners(false, true), Visibility::Zero);
    assert_eq!(Visibility::from_corners(true, true), Visibility::Partial);
    assert_eq!(Visibility::from_corners(true, false), Visibility::Full);
}

#[test]
fn asset_db_loads_sheets_on_demand() {
    let sheets = vec![("hero".to_string(), "hero.png"), ("tiles".to_string(), "tiles.png")];
    let anims = vec![("walk".to_string(), 7u16), ("hero".to_string(), 8u16)];
    let mut db: AssetDb<&str, String, u16> = AssetDb::from_manifest(sheets, anims);
    {
        let h = db.get_handle();
        assert_eq!(h.get_id("tiles"), Some(1));
        assert_eq!(h.get_id("hero"), Some(3));
        assert_eq!(h.get_id("none"), None);
        assert_eq!(h.get_anim(2), Some(&7));
        assert_eq!(h.get_anim(0), None);
        assert_eq!(h.get_sprite_sheet(0), None);
        assert_eq!(h.get_sprite_sheet(9), None);
    }
    assert_eq!(db.load(2), None);
    assert_eq!(db.load(1), Some("tiles.png"));
    assert_eq!(db.load(1), None);
    db.loaded(1, "pixels of tiles".to_string());
    db.loaded(0, "never asked for".to_string());
    let h = db.get_handle();
    assert_eq!(h.get_sprite_sheet(1), Some(&"pixels of tiles".to_string()));
    assert_eq!(h.get_sprite_sheet(0), None);
    assert_eq!(h.get_anim(3), Some(&8));
}

#[test]
fn anim_frame_at_time() {
    let once = Instance { anim_id: 0, t_start: Duration::sec(10), duration: Duration::sec(1), repeat: false };
    assert_eq!(once.frame_at(4, Duration::sec(9)), None);
    assert_eq!(once.frame_at(4, Duration::sec(10)), Some(0));
    assert_eq!(once.frame_at(4, Duration::msec(10_500)), Some(2));
    assert_eq!(once.frame_at(4, Duration::msec(10_999)), Some(3));
    assert_eq!(once.frame_at(4, Duration::sec(11)), None);
    let looping = Instance { repeat: true, ..once };
    assert_eq!(looping.frame_at(4, Duration::msec(12_250)), Some(1));
    assert_eq!(looping.frame_at(4, Duration::sec(13)), Some(0));
    assert_eq!(looping.frame_at(4, Duration::msec(9_999)), None);
}
