use life_grid::Cell;

#[test]
fn constructors_pack_the_state_bit() {
    let a = Cell::alive();
    assert!(a.is_alive());
    assert_eq!(a.get_count(), 0);
    assert_eq!(a.to_u8(), 1);
    let d = Cell::dead();
    assert!(!d.is_alive());
    assert_eq!(d.get_count(), 0);
    assert_eq!(d.to_u8(), 0);
}

#[test]
fn set_state_preserves_count() {
    let mut c = Cell::dead();
    c.set_count(5);
    c.set_state(true);
    assert!(c.is_alive());
    assert_eq!(c.get_count(), 5);
    c.set_state(false);
    assert!(!c.is_alive());
    assert_eq!(c.get_count(), 5);
}

#[test]
fn set_count_preserves_state() {
    let mut c = Cell::alive();
    for n in 0..=15u8 {
        c.set_count(n);
        assert_eq!(c.get_count(), n);
        assert!(c.is_alive());
    }
}

#[test]
fn inc_and_dec_move_the_count_field() {
    let mut c = Cell::dead();
    for n in 1..=8u8 {
        c.inc_count();
        assert_eq!(c.get_count(), n);
    }
    for n in (0..8u8).rev() {
        c.dec_count();
        assert_eq!(c.get_count(), n);
    }
    assert_eq!(c.to_u8(), 0);
}

#[test]
fn from_byte_round_trips() {
    for b in [0u8, 1, 2, 3, 16, 17, 30, 31] {
        let c = Cell::from(b);
        assert_eq!(c.to_u8(), b);
        assert_eq!(c.is_alive(), b & 1 == 1);
        assert_eq!(c.get_count(), (b >> 1) & 0xf);
    }
}

#[test]
fn bit_layout_packs_state_and_count() {
    let mut c = Cell::dead();
    c.set_count(3);
    c.set_state(true);
    assert_eq!(c.to_u8(), 0b0000_0111);
}
