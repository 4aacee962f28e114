use emul_4leaf::sounds::{SoundTable, ERROR_INVALID_HANDLE};

#[test]
fn new_sound_starts_stopped_at_its_own_rate() {
    let mut t = SoundTable::new();
    t.create_sound_object(0x100, 0x50, "bgm.wav", 22050);
    assert_eq!(t.sound_frequency_value(0x100), (22050, 0));
    assert_eq!(t.sound_volume_value(0x100), (0, 0));
    assert_eq!(t.sound_pan_value(0x100), (0, 0));
    assert_eq!(t.sound_is_playing_value(0x100), (0, 0));
    assert_eq!(t.sound_is_repeat_value(0x100), (0, 0));
    assert_eq!(t.sounds.get(&0x100).unwrap().path, "bgm.wav");
}

#[test]
fn controls_read_back_what_was_set() {
    let mut t = SoundTable::new();
    t.create_sound_object(0x100, 0x50, "a.wav", 44100);
    assert_eq!(t.set_sound_volume(0x100, -1200), 0);
    assert_eq!(t.set_sound_pan(0x100, 3000), 0);
    assert_eq!(t.set_sound_frequency(0x100, 11025), 0);
    assert_eq!(t.set_sound_repeat(0x100, true), 0);
    assert_eq!(t.sound_volume_value(0x100), (-1200, 0));
    assert_eq!(t.sound_pan_value(0x100), (3000, 0));
    assert_eq!(t.sound_frequency_value(0x100), (11025, 0));
    assert_eq!(t.sound_is_repeat_value(0x100), (1, 0));
}

#[test]
fn playing_pausing_and_stopping() {
    let mut t = SoundTable::new();
    t.create_sound_object(0x100, 0x50, "a.wav", 44100);
    assert_eq!(t.set_sound_playing(0x100, true, false, true), (0, true));
    assert_eq!(t.sound_is_playing_value(0x100), (1, 0));
    assert_eq!(t.set_sound_playing(0x100, true, true, false), (0, false));
    assert_eq!(t.sound_is_playing_value(0x100), (0, 0));
    assert_eq!(t.stop_sound(0x100), (0, true));
    assert!(!t.sounds.get(&0x100).unwrap().playing);
    assert_eq!(t.reset_sound_position(0x100), (0, true));
}

#[test]
fn unknown_and_destroyed_sounds_report_invalid_handle() {
    let mut t = SoundTable::new();
    t.create_sound_object(0x100, 0x50, "a.wav", 8000);
    assert_eq!(t.destroy_sound(0), None);
    assert_eq!(t.destroy_sound(0x100), Some(0));
    assert_eq!(t.destroy_sound(0x100), Some(ERROR_INVALID_HANDLE));
    assert_eq!(t.sound_volume_value(0x100), (-1, ERROR_INVALID_HANDLE));
    assert_eq!(t.sound_frequency_value(0x100), (-1, ERROR_INVALID_HANDLE));
    assert_eq!(t.sound_pan_value(0x100), (0, ERROR_INVALID_HANDLE));
    assert_eq!(t.sound_is_playing_value(0x100), (0, ERROR_INVALID_HANDLE));
    assert_eq!(t.set_sound_volume(0x100, 5), ERROR_INVALID_HANDLE);
    assert_eq!(t.set_sound_playing(0x100, true, false, true), (ERROR_INVALID_HANDLE, false));
    assert_eq!(t.reset_sound_position(0x100), (ERROR_INVALID_HANDLE, false));
    assert!(t.sounds.is_empty());
}
